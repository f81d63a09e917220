//! Hostnames: the port suffix, literal addresses, the registrable domain,
//! and the host part of a URL.

use crate::addr::{ipv4_of, Ipv4};
use crate::text::{
    before, char_views, find, lemma_split_nonempty, split, split_chars, starts_with, to_chars,
    to_string,
};
use vstd::prelude::*;

verus! {

/// Why a hostname yields no address set.
#[derive(Clone, Copy, Debug, PartialEq, Eq, Structural)]
pub enum ResolveError {
    /// The hostname has an empty label or fewer than two labels.
    InvalidHostname,
    /// The query for the domain's nameservers failed, or the query for the
    /// address of one of them failed or came back empty.
    NameServerLookupFailure,
    /// A nameserver's address is not an IPv4 address.
    MalformedNameServerAddress,
}

impl ResolveError {
    /// The sentence that `message` returns.
    pub open spec fn message_text(self) -> Seq<char> {
        match self {
            ResolveError::InvalidHostname => "hostname needs two non-empty labels"@,
            ResolveError::NameServerLookupFailure => "could not look up the domain's nameservers"@,
            ResolveError::MalformedNameServerAddress => "nameserver address is not IPv4"@,
        }
    }

    /// A sentence for the operator.
    pub fn message(&self) -> (s: String)
        ensures
            s@ == self.message_text(),
    {
        match self {
            ResolveError::InvalidHostname => String::from_str(
                "hostname needs two non-empty labels",
            ),
            ResolveError::NameServerLookupFailure => String::from_str(
                "could not look up the domain's nameservers",
            ),
            ResolveError::MalformedNameServerAddress => String::from_str(
                "nameserver address is not IPv4",
            ),
        }
    }
}

/// A label of `labels` is empty.
pub open spec fn has_empty_label(labels: Seq<Seq<char>>) -> bool {
    exists|i: int| 0 <= i < labels.len() && (#[trigger] labels[i]).len() == 0
}

/// The labels of `h` that are not empty.
pub open spec fn nonempty_labels(h: Seq<char>) -> Seq<Seq<char>> {
    split(h, '.').filter(|l: Seq<char>| l.len() > 0)
}

/// The registrable domain of a hostname: its last two labels, joined by a
/// dot. A hostname with an empty label (a dot at either end, two dots in a
/// row, the empty hostname) or with fewer than two labels has none.
///
/// No list of public suffixes is consulted: the domain of `foo.co.uk` is
/// `co.uk`.
pub open spec fn domain_of(h: Seq<char>) -> Result<Seq<char>, ResolveError> {
    let labels = split(h, '.');
    if has_empty_label(labels) || labels.len() < 2 {
        Err(ResolveError::InvalidHostname)
    } else {
        Ok(labels[labels.len() - 2] + seq!['.'] + labels[labels.len() - 1])
    }
}

/// What is left of `url` behind the prefix `p`, if it starts with `p`.
pub open spec fn strip(url: Seq<char>, p: Seq<char>) -> Option<Seq<char>> {
    if starts_with(url, p) {
        Some(url.skip(p.len() as int))
    } else {
        None
    }
}

/// The host part of a URL with scheme `https`, `http` or `wss`: what
/// stands between `://` and the next slash. Other URLs have none.
pub open spec fn url_host(url: Seq<char>) -> Option<Seq<char>> {
    let rest = if strip(url, "https://"@) is Some {
        strip(url, "https://"@)
    } else if strip(url, "http://"@) is Some {
        strip(url, "http://"@)
    } else {
        strip(url, "wss://"@)
    };
    match rest {
        Some(r) => Some(before(r, '/')),
        None => None,
    }
}

/// A hostname with fewer than two non-empty labels has no domain.
pub proof fn lemma_too_few_labels(h: Seq<char>)
    requires
        nonempty_labels(h).len() < 2,
    ensures
        domain_of(h) == Err::<Seq<char>, ResolveError>(ResolveError::InvalidHostname),
{
    let labels = split(h, '.');
    let keep = |l: Seq<char>| l.len() > 0;
    if !has_empty_label(labels) {
        lemma_filter_all(labels, keep);
    }
}

/// A filter that every element passes changes nothing.
proof fn lemma_filter_all(s: Seq<Seq<char>>, keep: spec_fn(Seq<char>) -> bool)
    requires
        forall|i: int| 0 <= i < s.len() ==> keep(#[trigger] s[i]),
    ensures
        s.filter(keep) == s,
    decreases s.len(),
{
    reveal(Seq::filter);
    if s.len() > 0 {
        lemma_filter_all(s.drop_last(), keep);
        assert(s.drop_last().push(s.last()) =~= s);
    }
}

/// The hostname without its port: what stands in front of the first colon,
/// or all of it where there is none.
pub fn discard_port<'a>(s: &'a str) -> (r: &'a str)
    ensures
        r@ == before(s@, ':'),
{
    let chars = to_chars(s);
    let n = find(&chars, 0, ':');
    proof {
        assert(chars@.skip(0) =~= chars@);
        crate::text::lemma_before(s@, ':');
    }
    s.substring_char(0, n)
}

/// The address that a hostname is, if it is a dotted quad.
pub fn hostname_is_ip(s: &str) -> (r: Option<Ipv4>)
    ensures
        r == ipv4_of(s@),
{
    Ipv4::parse(s)
}

/// The registrable domain of a hostname.
pub fn domain_from_host(h: &str) -> (r: Result<String, ResolveError>)
    ensures
        match r {
            Ok(d) => domain_of(h@) == Ok::<Seq<char>, ResolveError>(d@),
            Err(e) => domain_of(h@) == Err::<Seq<char>, ResolveError>(e),
        },
        nonempty_labels(h@).len() < 2 ==> r == Err::<String, ResolveError>(
            ResolveError::InvalidHostname,
        ),
{
    let chars = to_chars(h);
    let labels = split_chars(&chars, '.');
    let ghost spec_labels = split(h@, '.');
    proof {
        lemma_split_nonempty(h@, '.');
        if nonempty_labels(h@).len() < 2 {
            lemma_too_few_labels(h@);
        }
    }
    let n = labels.len();
    let mut i: usize = 0;
    while i < n
        invariant
            i <= n == labels.len(),
            spec_labels == split(h@, '.'),
            char_views(labels@) == spec_labels,
            forall|j: int| 0 <= j < i ==> (#[trigger] spec_labels[j]).len() > 0,
        decreases n - i,
    {
        assert(spec_labels[i as int] == labels@[i as int]@);
        if labels[i].len() == 0 {
            assert(spec_labels[i as int].len() == 0);
            return Err(ResolveError::InvalidHostname);
        }
        i += 1;
    }
    if n < 2 {
        return Err(ResolveError::InvalidHostname);
    }
    let left = &labels[n - 2];
    let right = &labels[n - 1];
    assert(spec_labels[n - 2] == left@);
    assert(spec_labels[n - 1] == right@);
    let mut d = to_string(left, 0, left.len());
    d.push('.');
    let mut k: usize = 0;
    while k < right.len()
        invariant
            k <= right.len(),
            d@ == left@ + seq!['.'] + right@.take(k as int),
        decreases right.len() - k,
    {
        d.push(right[k]);
        assert(right@.take(k as int).push(right@[k as int]) =~= right@.take(k + 1));
        k += 1;
    }
    assert(right@.take(right@.len() as int) =~= right@);
    Ok(d)
}

/// Whether `v` starts with the characters of `p`.
fn has_prefix(v: &Vec<char>, p: &str) -> (r: bool)
    ensures
        r == starts_with(v@, p@),
{
    let q = to_chars(p);
    if q.len() > v.len() {
        return false;
    }
    let mut i: usize = 0;
    while i < q.len()
        invariant
            i <= q.len() <= v.len(),
            q@ == p@,
            v@.take(i as int) == q@.take(i as int),
        decreases q.len() - i,
    {
        if v[i] != q[i] {
            assert(v@.take(q@.len() as int)[i as int] == v@[i as int]);
            return false;
        }
        assert(v@.take(i + 1) =~= v@.take(i as int).push(v@[i as int]));
        assert(q@.take(i + 1) =~= q@.take(i as int).push(q@[i as int]));
        i += 1;
    }
    assert(q@.take(q@.len() as int) =~= q@);
    true
}

/// The number of characters of the scheme prefix that `v` starts with.
fn scheme_len(v: &Vec<char>) -> (r: Option<usize>)
    ensures
        r is Some <==> url_host(v@) is Some,
        r matches Some(n) ==> n <= v@.len() && url_host(v@) == Some(before(v@.skip(n as int), '/')),
{
    if has_prefix(v, "https://") {
        Some("https://".unicode_len())
    } else if has_prefix(v, "http://") {
        Some("http://".unicode_len())
    } else if has_prefix(v, "wss://") {
        Some("wss://".unicode_len())
    } else {
        None
    }
}

/// The host that a URL names.
pub fn hostname_from_url(url: &str) -> (r: Option<String>)
    ensures
        match r {
            Some(host) => url_host(url@) == Some(host@),
            None => url_host(url@) is None,
        },
{
    let chars = to_chars(url);
    match scheme_len(&chars) {
        None => None,
        Some(from) => {
            let n = find(&chars, from, '/');
            proof {
                let rest = chars@.skip(from as int);
                crate::text::lemma_before(rest, '/');
                assert(rest.take(n as int) =~= chars@.subrange(from as int, from + n));
            }
            Some(to_string(&chars, from, from + n))
        },
    }
}

} // verus!
