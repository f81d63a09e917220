//! The decisions of name resolution, one hostname at a time.
//!
//! Resolving a hostname takes up to three rounds of DNS queries. The queries
//! themselves are the caller's work; this module says which query comes
//! next and what an answer leads to. A caller starts with [`start`], and as
//! long as it is handed a [`Step::Ask`] it performs the query and passes the
//! answer to the function that belongs to the query:
//!
//! | query                      | asked of             | answer goes to           |
//! |----------------------------|----------------------|--------------------------|
//! | [`Query::NameServers`]     | the system resolver  | [`on_name_servers`]      |
//! | [`Query::NameServerAddrs`] | the system resolver  | [`on_name_server_addrs`] |
//! | [`Query::HostAddrs`]       | the servers it lists | [`on_host_addrs`]        |
//!
//! Each hostname is resolved from its own answers alone, so one hostname's
//! failure leaves every other hostname's result as it is.

use crate::addr::{ipv4_of, Ipv4};
use crate::dns::{discard_port, domain_from_host, domain_of, hostname_is_ip, ResolveError};
use crate::text::{before, to_chars, to_string, views};
use crate::unique::{distinct, distinct_ips, holds_text};
use vstd::prelude::*;

verus! {

/// A DNS query that the caller is to perform.
#[derive(Debug, PartialEq, Eq)]
pub enum Query {
    /// The NS records of `domain`.
    NameServers { domain: String },
    /// The addresses of each of `names`, in this order.
    NameServerAddrs { names: Vec<String> },
    /// The A records of `hostname`, asked of `servers` and of no other.
    HostAddrs { hostname: String, servers: Vec<Ipv4> },
}

/// What comes next for a hostname: a query, or its result.
#[derive(Debug, PartialEq, Eq)]
pub enum Step {
    Ask(Query),
    Done(Result<Vec<Ipv4>, ResolveError>),
}

/// The result for one hostname.
#[derive(Debug, PartialEq, Eq)]
pub struct Outcome {
    pub hostname: String,
    pub result: Result<Vec<Ipv4>, ResolveError>,
}

/// The results of a batch, parted into those that have addresses and those
/// that failed. Both lists are in the order of the batch.
#[derive(Debug, PartialEq, Eq)]
pub struct Resolution {
    pub resolved: Vec<(String, Vec<Ipv4>)>,
    pub failed: Vec<(String, ResolveError)>,
}

/// A query, with text as character sequences.
pub enum QueryView {
    NameServers { domain: Seq<char> },
    NameServerAddrs { names: Seq<Seq<char>> },
    HostAddrs { hostname: Seq<char>, servers: Seq<Ipv4> },
}

/// A step, with text and address lists as sequences.
pub enum StepView {
    Ask(QueryView),
    Done(Result<Seq<Ipv4>, ResolveError>),
}

/// An outcome, with text and address lists as sequences.
pub struct OutcomeView {
    pub hostname: Seq<char>,
    pub result: Result<Seq<Ipv4>, ResolveError>,
}

impl View for Query {
    type V = QueryView;

    open spec fn view(&self) -> QueryView {
        match self {
            Query::NameServers { domain } => QueryView::NameServers { domain: domain@ },
            Query::NameServerAddrs { names } => QueryView::NameServerAddrs { names: views(names@) },
            Query::HostAddrs { hostname, servers } => QueryView::HostAddrs {
                hostname: hostname@,
                servers: servers@,
            },
        }
    }
}

impl View for Step {
    type V = StepView;

    open spec fn view(&self) -> StepView {
        match self {
            Step::Ask(q) => StepView::Ask(q@),
            Step::Done(r) => StepView::Done(result_view(*r)),
        }
    }
}

impl View for Outcome {
    type V = OutcomeView;

    open spec fn view(&self) -> OutcomeView {
        OutcomeView { hostname: self.hostname@, result: result_view(self.result) }
    }
}

/// A result with its addresses as a sequence.
pub open spec fn result_view(r: Result<Vec<Ipv4>, ResolveError>) -> Result<
    Seq<Ipv4>,
    ResolveError,
> {
    match r {
        Ok(ips) => Ok(ips@),
        Err(e) => Err(e),
    }
}

/// An answer with its texts as sequences; `None` is a query that failed.
pub open spec fn answer_view(a: Option<Vec<String>>) -> Option<Seq<Seq<char>>> {
    match a {
        Some(texts) => Some(views(texts@)),
        None => None,
    }
}

/// The view of each answer of a list.
pub open spec fn answer_views(a: Seq<Option<Vec<String>>>) -> Seq<Option<Seq<Seq<char>>>> {
    Seq::new(a.len(), |i: int| answer_view(a[i]))
}

/// The view of each outcome of a list.
pub open spec fn outcome_views(o: Seq<Outcome>) -> Seq<OutcomeView> {
    Seq::new(o.len(), |i: int| o[i]@)
}

/// The view of each entry of a list of hostnames with their addresses.
pub open spec fn resolved_views(v: Seq<(String, Vec<Ipv4>)>) -> Seq<(Seq<char>, Seq<Ipv4>)> {
    Seq::new(v.len(), |i: int| (v[i].0@, v[i].1@))
}

/// The view of each entry of a list of hostnames with their errors.
pub open spec fn failed_views(v: Seq<(String, ResolveError)>) -> Seq<(Seq<char>, ResolveError)> {
    Seq::new(v.len(), |i: int| (v[i].0@, v[i].1))
}

/// The three public resolvers that every host query is also asked of:
/// 8.8.8.8, 1.1.1.1 and 9.9.9.9.
pub open spec fn public_resolvers() -> Seq<Ipv4> {
    seq![
        Ipv4 { a: 8, b: 8, c: 8, d: 8 },
        Ipv4 { a: 1, b: 1, c: 1, d: 1 },
        Ipv4 { a: 9, b: 9, c: 9, d: 9 },
    ]
}

/// What a hostname that is itself an address resolves to: itself, unless
/// traffic to it never leaves the local network.
pub open spec fn literal_set(ip: Ipv4) -> Seq<Ipv4> {
    if ip.local() {
        Seq::<Ipv4>::empty()
    } else {
        seq![ip]
    }
}

/// `s` without the dots at its end.
pub open spec fn strip_dots(s: Seq<char>) -> Seq<char>
    decreases s.len(),
{
    if s.len() > 0 && s.last() == '.' {
        strip_dots(s.drop_last())
    } else {
        s
    }
}

/// The first address of each answer, if every query succeeded and none
/// came back empty.
pub open spec fn first_addresses(answers: Seq<Option<Seq<Seq<char>>>>) -> Option<Seq<Seq<char>>>
    decreases answers.len(),
{
    if answers.len() == 0 {
        Some(Seq::<Seq<char>>::empty())
    } else {
        match (first_addresses(answers.drop_last()), answers.last()) {
            (Some(firsts), Some(addrs)) => if addrs.len() > 0 {
                Some(firsts.push(addrs[0]))
            } else {
                None
            },
            _ => None,
        }
    }
}

/// The addresses that the texts denote, if each denotes an IPv4 address.
pub open spec fn parse_all(texts: Seq<Seq<char>>) -> Option<Seq<Ipv4>>
    decreases texts.len(),
{
    if texts.len() == 0 {
        Some(Seq::<Ipv4>::empty())
    } else {
        match (parse_all(texts.drop_last()), ipv4_of(texts.last())) {
            (Some(ips), Some(ip)) => Some(ips.push(ip)),
            _ => None,
        }
    }
}

/// The addresses of those texts that denote an IPv4 address.
pub open spec fn ipv4s_among(texts: Seq<Seq<char>>) -> Seq<Ipv4>
    decreases texts.len(),
{
    if texts.len() == 0 {
        Seq::<Ipv4>::empty()
    } else {
        match ipv4_of(texts.last()) {
            Some(ip) => ipv4s_among(texts.drop_last()).push(ip),
            None => ipv4s_among(texts.drop_last()),
        }
    }
}

/// The set of a domain's nameserver addresses: the first address of each
/// nameserver. One nameserver without an address fails the whole set.
pub open spec fn nameserver_set_of(answers: Seq<Option<Seq<Seq<char>>>>) -> Result<
    Seq<Seq<char>>,
    ResolveError,
> {
    match first_addresses(answers) {
        Some(firsts) => Ok(distinct(firsts)),
        None => Err(ResolveError::NameServerLookupFailure),
    }
}

/// The servers that a host query is asked of: the public resolvers, then
/// the nameservers. One nameserver address that is not IPv4 fails the list.
pub open spec fn servers_of(nameservers: Seq<Seq<char>>) -> Result<Seq<Ipv4>, ResolveError> {
    match parse_all(nameservers) {
        Some(ips) => Ok(public_resolvers() + ips),
        None => Err(ResolveError::MalformedNameServerAddress),
    }
}

/// The address set of a host query's answer: every IPv4 address in it,
/// and the empty set where the query failed.
pub open spec fn resolved_set_of(answer: Option<Seq<Seq<char>>>) -> Seq<Ipv4> {
    match answer {
        Some(texts) => distinct(ipv4s_among(texts)),
        None => Seq::<Ipv4>::empty(),
    }
}

/// The first step for a hostname. A hostname that is an address, once its
/// port is dropped, is done without any query. Any other needs a domain,
/// and is done with an error where it has none.
pub open spec fn start_of(hostname: Seq<char>) -> StepView {
    let host = before(hostname, ':');
    match ipv4_of(host) {
        Some(ip) => StepView::Done(Ok(literal_set(ip))),
        None => match domain_of(host) {
            Ok(domain) => StepView::Ask(QueryView::NameServers { domain }),
            Err(e) => StepView::Done(Err(e)),
        },
    }
}

/// The step after the nameserver query.
pub open spec fn after_name_servers(answer: Option<Seq<Seq<char>>>) -> StepView {
    match answer {
        Some(records) => StepView::Ask(
            QueryView::NameServerAddrs { names: records.map_values(|r: Seq<char>| strip_dots(r)) },
        ),
        None => StepView::Done(Err(ResolveError::NameServerLookupFailure)),
    }
}

/// The step after the queries for the nameservers' addresses.
pub open spec fn after_name_server_addrs(
    hostname: Seq<char>,
    answers: Seq<Option<Seq<Seq<char>>>>,
) -> StepView {
    match nameserver_set_of(answers) {
        Err(e) => StepView::Done(Err(e)),
        Ok(nameservers) => match servers_of(nameservers) {
            Err(e) => StepView::Done(Err(e)),
            Ok(servers) => StepView::Ask(
                QueryView::HostAddrs { hostname: before(hostname, ':'), servers },
            ),
        },
    }
}

/// The step after the host query, which is always the last.
pub open spec fn after_host_addrs(answer: Option<Seq<Seq<char>>>) -> StepView {
    StepView::Done(Ok(resolved_set_of(answer)))
}

/// The hostnames that resolved, each with its addresses, in batch order.
pub open spec fn successes(outcomes: Seq<OutcomeView>) -> Seq<(Seq<char>, Seq<Ipv4>)>
    decreases outcomes.len(),
{
    if outcomes.len() == 0 {
        Seq::<(Seq<char>, Seq<Ipv4>)>::empty()
    } else {
        match outcomes.last().result {
            Ok(ips) => successes(outcomes.drop_last()).push((outcomes.last().hostname, ips)),
            Err(_) => successes(outcomes.drop_last()),
        }
    }
}

/// The hostnames that failed, each with its error, in batch order.
pub open spec fn failures(outcomes: Seq<OutcomeView>) -> Seq<(Seq<char>, ResolveError)>
    decreases outcomes.len(),
{
    if outcomes.len() == 0 {
        Seq::<(Seq<char>, ResolveError)>::empty()
    } else {
        match outcomes.last().result {
            Ok(_) => failures(outcomes.drop_last()),
            Err(e) => failures(outcomes.drop_last()).push((outcomes.last().hostname, e)),
        }
    }
}

/// No two outcomes are for the same hostname.
pub open spec fn hostnames_differ(outcomes: Seq<OutcomeView>) -> bool {
    forall|i: int, j: int|
        0 <= i < j < outcomes.len() ==> outcomes[i].hostname != outcomes[j].hostname
}

/// `hostname` is among the resolved hostnames.
pub open spec fn is_resolved(outcomes: Seq<OutcomeView>, hostname: Seq<char>) -> bool {
    exists|k: int| 0 <= k < successes(outcomes).len() && (#[trigger] successes(outcomes)[k]).0 == hostname
}

/// `hostname` is among the failed hostnames.
pub open spec fn is_failed(outcomes: Seq<OutcomeView>, hostname: Seq<char>) -> bool {
    exists|k: int| 0 <= k < failures(outcomes).len() && (#[trigger] failures(outcomes)[k]).0 == hostname
}

/// Every entry of the two lists is the result of an outcome of the batch.
pub proof fn lemma_partition_sources(outcomes: Seq<OutcomeView>)
    ensures
        forall|k: int|
            0 <= k < successes(outcomes).len() ==> exists|i: int|
                0 <= i < outcomes.len() && outcomes[i].hostname == (#[trigger] successes(
                    outcomes,
                )[k]).0 && outcomes[i].result == Ok::<Seq<Ipv4>, ResolveError>(
                    successes(outcomes)[k].1,
                ),
        forall|k: int|
            0 <= k < failures(outcomes).len() ==> exists|i: int|
                0 <= i < outcomes.len() && outcomes[i].hostname == (#[trigger] failures(
                    outcomes,
                )[k]).0 && outcomes[i].result == Err::<Seq<Ipv4>, ResolveError>(
                    failures(outcomes)[k].1,
                ),
    decreases outcomes.len(),
{
    if outcomes.len() > 0 {
        let before = outcomes.drop_last();
        let n = outcomes.len() - 1;
        lemma_partition_sources(before);
        assert forall|k: int| 0 <= k < successes(outcomes).len() implies exists|i: int|
            0 <= i < outcomes.len() && outcomes[i].hostname == (#[trigger] successes(
                outcomes,
            )[k]).0 && outcomes[i].result == Ok::<Seq<Ipv4>, ResolveError>(
                successes(outcomes)[k].1,
            ) by {
            if k < successes(before).len() {
                assert(successes(outcomes)[k] == successes(before)[k]);
                let i = choose|i: int|
                    0 <= i < before.len() && before[i].hostname == successes(before)[k].0
                        && before[i].result == Ok::<Seq<Ipv4>, ResolveError>(
                        successes(before)[k].1,
                    );
                assert(outcomes[i] == before[i]);
            } else {
                assert(outcomes[n].hostname == successes(outcomes)[k].0);
            }
        }
        assert forall|k: int| 0 <= k < failures(outcomes).len() implies exists|i: int|
            0 <= i < outcomes.len() && outcomes[i].hostname == (#[trigger] failures(
                outcomes,
            )[k]).0 && outcomes[i].result == Err::<Seq<Ipv4>, ResolveError>(
                failures(outcomes)[k].1,
            ) by {
            if k < failures(before).len() {
                assert(failures(outcomes)[k] == failures(before)[k]);
                let i = choose|i: int|
                    0 <= i < before.len() && before[i].hostname == failures(before)[k].0
                        && before[i].result == Err::<Seq<Ipv4>, ResolveError>(
                        failures(before)[k].1,
                    );
                assert(outcomes[i] == before[i]);
            } else {
                assert(outcomes[n].hostname == failures(outcomes)[k].0);
            }
        }
    }
}

/// The outcome of a hostname stands in the list that its own result
/// calls for, with that result, whatever the other outcomes of the batch are.
pub proof fn lemma_partition_entry(outcomes: Seq<OutcomeView>, i: int)
    requires
        0 <= i < outcomes.len(),
    ensures
        outcomes[i].result matches Ok(ips) ==> successes(outcomes).contains(
            (outcomes[i].hostname, ips),
        ),
        outcomes[i].result matches Err(e) ==> failures(outcomes).contains(
            (outcomes[i].hostname, e),
        ),
    decreases outcomes.len(),
{
    let before = outcomes.drop_last();
    let host = outcomes[i].hostname;
    if i < outcomes.len() - 1 {
        lemma_partition_entry(before, i);
        assert(before[i] == outcomes[i]);
        match outcomes[i].result {
            Ok(ips) => {
                let k = choose|k: int|
                    0 <= k < successes(before).len() && successes(before)[k] == (host, ips);
                assert(successes(outcomes)[k] == (host, ips));
            },
            Err(e) => {
                let k = choose|k: int|
                    0 <= k < failures(before).len() && failures(before)[k] == (host, e);
                assert(failures(outcomes)[k] == (host, e));
            },
        }
    } else {
        match outcomes[i].result {
            Ok(ips) => {
                assert(successes(outcomes)[successes(before).len() as int] == (host, ips));
            },
            Err(e) => {
                assert(failures(outcomes)[failures(before).len() as int] == (host, e));
            },
        }
    }
}

/// Isolation. In a batch of different hostnames, where the resolution of
/// hostname `a` failed and that of hostname `b` succeeded, `b` is among the
/// resolved hostnames with its own addresses and nowhere among the failed,
/// and `a` is among the failed with its own error and nowhere among the
/// resolved.
pub proof fn lemma_isolation(outcomes: Seq<OutcomeView>, a: int, b: int)
    requires
        hostnames_differ(outcomes),
        0 <= a < outcomes.len(),
        0 <= b < outcomes.len(),
        outcomes[a].result is Err,
        outcomes[b].result is Ok,
    ensures
        outcomes[b].result matches Ok(ips) && successes(outcomes).contains(
            (outcomes[b].hostname, ips),
        ),
        outcomes[a].result matches Err(e) && failures(outcomes).contains(
            (outcomes[a].hostname, e),
        ),
        !is_failed(outcomes, outcomes[b].hostname),
        !is_resolved(outcomes, outcomes[a].hostname),
{
    lemma_partition_entry(outcomes, a);
    lemma_partition_entry(outcomes, b);
    lemma_exactly_one(outcomes, a);
    lemma_exactly_one(outcomes, b);
}

/// In a batch of different hostnames, each hostname is in exactly one of
/// the two lists: among the resolved if its result is a set of addresses,
/// among the failed if it is an error.
pub proof fn lemma_exactly_one(outcomes: Seq<OutcomeView>, i: int)
    requires
        hostnames_differ(outcomes),
        0 <= i < outcomes.len(),
    ensures
        is_resolved(outcomes, outcomes[i].hostname) <==> outcomes[i].result is Ok,
        is_failed(outcomes, outcomes[i].hostname) <==> outcomes[i].result is Err,
{
    let host = outcomes[i].hostname;
    lemma_partition_entry(outcomes, i);
    lemma_partition_sources(outcomes);
    match outcomes[i].result {
        Ok(ips) => {
            let k = choose|k: int|
                0 <= k < successes(outcomes).len() && successes(outcomes)[k] == (host, ips);
            assert(successes(outcomes)[k].0 == host);
        },
        Err(e) => {
            let k = choose|k: int|
                0 <= k < failures(outcomes).len() && failures(outcomes)[k] == (host, e);
            assert(failures(outcomes)[k].0 == host);
        },
    }
    if is_resolved(outcomes, host) {
        let k = choose|k: int|
            0 <= k < successes(outcomes).len() && (#[trigger] successes(outcomes)[k]).0 == host;
        let j = choose|j: int|
            0 <= j < outcomes.len() && outcomes[j].hostname == successes(outcomes)[k].0
                && outcomes[j].result == Ok::<Seq<Ipv4>, ResolveError>(successes(outcomes)[k].1);
        assert(j == i);
    }
    if is_failed(outcomes, host) {
        let k = choose|k: int|
            0 <= k < failures(outcomes).len() && (#[trigger] failures(outcomes)[k]).0 == host;
        let j = choose|j: int|
            0 <= j < outcomes.len() && outcomes[j].hostname == failures(outcomes)[k].0
                && outcomes[j].result == Err::<Seq<Ipv4>, ResolveError>(failures(outcomes)[k].1);
        assert(j == i);
    }
}

/// What a hostname's resolution ends with takes no part in where another
/// hostname's outcome goes: put any other result in the place of `a`'s, and
/// `b`'s entry stands as before.
pub proof fn lemma_unaffected(
    outcomes: Seq<OutcomeView>,
    a: int,
    b: int,
    other: Result<Seq<Ipv4>, ResolveError>,
)
    requires
        0 <= a < outcomes.len(),
        0 <= b < outcomes.len(),
        a != b,
    ensures
        ({
            let changed = outcomes.update(
                a,
                OutcomeView { hostname: outcomes[a].hostname, result: other },
            );
            &&& outcomes[b].result matches Ok(ips) ==> successes(changed).contains(
                (outcomes[b].hostname, ips),
            ) && successes(outcomes).contains((outcomes[b].hostname, ips))
            &&& outcomes[b].result matches Err(e) ==> failures(changed).contains(
                (outcomes[b].hostname, e),
            ) && failures(outcomes).contains((outcomes[b].hostname, e))
        }),
{
    let changed = outcomes.update(a, OutcomeView { hostname: outcomes[a].hostname, result: other });
    assert(changed[b] == outcomes[b]);
    lemma_partition_entry(changed, b);
    lemma_partition_entry(outcomes, b);
}

/// The address set of a hostname that is itself an address.
pub fn literal_addresses(ip: Ipv4) -> (r: Vec<Ipv4>)
    ensures
        r@ == literal_set(ip),
{
    let mut r: Vec<Ipv4> = Vec::new();
    if !ip.is_local() {
        r.push(ip);
    }
    assert(r@ =~= literal_set(ip));
    r
}

/// Begins the resolution of `hostname`.
///
/// A hostname that is a loopback, private or broadcast address is done
/// with the empty set; any other address is done with itself alone.
pub fn start(hostname: &str) -> (step: Step)
    ensures
        step@ == start_of(hostname@),
        ipv4_of(before(hostname@, ':')) matches Some(ip) ==> step@ == StepView::Done(
            Ok(
                if ip.local() {
                    Seq::<Ipv4>::empty()
                } else {
                    seq![ip]
                },
            ),
        ),
{
    let host = discard_port(hostname);
    match hostname_is_ip(host) {
        Some(ip) => Step::Done(Ok(literal_addresses(ip))),
        None => match domain_from_host(host) {
            Ok(domain) => Step::Ask(Query::NameServers { domain }),
            Err(e) => Step::Done(Err(e)),
        },
    }
}

/// A nameserver's name as the records give it, without the dots at its end.
pub fn nameserver_name(record: &str) -> (name: String)
    ensures
        name@ == strip_dots(record@),
{
    let chars = to_chars(record);
    let mut end: usize = chars.len();
    assert(chars@.take(end as int) =~= chars@);
    while end > 0 && chars[end - 1] == '.'
        invariant
            end <= chars.len(),
            strip_dots(chars@) == strip_dots(chars@.take(end as int)),
        decreases end,
    {
        assert(chars@.take(end as int).drop_last() =~= chars@.take(end - 1));
        end -= 1;
    }
    let name = to_string(&chars, 0, end);
    assert(chars@.subrange(0, end as int) =~= chars@.take(end as int));
    name
}

/// Takes the answer to [`Query::NameServers`]: the names in the domain's NS
/// records, or `None` where the query failed.
pub fn on_name_servers(answer: Option<Vec<String>>) -> (step: Step)
    ensures
        step@ == after_name_servers(answer_view(answer)),
{
    match answer {
        None => Step::Done(Err(ResolveError::NameServerLookupFailure)),
        Some(records) => {
            let ghost wanted = views(records@).map_values(|r: Seq<char>| strip_dots(r));
            let mut names: Vec<String> = Vec::new();
            let mut i: usize = 0;
            while i < records.len()
                invariant
                    i <= records.len(),
                    wanted == views(records@).map_values(|r: Seq<char>| strip_dots(r)),
                    views(names@) == wanted.take(i as int),
                decreases records.len() - i,
            {
                let ghost so_far = views(names@);
                let name = nameserver_name(records[i].as_str());
                names.push(name);
                assert(views(names@) =~= so_far.push(name@));
                assert(wanted.take(i + 1) =~= wanted.take(i as int).push(wanted[i as int]));
                i += 1;
            }
            assert(wanted.take(records@.len() as int) =~= wanted);
            Step::Ask(Query::NameServerAddrs { names })
        },
    }
}

/// The set of nameserver addresses, as text, from the answers to
/// [`Query::NameServerAddrs`]: one answer for each name, `None` where the
/// query for that name failed.
pub fn nameserver_set(answers: &Vec<Option<Vec<String>>>) -> (r: Result<Vec<String>, ResolveError>)
    ensures
        match r {
            Ok(set) => nameserver_set_of(answer_views(answers@)) == Ok::<
                Seq<Seq<char>>,
                ResolveError,
            >(views(set@)),
            Err(e) => nameserver_set_of(answer_views(answers@)) == Err::<
                Seq<Seq<char>>,
                ResolveError,
            >(e),
        },
{
    let ghost all = answer_views(answers@);
    let ghost mut firsts = Seq::<Seq<char>>::empty();
    let mut set: Vec<String> = Vec::new();
    let mut i: usize = 0;
    assert(views(set@) =~= distinct(firsts));
    while i < answers.len()
        invariant
            i <= answers.len(),
            all == answer_views(answers@),
            first_addresses(all.take(i as int)) == Some(firsts),
            views(set@) == distinct(firsts),
        decreases answers.len() - i,
    {
        assert(all.take(i + 1).drop_last() =~= all.take(i as int));
        assert(all.take(i + 1).last() == answer_view(answers@[i as int]));
        let first = match &answers[i] {
            Some(addrs) => if addrs.len() > 0 {
                assert(views(addrs@)[0] == addrs@[0]@);
                Some(addrs[0].clone())
            } else {
                None
            },
            None => None,
        };
        match first {
            None => {
                proof {
                    lemma_first_addresses_fail(all, i + 1);
                }
                return Err(ResolveError::NameServerLookupFailure);
            },
            Some(addr) => {
                let ghost old_set = views(set@);
                proof {
                    assert(firsts.push(addr@).drop_last() =~= firsts);
                    firsts = firsts.push(addr@);
                }
                if !holds_text(&set, &addr) {
                    set.push(addr);
                    assert(views(set@) =~= old_set.push(addr@));
                }
            },
        }
        i += 1;
    }
    assert(all.take(answers@.len() as int) =~= all);
    Ok(set)
}

/// Once a nameserver is without an address, the set as a whole has failed.
proof fn lemma_first_addresses_fail(answers: Seq<Option<Seq<Seq<char>>>>, k: int)
    requires
        0 <= k <= answers.len(),
        first_addresses(answers.take(k)) is None,
    ensures
        first_addresses(answers) is None,
    decreases answers.len() - k,
{
    if k < answers.len() {
        assert(answers.take(k + 1).drop_last() =~= answers.take(k));
        lemma_first_addresses_fail(answers, k + 1);
    } else {
        assert(answers.take(k) =~= answers);
    }
}

/// Once a text denotes no address, the list as a whole denotes none.
proof fn lemma_parse_all_fail(texts: Seq<Seq<char>>, k: int)
    requires
        0 <= k <= texts.len(),
        parse_all(texts.take(k)) is None,
    ensures
        parse_all(texts) is None,
    decreases texts.len() - k,
{
    if k < texts.len() {
        assert(texts.take(k + 1).drop_last() =~= texts.take(k));
        lemma_parse_all_fail(texts, k + 1);
    } else {
        assert(texts.take(k) =~= texts);
    }
}

/// The servers that a host query is asked of, given the set of nameserver
/// addresses.
pub fn resolver_servers(nameservers: &Vec<String>) -> (r: Result<Vec<Ipv4>, ResolveError>)
    ensures
        result_view(r) == servers_of(views(nameservers@)),
{
    let ghost texts = views(nameservers@);
    let ghost mut parsed = Seq::<Ipv4>::empty();
    let mut servers: Vec<Ipv4> = Vec::new();
    servers.push(Ipv4::new(8, 8, 8, 8));
    servers.push(Ipv4::new(1, 1, 1, 1));
    servers.push(Ipv4::new(9, 9, 9, 9));
    assert(servers@ =~= public_resolvers() + parsed);
    let mut i: usize = 0;
    while i < nameservers.len()
        invariant
            i <= nameservers.len(),
            texts == views(nameservers@),
            parse_all(texts.take(i as int)) == Some(parsed),
            servers@ == public_resolvers() + parsed,
        decreases nameservers.len() - i,
    {
        assert(texts.take(i + 1).drop_last() =~= texts.take(i as int));
        assert(texts.take(i + 1).last() == nameservers@[i as int]@);
        match Ipv4::parse(nameservers[i].as_str()) {
            None => {
                proof {
                    lemma_parse_all_fail(texts, i + 1);
                }
                return Err(ResolveError::MalformedNameServerAddress);
            },
            Some(ip) => {
                servers.push(ip);
                proof {
                    assert(servers@ =~= public_resolvers() + parsed.push(ip));
                    parsed = parsed.push(ip);
                }
            },
        }
        i += 1;
    }
    assert(texts.take(nameservers@.len() as int) =~= texts);
    Ok(servers)
}

/// Takes the answers to [`Query::NameServerAddrs`]: for each name, in the
/// query's order, the addresses found for it as text, or `None` where the
/// query for it failed. `hostname` is the hostname that [`start`] was given.
pub fn on_name_server_addrs(hostname: &str, answers: &Vec<Option<Vec<String>>>) -> (step: Step)
    ensures
        step@ == after_name_server_addrs(hostname@, answer_views(answers@)),
{
    let nameservers = match nameserver_set(answers) {
        Ok(set) => set,
        Err(e) => {
            return Step::Done(Err(e));
        },
    };
    match resolver_servers(&nameservers) {
        Err(e) => Step::Done(Err(e)),
        Ok(servers) => Step::Ask(
            Query::HostAddrs { hostname: String::from_str(discard_port(hostname)), servers },
        ),
    }
}

/// The address set of a hostname, given the answer to its host query: the
/// addresses found as text, or `None` where the query failed.
pub fn resolved_set(answer: &Option<Vec<String>>) -> (r: Vec<Ipv4>)
    ensures
        r@ == resolved_set_of(answer_view(*answer)),
{
    match answer {
        None => Vec::new(),
        Some(texts) => {
            let ghost all = views(texts@);
            let mut found: Vec<Ipv4> = Vec::new();
            let mut i: usize = 0;
            while i < texts.len()
                invariant
                    i <= texts.len(),
                    all == views(texts@),
                    found@ == ipv4s_among(all.take(i as int)),
                decreases texts.len() - i,
            {
                assert(all.take(i + 1).drop_last() =~= all.take(i as int));
                assert(all.take(i + 1).last() == texts@[i as int]@);
                match Ipv4::parse(texts[i].as_str()) {
                    Some(ip) => {
                        found.push(ip);
                    },
                    None => {},
                }
                i += 1;
            }
            assert(all.take(texts@.len() as int) =~= all);
            distinct_ips(&found)
        },
    }
}

/// Takes the answer to [`Query::HostAddrs`]. Resolution ends here: a query
/// that failed or found nothing ends it with the empty set, not an error.
pub fn on_host_addrs(answer: &Option<Vec<String>>) -> (step: Step)
    ensures
        step@ == after_host_addrs(answer_view(*answer)),
{
    Step::Done(Ok(resolved_set(answer)))
}

/// Parts the results of a batch into resolved and failed hostnames.
pub fn partition(outcomes: Vec<Outcome>) -> (r: Resolution)
    ensures
        resolved_views(r.resolved@) == successes(outcome_views(outcomes@)),
        failed_views(r.failed@) == failures(outcome_views(outcomes@)),
{
    let ghost all = outcome_views(outcomes@);
    let mut resolved: Vec<(String, Vec<Ipv4>)> = Vec::new();
    let mut failed: Vec<(String, ResolveError)> = Vec::new();
    assert(all.take(0) =~= Seq::<OutcomeView>::empty());
    for outcome in it: outcomes.into_iter()
        invariant
            it.seq() == outcomes@,
            all == outcome_views(outcomes@),
            resolved_views(resolved@) == successes(all.take(it.index())),
            failed_views(failed@) == failures(all.take(it.index())),
    {
        let ghost i = it.index();
        let ghost old_resolved = resolved_views(resolved@);
        let ghost old_failed = failed_views(failed@);
        proof {
            assert(all.take(i + 1).drop_last() =~= all.take(i));
            assert(all.take(i + 1).last() == outcome@);
        }
        match outcome.result {
            Ok(ips) => {
                let ghost entry = (outcome.hostname@, ips@);
                resolved.push((outcome.hostname, ips));
                assert(resolved_views(resolved@) =~= old_resolved.push(entry));
            },
            Err(e) => {
                let ghost entry = (outcome.hostname@, e);
                failed.push((outcome.hostname, e));
                assert(failed_views(failed@) =~= old_failed.push(entry));
            },
        }
    }
    assert(all.take(all.len() as int) =~= all);
    Resolution { resolved, failed }
}

} // verus!
