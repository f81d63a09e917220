//! Hostnames out of traffic captures in HAR format.

use crate::dns::{hostname_from_url, url_host};
use crate::text::views;
use crate::unique::holds_text;
use vstd::prelude::*;

verus! {

/// Why a capture yields no hostnames.
#[derive(Clone, Copy, Debug, PartialEq, Eq, Structural)]
pub enum CaptureError {
    /// The bytes are no HAR document.
    Unreadable,
    /// The document is of a format version other than 1.2.
    UnsupportedVersion,
    /// The request URL of the entry with this index names no host.
    NoHostname { entry: usize },
}

/// The error of `har`, carried from the reader to where it is dropped.
#[verifier::external_type_specification]
#[verifier::external_body]
pub struct ExHarError(har::Error);

/// What the `har` crate reads from the bytes of a capture: `None` where
/// they are no HAR document, `Some(None)` for a document of format version
/// 1.3, and for one of version 1.2 the URL of each entry's request, in the
/// document's order.
pub uninterp spec fn har_request_urls(content: Seq<u8>) -> Option<Option<Seq<Seq<char>>>>;

/// The view of the request URLs of a document.
pub open spec fn urls_view(urls: Option<Vec<String>>) -> Option<Seq<Seq<char>>> {
    match urls {
        Some(list) => Some(views(list@)),
        None => None,
    }
}

/// A result with its hostnames as sequences.
pub open spec fn hostnames_view(r: Result<Vec<String>, CaptureError>) -> Result<
    Seq<Seq<char>>,
    CaptureError,
> {
    match r {
        Ok(hosts) => Ok(views(hosts@)),
        Err(e) => Err(e),
    }
}

/// The view of each result of a list.
pub open spec fn hostnames_views(r: Seq<Result<Vec<String>, CaptureError>>) -> Seq<
    Result<Seq<Seq<char>>, CaptureError>,
> {
    Seq::new(r.len(), |i: int| hostnames_view(r[i]))
}

/// The hosts that the URLs name, each once, in the order of first
/// occurrence; or the first URL that names none.
pub open spec fn hostnames_of(urls: Seq<Seq<char>>) -> Result<Seq<Seq<char>>, CaptureError>
    decreases urls.len(),
{
    if urls.len() == 0 {
        Ok(Seq::<Seq<char>>::empty())
    } else {
        match hostnames_of(urls.drop_last()) {
            Err(e) => Err(e),
            Ok(hosts) => match url_host(urls.last()) {
                None => Err(CaptureError::NoHostname { entry: (urls.len() - 1) as usize }),
                Some(host) => if hosts.contains(host) {
                    Ok(hosts)
                } else {
                    Ok(hosts.push(host))
                },
            },
        }
    }
}

/// The hostnames of a capture.
pub open spec fn capture_hostnames(content: Seq<u8>) -> Result<Seq<Seq<char>>, CaptureError> {
    match har_request_urls(content) {
        None => Err(CaptureError::Unreadable),
        Some(None) => Err(CaptureError::UnsupportedVersion),
        Some(Some(urls)) => hostnames_of(urls),
    }
}

/// The hostnames of several captures, each once; or the error of the
/// first capture that has one.
pub open spec fn merged(captures: Seq<Result<Seq<Seq<char>>, CaptureError>>) -> Result<
    Seq<Seq<char>>,
    CaptureError,
>
    decreases captures.len(),
{
    if captures.len() == 0 {
        Ok(Seq::<Seq<char>>::empty())
    } else {
        match merged(captures.drop_last()) {
            Err(e) => Err(e),
            Ok(hosts) => match captures.last() {
                Err(e) => Err(e),
                Ok(more) => Ok(with_new(hosts, more)),
            },
        }
    }
}

/// `hosts`, followed by those of `more` that it does not hold yet.
pub open spec fn with_new(hosts: Seq<Seq<char>>, more: Seq<Seq<char>>) -> Seq<Seq<char>>
    decreases more.len(),
{
    if more.len() == 0 {
        hosts
    } else {
        let before = with_new(hosts, more.drop_last());
        if before.contains(more.last()) {
            before
        } else {
            before.push(more.last())
        }
    }
}

/// `har::from_reader`, on the bytes of a capture. Of what the crate reads,
/// the wrapper hands out the request URL of each entry of a version 1.2
/// log, and `None` for a version 1.3 log. The contract gives this its name.
#[verifier::external_body]
fn request_urls(content: &[u8]) -> (r: Result<Option<Vec<String>>, har::Error>)
    ensures
        match r {
            Ok(urls) => har_request_urls(content@) == Some(urls_view(urls)),
            Err(_) => har_request_urls(content@) is None,
        },
{
    Ok(
        match har::from_reader(content)?.log {
            har::Spec::V1_2(log) => Some(log.entries.into_iter().map(|e| e.request.url).collect()),
            har::Spec::V1_3(_) => None,
        },
    )
}

/// Once a URL names no host, the list as a whole has this error.
proof fn lemma_first_bad_url(urls: Seq<Seq<char>>, k: int)
    requires
        0 <= k <= urls.len(),
        hostnames_of(urls.take(k)) is Err,
    ensures
        hostnames_of(urls) == hostnames_of(urls.take(k)),
    decreases urls.len() - k,
{
    if k < urls.len() {
        assert(urls.take(k + 1).drop_last() =~= urls.take(k));
        lemma_first_bad_url(urls, k + 1);
    } else {
        assert(urls.take(k) =~= urls);
    }
}

/// Once a capture has an error, the batch as a whole has this error.
proof fn lemma_first_bad_capture(captures: Seq<Result<Seq<Seq<char>>, CaptureError>>, k: int)
    requires
        0 <= k <= captures.len(),
        merged(captures.take(k)) is Err,
    ensures
        merged(captures) == merged(captures.take(k)),
    decreases captures.len() - k,
{
    if k < captures.len() {
        assert(captures.take(k + 1).drop_last() =~= captures.take(k));
        lemma_first_bad_capture(captures, k + 1);
    } else {
        assert(captures.take(k) =~= captures);
    }
}

/// The hosts that a list of request URLs names.
pub fn hostnames_from_urls(urls: &Vec<String>) -> (r: Result<Vec<String>, CaptureError>)
    ensures
        hostnames_view(r) == hostnames_of(views(urls@)),
{
    let ghost all = views(urls@);
    let mut hosts: Vec<String> = Vec::new();
    let mut i: usize = 0;
    assert(views(hosts@) =~= Seq::<Seq<char>>::empty());
    while i < urls.len()
        invariant
            i <= urls.len(),
            all == views(urls@),
            hostnames_of(all.take(i as int)) == Ok::<Seq<Seq<char>>, CaptureError>(views(hosts@)),
        decreases urls.len() - i,
    {
        proof {
            assert(all.take(i + 1).drop_last() =~= all.take(i as int));
            assert(all.take(i + 1).last() == urls@[i as int]@);
        }
        match hostname_from_url(urls[i].as_str()) {
            None => {
                proof {
                    lemma_first_bad_url(all, i + 1);
                }
                return Err(CaptureError::NoHostname { entry: i });
            },
            Some(host) => {
                let ghost before = views(hosts@);
                if !holds_text(&hosts, &host) {
                    hosts.push(host);
                    assert(views(hosts@) =~= before.push(host@));
                }
            },
        }
        i += 1;
    }
    assert(all.take(urls@.len() as int) =~= all);
    Ok(hosts)
}

/// The hostnames that the requests of a capture went to, given the bytes
/// of the capture.
pub fn hostnames_from_har(content: &[u8]) -> (r: Result<Vec<String>, CaptureError>)
    ensures
        hostnames_view(r) == capture_hostnames(content@),
{
    match request_urls(content) {
        Err(_) => Err(CaptureError::Unreadable),
        Ok(None) => Err(CaptureError::UnsupportedVersion),
        Ok(Some(urls)) => hostnames_from_urls(&urls),
    }
}

/// The hostnames of several captures as one set.
pub fn merge_hostnames(captures: &Vec<Result<Vec<String>, CaptureError>>) -> (r: Result<
    Vec<String>,
    CaptureError,
>)
    ensures
        hostnames_view(r) == merged(hostnames_views(captures@)),
{
    let ghost all = hostnames_views(captures@);
    let mut hosts: Vec<String> = Vec::new();
    let mut i: usize = 0;
    assert(views(hosts@) =~= Seq::<Seq<char>>::empty());
    while i < captures.len()
        invariant
            i <= captures.len(),
            all == hostnames_views(captures@),
            merged(all.take(i as int)) == Ok::<Seq<Seq<char>>, CaptureError>(views(hosts@)),
        decreases captures.len() - i,
    {
        proof {
            assert(all.take(i + 1).drop_last() =~= all.take(i as int));
            assert(all.take(i + 1).last() == hostnames_view(captures@[i as int]));
        }
        match &captures[i] {
            Err(e) => {
                proof {
                    lemma_first_bad_capture(all, i + 1);
                }
                return Err(*e);
            },
            Ok(more) => {
                let ghost start = views(hosts@);
                let ghost texts = views(more@);
                let mut k: usize = 0;
                while k < more.len()
                    invariant
                        k <= more.len(),
                        texts == views(more@),
                        views(hosts@) == with_new(start, texts.take(k as int)),
                    decreases more.len() - k,
                {
                    let ghost before = views(hosts@);
                    proof {
                        assert(texts.take(k + 1).drop_last() =~= texts.take(k as int));
                        assert(texts.take(k + 1).last() == more@[k as int]@);
                    }
                    if !holds_text(&hosts, &more[k]) {
                        let host = more[k].clone();
                        hosts.push(host);
                        assert(views(hosts@) =~= before.push(host@));
                    }
                    k += 1;
                }
                assert(texts.take(more@.len() as int) =~= texts);
            },
        }
        i += 1;
    }
    assert(all.take(captures@.len() as int) =~= all);
    Ok(hosts)
}

} // verus!
