use wgroutes::capture::{hostnames_from_har, hostnames_from_urls, merge_hostnames, CaptureError};

fn texts(items: &[&str]) -> Vec<String> {
    items.iter().map(|s| s.to_string()).collect()
}

fn entry(url: &str) -> String {
    format!(
        "{{\"startedDateTime\":\"2024-01-01T00:00:00.000Z\",\"time\":1.5,\
         \"request\":{{\"method\":\"GET\",\"url\":\"{url}\",\"httpVersion\":\"HTTP/1.1\",\
         \"cookies\":[],\"headers\":[],\"queryString\":[],\"headersSize\":-1,\"bodySize\":0}},\
         \"response\":{{\"status\":200,\"statusText\":\"OK\",\"httpVersion\":\"HTTP/1.1\",\
         \"cookies\":[],\"headers\":[],\"content\":{{\"size\":0,\"mimeType\":\"text/html\"}},\
         \"redirectURL\":\"\",\"headersSize\":-1,\"bodySize\":0}},\
         \"cache\":{{}},\"timings\":{{\"send\":0.1,\"wait\":0.2,\"receive\":0.3}}}}"
    )
}

fn document(version: &str, urls: &[&str]) -> Vec<u8> {
    let entries: Vec<String> = urls.iter().map(|u| entry(u)).collect();
    format!(
        "{{\"log\":{{\"version\":\"{version}\",\"creator\":{{\"name\":\"t\",\"version\":\"1\"}},\
         \"entries\":[{}]}}}}",
        entries.join(",")
    )
    .into_bytes()
}

#[test]
fn hostnames_of_a_capture() {
    let har = document(
        "1.2",
        &[
            "https://example.com/index.html",
            "https://cdn.example.net:8443/a.js",
            "http://example.com/favicon.ico",
            "wss://live.example.org/socket",
        ],
    );
    assert_eq!(
        hostnames_from_har(&har),
        Ok(texts(&["example.com", "cdn.example.net:8443", "live.example.org"]))
    );
}

#[test]
fn capture_without_entries_has_no_hostnames() {
    assert_eq!(hostnames_from_har(&document("1.2", &[])), Ok(vec![]));
}

#[test]
fn capture_with_a_url_of_another_scheme_fails() {
    let har = document("1.2", &["https://example.com/", "ftp://files.example.com/x", "x"]);
    assert_eq!(hostnames_from_har(&har), Err(CaptureError::NoHostname { entry: 1 }));
}

#[test]
fn capture_that_is_no_document_fails() {
    assert_eq!(hostnames_from_har(b""), Err(CaptureError::Unreadable));
    assert_eq!(hostnames_from_har(b"{}"), Err(CaptureError::Unreadable));
    assert_eq!(hostnames_from_har(b"{\"log\":{\"version\":\"1.2\"}}"), Err(CaptureError::Unreadable));
    assert_eq!(hostnames_from_har(&document("1.1", &[])), Err(CaptureError::Unreadable));
}

#[test]
fn capture_of_the_later_format_is_refused() {
    let har = document("1.3", &["https://example.com/"]);
    assert_eq!(hostnames_from_har(&har), Err(CaptureError::UnsupportedVersion));
}

#[test]
fn hostnames_from_urls_in_order_of_first_occurrence() {
    let urls = texts(&["http://b/", "https://a/x", "http://b/y", "wss://c"]);
    assert_eq!(hostnames_from_urls(&urls), Ok(texts(&["b", "a", "c"])));
    assert_eq!(hostnames_from_urls(&vec![]), Ok(vec![]));
    assert_eq!(
        hostnames_from_urls(&texts(&["rtsp://x.y", "nothing"])),
        Err(CaptureError::NoHostname { entry: 0 })
    );
}

#[test]
fn merged_captures_are_one_set() {
    let captures = vec![Ok(texts(&["a", "b"])), Ok(vec![]), Ok(texts(&["b", "c", "a", "d"]))];
    assert_eq!(merge_hostnames(&captures), Ok(texts(&["a", "b", "c", "d"])));
    assert_eq!(merge_hostnames(&vec![]), Ok(vec![]));
}

#[test]
fn merged_captures_fail_with_the_first_error() {
    let captures = vec![
        Ok(texts(&["a"])),
        Err(CaptureError::NoHostname { entry: 4 }),
        Err(CaptureError::Unreadable),
    ];
    assert_eq!(merge_hostnames(&captures), Err(CaptureError::NoHostname { entry: 4 }));
}

#[test]
fn test_hostnames_from_har() {
    let har = document(
        "1.2",
        &["https://a.example/", "https://b.example/x", "http://c.example/y?z", "https://a.example/2"],
    );
    let hostnames = hostnames_from_har(&har).unwrap();
    println!("capture yields hostnames ({}): {hostnames:?}", hostnames.len());
    assert!(hostnames.len() >= 3);
}
