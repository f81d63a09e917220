use wgroutes::addr::Ipv4;
use wgroutes::dns::{
    discard_port, domain_from_host, hostname_from_url, hostname_is_ip, ResolveError,
};

#[test]
fn test_hostname_from_url() {
    assert_eq!(hostname_from_url("https://x.y"), Some("x.y".to_string()));
    assert_eq!(hostname_from_url("https://x.y/"), Some("x.y".to_string()));
    assert_eq!(hostname_from_url("http://x.y"), Some("x.y".to_string()));
    assert_eq!(hostname_from_url("http://x.y/"), Some("x.y".to_string()));
    assert_eq!(hostname_from_url("http://x.y/aksdh/akjsdh"), Some("x.y".to_string()));
    assert_eq!(hostname_from_url("http://x.y//s//h///?sdf=ass"), Some("x.y".to_string()));
    assert_eq!(hostname_from_url("rtsp://x.y"), None);
    assert_eq!(hostname_from_url("rtsp://x.y/"), None);
    assert_eq!(hostname_from_url("x.y"), None);
    assert_eq!(hostname_from_url("x.y/"), None);
}

#[test]
fn test_domain_from_host() {
    assert_eq!(domain_from_host("x.y"), Ok("x.y".to_string()));
    assert_eq!(domain_from_host("x.y.z"), Ok("y.z".to_string()));
    assert!(domain_from_host("").is_err());
    assert!(domain_from_host("x").is_err());
    assert!(domain_from_host("x..").is_err());
    assert!(domain_from_host("..x").is_err());
    assert!(domain_from_host("x..y").is_err());
    assert!(domain_from_host("x.y.").is_err());
    assert!(domain_from_host(".x.y").is_err());
    assert!(domain_from_host(".x.y.").is_err());
    assert!(domain_from_host(".xxxx.yyy.").is_err());
}

#[test]
fn test_url_is_ip() {
    assert!(hostname_is_ip("10.1.2.3").is_some());
    assert!(hostname_is_ip("a.b.c.d").is_none());
}

#[test]
fn test_discard_port() {
    assert_eq!(discard_port(""), "");
    assert_eq!(discard_port("noport"), "noport");
    assert_eq!(discard_port("a.b.c:4443"), "a.b.c");
}

#[test]
fn domain_of_three_labels_and_two() {
    assert_eq!(domain_from_host("a.b.c"), Ok("b.c".to_string()));
    assert_eq!(domain_from_host("a.b"), Ok("a.b".to_string()));
    assert_eq!(domain_from_host("foo.co.uk"), Ok("co.uk".to_string()));
}

#[test]
fn domain_rejects_empty_labels() {
    assert_eq!(domain_from_host("a..b"), Err(ResolveError::InvalidHostname));
    assert_eq!(domain_from_host(".a.b"), Err(ResolveError::InvalidHostname));
    assert_eq!(domain_from_host("a.b."), Err(ResolveError::InvalidHostname));
    assert_eq!(domain_from_host("bad..host"), Err(ResolveError::InvalidHostname));
}

#[test]
fn domain_rejects_fewer_than_two_labels() {
    assert_eq!(domain_from_host(""), Err(ResolveError::InvalidHostname));
    assert_eq!(domain_from_host("localhost"), Err(ResolveError::InvalidHostname));
    assert_eq!(domain_from_host("."), Err(ResolveError::InvalidHostname));
}

#[test]
fn discard_port_stops_at_first_colon() {
    assert_eq!(discard_port("h:1:2"), "h");
    assert_eq!(discard_port(":80"), "");
    assert_eq!(discard_port("93.184.216.34:443"), "93.184.216.34");
    assert_eq!(discard_port("münchen.de:8080"), "münchen.de");
}

#[test]
fn url_host_of_other_scheme_prefixes() {
    assert_eq!(hostname_from_url("wss://s.t/chat"), Some("s.t".to_string()));
    assert_eq!(hostname_from_url("ws://s.t/chat"), None);
    assert_eq!(hostname_from_url("https://"), Some(String::new()));
    assert_eq!(hostname_from_url("https://h:8443/p"), Some("h:8443".to_string()));
    assert_eq!(hostname_from_url("HTTP://x.y"), None);
}

#[test]
fn literal_addresses_parse_as_the_network_parser_reads_them() {
    let samples = [
        "0.0.0.0", "1.2.3.4", "255.255.255.255", "256.1.1.1", "01.2.3.4", "1.2.3", "1.2.3.4.5",
        "1..3.4", "1.2.3.4 ", " 1.2.3.4", "1.2.3.-4", "+1.2.3.4", "1.2.3.0004", "1.2.3.04",
        "1.2.3.00", "", ".", "...", "a.b.c.d", "1.2.3.4:80", "127.0.0.1", "999.0.0.1", "0.00.0.0",
        "١.٢.٣.٤", "1.2.3.4\n", "192.168.1.195",
    ];
    for s in samples {
        // without a slash, the network parser reads a bare address
        let reference = s.parse::<ipnetwork::Ipv4Network>().ok().map(|n| n.ip().octets());
        let ours = hostname_is_ip(s).map(|ip| [ip.a, ip.b, ip.c, ip.d]);
        assert_eq!(ours, reference, "{s:?}");
    }
}

#[test]
fn address_text_round_trip() {
    for ip in [
        Ipv4::new(0, 0, 0, 0),
        Ipv4::new(10, 0, 2, 7),
        Ipv4::new(192, 168, 1, 195),
        Ipv4::new(255, 255, 255, 255),
        Ipv4::new(100, 99, 9, 109),
    ] {
        let text = ip.to_string();
        let reference = ipnetwork::Ipv4Network::new([ip.a, ip.b, ip.c, ip.d].into(), 32).unwrap();
        assert_eq!(text, reference.ip().to_string());
        assert_eq!(Ipv4::parse(&text), Some(ip));
    }
}

#[test]
fn address_classes() {
    assert!(Ipv4::new(127, 0, 0, 1).is_loopback());
    assert!(Ipv4::new(127, 255, 1, 2).is_local());
    assert!(Ipv4::new(255, 255, 255, 255).is_broadcast());
    assert!(!Ipv4::new(255, 255, 255, 254).is_local());
    assert!(Ipv4::new(10, 1, 2, 3).is_private());
    assert!(Ipv4::new(172, 16, 0, 1).is_private());
    assert!(Ipv4::new(172, 31, 255, 255).is_private());
    assert!(!Ipv4::new(172, 32, 0, 1).is_private());
    assert!(!Ipv4::new(172, 15, 0, 1).is_private());
    assert!(Ipv4::new(192, 168, 1, 1).is_private());
    assert!(!Ipv4::new(192, 169, 1, 1).is_local());
    assert!(!Ipv4::new(93, 184, 216, 34).is_local());
}

#[test]
fn error_messages_differ() {
    let a = ResolveError::InvalidHostname.message();
    let b = ResolveError::NameServerLookupFailure.message();
    let c = ResolveError::MalformedNameServerAddress.message();
    assert!(!a.is_empty() && !b.is_empty() && !c.is_empty());
    assert!(a != b && b != c && a != c);
}
