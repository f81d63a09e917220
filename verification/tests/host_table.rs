use wgroutes::addr::{Ipv4, Network};
use wgroutes::host::{from_hex2, parse_ip_port, parse_table, Conn, Host, TableError};

fn conn_no_ports(src_ip: &str, dst_ip: &str) -> Conn {
    Conn {
        src_ip: Ipv4::parse(src_ip).unwrap(),
        src_port: 0,
        dst_ip: Ipv4::parse(dst_ip).unwrap(),
        dst_port: 0,
    }
}

fn assert_contains_dst(h: &Host, net: &str, expected: Option<&str>) {
    assert_eq!(h.contains_dst(net), expected.map(|ip| (ip.to_string(), 0)));
}

const TCP_TABLE: &str = "  sl  local_address rem_address   st tx_queue rx_queue tr tm->when retrnsmt   uid  timeout inode
   0: 0100007F:0277 00000000:0000 0A 00000000:00000000 00:00000000 00000000     0        0 21514 1 0000000000000000 100 0 0 10 0
   1: C301A8C0:E5BC 0702000A:01BB 01 00000000:00000000 02:000A5B3D 00000000  1000        0 98211 2 0000000000000000 24 4 30 10 -1
  12: C301A8C0:0016 0101A8C0:D431 01 00000000:00000000 02:0009E0A4 00000000     0        0 31337 4 0000000000000000 20 4 1 10 -1
";

const UDP_TABLE: &str = "   sl  local_address rem_address   st tx_queue rx_queue tr tm->when retrnsmt   uid  timeout inode ref pointer drops
  584: 3500007F:0035 00000000:0000 07 00000000:00000000 00:00000000 00000000   101        0 18962 2 0000000000000000 0
";

#[test]
fn test_parse_ip_port() {
    assert_eq!(parse_ip_port("C301A8C0:E5BC"), Ok((Ipv4::new(192, 168, 1, 195), 58812)));
    assert!(parse_ip_port("C301A8C:E5BC").is_err());
    assert!(parse_ip_port("C301A8C0:E5BCC").is_err());
    assert!(parse_ip_port("C30xA8C0:E5BC").is_err());
}

#[test]
fn test_contains() {
    let host = Host {
        tcp_conns: vec![
            conn_no_ports("192.168.100.4", "192.168.200.5"),
            conn_no_ports("10.0.1.6", "10.0.2.7"),
        ],
        udp_conns: vec![
            conn_no_ports("172.17.200.4", "172.17.250.5"),
            conn_no_ports("12.0.1.6", "12.0.2.7"),
        ],
    };
    assert_contains_dst(&host, "192.168.200.0/24", Some("192.168.200.5"));
    assert_contains_dst(&host, "172.17.250.0/24", Some("172.17.250.5"));
    assert_contains_dst(&host, "10.0.0.0/16", Some("10.0.2.7"));
    assert_contains_dst(&host, "12.0.0.0/16", Some("12.0.2.7"));

    assert_contains_dst(&host, "13.0.0.0/8", None);
    assert_contains_dst(&host, "192.168.100.0/24", None);
}

#[test]
fn endpoint_errors_by_kind() {
    assert_eq!(parse_ip_port("C301A8C0"), Err(TableError::MissingPort));
    assert_eq!(parse_ip_port(""), Err(TableError::MissingPort));
    assert_eq!(parse_ip_port("C301A8C:E5BC"), Err(TableError::WrongLength));
    assert_eq!(parse_ip_port("C301A8C0:E5BCC"), Err(TableError::WrongLength));
    assert_eq!(parse_ip_port(":"), Err(TableError::WrongLength));
    assert_eq!(parse_ip_port("C30xA8C0:E5BC"), Err(TableError::BadHex));
    assert_eq!(parse_ip_port("C301A8C0:E5Bg"), Err(TableError::BadHex));
    // nine characters in nine bytes against eight characters in nine bytes
    assert_eq!(parse_ip_port("C301A8C00:E5BC"), Err(TableError::WrongLength));
    assert_eq!(parse_ip_port("éC301A8C:E5BC"), Err(TableError::WrongLength));
    // eight bytes, but fewer characters
    assert_eq!(parse_ip_port("ééAAAA:E5BC"), Err(TableError::BadHex));
}

#[test]
fn endpoint_ignores_what_follows_a_second_colon() {
    assert_eq!(parse_ip_port("0100007F:0035:rest"), Ok((Ipv4::new(127, 0, 0, 1), 53)));
}

#[test]
fn endpoint_bytes_may_carry_a_plus_sign() {
    assert_eq!(parse_ip_port("+1+2+3+4:+5+6"), Ok((Ipv4::new(4, 3, 2, 1), 5 * 256 + 6)));
    assert_eq!(parse_ip_port("-1020304:0506"), Err(TableError::BadHex));
}

#[test]
fn endpoint_port_is_high_byte_first() {
    assert_eq!(parse_ip_port("00000000:0100"), Ok((Ipv4::new(0, 0, 0, 0), 256)));
    assert_eq!(parse_ip_port("FFFFFFFF:FFFF"), Ok((Ipv4::new(255, 255, 255, 255), 65535)));
    assert_eq!(parse_ip_port("0702000a:01bb"), Ok((Ipv4::new(10, 0, 2, 7), 443)));
}

#[test]
fn hex_byte_reads_as_the_standard_library_does() {
    let samples = [
        "", "0", "f", "F", "ff", "FF", "0ff", "000000ff", "100", "fff", "+", "+f", "+ff", "++f",
        "-f", "-0", "g", "0x1f", " f", "f ", "1_0", "ａ", "٣", "7F", "a0", "+00", "+100", "fg",
    ];
    for s in samples {
        let expected = u8::from_str_radix(s, 16).ok();
        assert_eq!(from_hex2(s).ok(), expected, "{s:?}");
        if expected.is_none() {
            assert_eq!(from_hex2(s), Err(TableError::BadHex));
        }
    }
}

#[test]
fn table_rows_become_connections() {
    let conns = parse_table(TCP_TABLE).unwrap();
    assert_eq!(
        conns,
        vec![
            Conn {
                src_ip: Ipv4::new(127, 0, 0, 1),
                src_port: 631,
                dst_ip: Ipv4::new(0, 0, 0, 0),
                dst_port: 0
            },
            Conn {
                src_ip: Ipv4::new(192, 168, 1, 195),
                src_port: 58812,
                dst_ip: Ipv4::new(10, 0, 2, 7),
                dst_port: 443
            },
            Conn {
                src_ip: Ipv4::new(192, 168, 1, 195),
                src_port: 22,
                dst_ip: Ipv4::new(192, 168, 1, 1),
                dst_port: 54321
            },
        ]
    );
}

#[test]
fn table_heading_is_skipped_and_empty_tables_are_fine() {
    assert_eq!(parse_table(""), Ok(vec![]));
    assert_eq!(parse_table("only a heading"), Ok(vec![]));
    assert_eq!(parse_table("only a heading\n"), Ok(vec![]));
    assert_eq!(parse_table("not three fields\n"), Ok(vec![]));
}

#[test]
fn table_lines_may_end_in_carriage_return_and_line_feed() {
    let table = "heading\r\n 0: 0100007F:0277 0702000A:01BB 0A\r\n\t1: 0100007F:0277 0802000A:01BB 0A  ";
    let conns = parse_table(table).unwrap();
    assert_eq!(conns.len(), 2);
    assert_eq!(conns[0].dst_ip, Ipv4::new(10, 0, 2, 7));
    assert_eq!(conns[1].dst_ip, Ipv4::new(10, 0, 2, 8));
}

#[test]
fn table_row_errors() {
    assert_eq!(parse_table("heading\n\n"), Err(TableError::MissingFields));
    assert_eq!(parse_table("heading\n0: 0100007F:0277\n"), Err(TableError::MissingFields));
    // two spaces make an empty field
    assert_eq!(
        parse_table("heading\n0:  0100007F:0277 0702000A:01BB\n"),
        Err(TableError::MissingPort)
    );
    assert_eq!(
        parse_table("heading\n0: 0100007F:0277 0702000A01BB x\n"),
        Err(TableError::MissingPort)
    );
    assert_eq!(
        parse_table("heading\n0: 0100007F:277 0702000A:01BB x\n"),
        Err(TableError::WrongLength)
    );
    assert_eq!(
        parse_table("heading\n0: 0100007F:0277 0702000Z:01BB x\n"),
        Err(TableError::BadHex)
    );
    // the first bad row decides
    assert_eq!(
        parse_table("heading\n0: 0100007F:0277 0702000Z:01BB x\nshort\n"),
        Err(TableError::BadHex)
    );
}

#[test]
fn host_from_both_tables() {
    let host = Host::from_proc_net_tcp(TCP_TABLE, UDP_TABLE).unwrap();
    assert_eq!(host.tcp_conns.len(), 3);
    assert_eq!(
        host.udp_conns,
        vec![Conn {
            src_ip: Ipv4::new(127, 0, 0, 53),
            src_port: 53,
            dst_ip: Ipv4::new(0, 0, 0, 0),
            dst_port: 0
        }]
    );
}

#[test]
fn host_reports_the_tcp_table_first() {
    assert_eq!(
        Host::from_proc_net_tcp("h\nshort\n", "h\n0: 0100007F:0277 0702000Z:01BB\n"),
        Err(TableError::MissingFields)
    );
    assert_eq!(
        Host::from_proc_net_tcp(TCP_TABLE, "h\n0: 0100007F:0277 0702000Z:01BB\n"),
        Err(TableError::BadHex)
    );
}

#[test]
fn first_endpoint_in_network_goes_tcp_before_udp() {
    let mut first = conn_no_ports("1.1.1.1", "10.0.9.9");
    first.dst_port = 1;
    let mut second = conn_no_ports("1.1.1.1", "10.0.2.7");
    second.dst_port = 2;
    let mut third = conn_no_ports("1.1.1.1", "10.0.3.3");
    third.dst_port = 3;
    let host = Host::new(vec![conn_no_ports("1.1.1.1", "11.0.0.1"), second, third], vec![first]);
    let net = Network::parse("10.0.0.0/16").unwrap();
    assert_eq!(host.first_dst_in(&net), Some((Ipv4::new(10, 0, 2, 7), 2)));
    let narrow = Network::parse("10.0.9.0/24").unwrap();
    assert_eq!(host.first_dst_in(&narrow), Some((Ipv4::new(10, 0, 9, 9), 1)));
    let other = Network::parse("12.0.0.0/8").unwrap();
    assert_eq!(host.first_dst_in(&other), None);
}

#[test]
fn find_dst_tells_a_bad_network_from_no_hit() {
    let host = Host::new(vec![conn_no_ports("10.0.1.6", "10.0.2.7")], vec![]);
    assert_eq!(host.find_dst("not a network"), None);
    assert_eq!(host.find_dst("10.0.0.0/33"), None);
    assert_eq!(host.find_dst("11.0.0.0/8"), Some(None));
    assert_eq!(host.find_dst("10.0.0.0/16"), Some(Some(("10.0.2.7".to_string(), 0))));
}

#[test]
fn network_text_is_read_by_the_network_crate() {
    assert_eq!(
        Network::parse("10.1.9.32/16"),
        Some(Network { addr: Ipv4::new(10, 1, 9, 32), prefix: 16 })
    );
    assert_eq!(
        Network::parse("192.168.1.1"),
        Some(Network { addr: Ipv4::new(192, 168, 1, 1), prefix: 32 })
    );
    assert_eq!(
        Network::parse("10.0.0.0/255.255.0.0"),
        Some(Network { addr: Ipv4::new(10, 0, 0, 0), prefix: 16 })
    );
    assert_eq!(Network::parse("10.0.0.0/16/1"), None);
    assert_eq!(Network::parse("10.0.0/16"), None);
    assert_eq!(Network::parse(""), None);
}

#[test]
fn network_contains_by_prefix_bits() {
    let all = Network::new(Ipv4::new(1, 2, 3, 4), 0).unwrap();
    assert!(all.contains(Ipv4::new(200, 1, 1, 1)));
    let one = Network::new(Ipv4::new(1, 2, 3, 4), 32).unwrap();
    assert!(one.contains(Ipv4::new(1, 2, 3, 4)));
    assert!(!one.contains(Ipv4::new(1, 2, 3, 5)));
    let odd = Network::new(Ipv4::new(10, 1, 9, 32), 12).unwrap();
    assert!(odd.contains(Ipv4::new(10, 15, 0, 0)));
    assert!(!odd.contains(Ipv4::new(10, 16, 0, 0)));
    assert_eq!(Network::new(Ipv4::new(1, 2, 3, 4), 33), None);
    // the argument is not handed back: the same address in and out of a network
    let net = Network::of(Ipv4::new(10, 0, 2, 7));
    assert!(net.contains(Ipv4::new(10, 0, 255, 255)));
    assert!(!net.contains(Ipv4::new(10, 1, 2, 7)));
}

#[test]
fn address_bits_are_most_significant_octet_first() {
    assert_eq!(Ipv4::new(1, 2, 3, 4).to_bits(), 0x01020304);
    assert_eq!(Ipv4::from_bits(0xC0A801C3), Ipv4::new(192, 168, 1, 195));
    assert_eq!(Ipv4::from_bits(Ipv4::new(255, 0, 255, 1).to_bits()), Ipv4::new(255, 0, 255, 1));
}

#[test]
fn test_host_tcp_udp() {
    let host = Host::from_proc_net_tcp(TCP_TABLE, UDP_TABLE).unwrap();
    [("tcp", host.tcp_conns), ("udp", host.udp_conns)].into_iter().for_each(|(title, conns)| {
        println!("{title} connections:");
        conns.into_iter().for_each(|c| {
            println!(
                "\t{}:{} -> {}:{}",
                c.src_ip.to_string(),
                c.src_port,
                c.dst_ip.to_string(),
                c.dst_port
            )
        });
        println!("\n");
    });
}
