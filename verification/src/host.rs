//! The machine's live connections: the kernel's connection tables as text,
//! the endpoints read from them, and the search for an endpoint inside a
//! network.

use crate::addr::{network_of, Ipv4, Network};
use crate::text::{
    char_views, lines, lines_of, split, split_chars, to_chars, trim, trim_chars,
};
use vstd::prelude::*;

verus! {

/// One row of a connection table.
#[derive(Clone, Copy, Debug, PartialEq, Eq, Structural)]
pub struct Conn {
    pub src_ip: Ipv4,
    pub src_port: u16,
    pub dst_ip: Ipv4,
    pub dst_port: u16,
}

/// The connections of the machine, TCP first.
#[derive(Debug, PartialEq, Eq)]
pub struct Host {
    pub tcp_conns: Vec<Conn>,
    pub udp_conns: Vec<Conn>,
}

/// Why a connection table could not be read.
#[derive(Clone, Copy, Debug, PartialEq, Eq, Structural)]
pub enum TableError {
    /// A row has fewer than three fields.
    MissingFields,
    /// An endpoint has no colon between address and port.
    MissingPort,
    /// An endpoint's address is not eight bytes long, or its port not four.
    WrongLength,
    /// An endpoint holds something else than hexadecimal digits.
    BadHex,
}

/// `c` is a hexadecimal digit, in either case.
pub open spec fn is_hex(c: char) -> bool {
    ('0' <= c <= '9') || ('a' <= c <= 'f') || ('A' <= c <= 'F')
}

/// The number that the hexadecimal digit `c` stands for.
pub open spec fn hex_digit_value(c: char) -> int {
    if '0' <= c <= '9' {
        c as int - 48
    } else if 'a' <= c <= 'f' {
        c as int - 87
    } else {
        c as int - 55
    }
}

/// The value of `s` read as a hexadecimal number.
pub open spec fn hex_value(s: Seq<char>) -> int
    decreases s.len(),
{
    if s.len() == 0 {
        0
    } else {
        16 * hex_value(s.drop_last()) + hex_digit_value(s.last())
    }
}

/// Every character of `s` is a hexadecimal digit.
pub open spec fn all_hex(s: Seq<char>) -> bool {
    forall|i: int| 0 <= i < s.len() ==> is_hex(#[trigger] s[i])
}

/// The byte that `s` denotes in hexadecimal: one or more digits with a
/// value of at most 255, which a plus sign may precede.
pub open spec fn hex_byte(s: Seq<char>) -> Option<u8> {
    let digits = if s.len() >= 2 && s[0] == '+' {
        s.skip(1)
    } else {
        s
    };
    if digits.len() >= 1 && all_hex(digits) && hex_value(digits) <= 255 {
        Some(hex_value(digits) as u8)
    } else {
        None
    }
}

/// The number of bytes that `c` takes in UTF-8.
pub open spec fn utf8_width(c: char) -> nat {
    if (c as u32) < 0x80 {
        1
    } else if (c as u32) < 0x800 {
        2
    } else if (c as u32) < 0x10000 {
        3
    } else {
        4
    }
}

/// The number of bytes that `s` takes in UTF-8.
pub open spec fn utf8_len(s: Seq<char>) -> nat
    decreases s.len(),
{
    if s.len() == 0 {
        0
    } else {
        utf8_len(s.drop_last()) + utf8_width(s.last())
    }
}

/// The six bytes of an endpoint are all written in hexadecimal.
pub open spec fn endpoint_bytes_ok(ip: Seq<char>, port: Seq<char>) -> bool {
    &&& ip.len() == 8
    &&& port.len() == 4
    &&& hex_byte(ip.subrange(0, 2)) is Some
    &&& hex_byte(ip.subrange(2, 4)) is Some
    &&& hex_byte(ip.subrange(4, 6)) is Some
    &&& hex_byte(ip.subrange(6, 8)) is Some
    &&& hex_byte(port.subrange(0, 2)) is Some
    &&& hex_byte(port.subrange(2, 4)) is Some
}

/// The endpoint that a table field denotes. The field is an address of four
/// bytes, a colon, and a port of two bytes, each byte as two hexadecimal
/// characters; what follows a second colon is ignored. The address stands
/// with its last octet first, the port with its high byte first.
pub open spec fn endpoint_of(s: Seq<char>) -> Result<(Ipv4, u16), TableError> {
    let parts = split(s, ':');
    if parts.len() < 2 {
        Err(TableError::MissingPort)
    } else {
        let ip = parts[0];
        let port = parts[1];
        if utf8_len(ip) != 8 || utf8_len(port) != 4 {
            Err(TableError::WrongLength)
        } else if endpoint_bytes_ok(ip, port) {
            Ok(
                (
                    Ipv4 {
                        a: hex_byte(ip.subrange(6, 8))->0,
                        b: hex_byte(ip.subrange(4, 6))->0,
                        c: hex_byte(ip.subrange(2, 4))->0,
                        d: hex_byte(ip.subrange(0, 2))->0,
                    },
                    (hex_byte(port.subrange(0, 2))->0 * 256 + hex_byte(port.subrange(2, 4))->0) as u16,
                ),
            )
        } else {
            Err(TableError::BadHex)
        }
    }
}

/// The connection that a table row denotes. The row's fields are separated
/// by single spaces, after white space at both ends of the row is dropped;
/// the second field is the local endpoint, the third the remote one.
pub open spec fn conn_of_line(line: Seq<char>) -> Result<Conn, TableError> {
    let fields = split(trim(line), ' ');
    if fields.len() < 3 {
        Err(TableError::MissingFields)
    } else {
        match endpoint_of(fields[1]) {
            Err(e) => Err(e),
            Ok((src_ip, src_port)) => match endpoint_of(fields[2]) {
                Err(e) => Err(e),
                Ok((dst_ip, dst_port)) => Ok(Conn { src_ip, src_port, dst_ip, dst_port }),
            },
        }
    }
}

/// The connections of a list of rows, or the error of the first row that
/// denotes none.
pub open spec fn conns_of_lines(rows: Seq<Seq<char>>) -> Result<Seq<Conn>, TableError>
    decreases rows.len(),
{
    if rows.len() == 0 {
        Ok(Seq::<Conn>::empty())
    } else {
        match conns_of_lines(rows.drop_last()) {
            Err(e) => Err(e),
            Ok(conns) => match conn_of_line(rows.last()) {
                Err(e) => Err(e),
                Ok(conn) => Ok(conns.push(conn)),
            },
        }
    }
}

/// The rows of a table: its lines but the first, which is the heading.
pub open spec fn table_rows(table: Seq<char>) -> Seq<Seq<char>> {
    if lines(table).len() == 0 {
        lines(table)
    } else {
        lines(table).skip(1)
    }
}

/// The connections that a connection table lists.
pub open spec fn table_conns(table: Seq<char>) -> Result<Seq<Conn>, TableError> {
    conns_of_lines(table_rows(table))
}

/// The first connection of `conns` whose remote address lies in `net`.
pub open spec fn first_into(conns: Seq<Conn>, net: Network) -> Option<Conn>
    decreases conns.len(),
{
    if conns.len() == 0 {
        None
    } else if net.covers(conns[0].dst_ip) {
        Some(conns[0])
    } else {
        first_into(conns.skip(1), net)
    }
}

/// An endpoint with its address as text.
pub open spec fn endpoint_text(e: Option<(Ipv4, u16)>) -> Option<(Seq<char>, u16)> {
    match e {
        Some((ip, port)) => Some((ip.text(), port)),
        None => None,
    }
}

/// The view of an endpoint whose address is text.
pub open spec fn found_view(e: Option<(String, u16)>) -> Option<(Seq<char>, u16)> {
    match e {
        Some((ip, port)) => Some((ip@, port)),
        None => None,
    }
}

/// No connection has its remote address in `net`.
pub open spec fn clear_of(conns: Seq<Conn>, net: Network) -> bool {
    forall|i: int| 0 <= i < conns.len() ==> !net.covers((#[trigger] conns[i]).dst_ip)
}

/// `first_into` finds nothing exactly where no connection leads into the
/// network, and what it finds is a connection that does.
pub proof fn lemma_first_into(conns: Seq<Conn>, net: Network)
    ensures
        first_into(conns, net) is None <==> clear_of(conns, net),
        first_into(conns, net) matches Some(c) ==> conns.contains(c) && net.covers(c.dst_ip),
    decreases conns.len(),
{
    if conns.len() > 0 {
        let rest = conns.skip(1);
        lemma_first_into(rest, net);
        if net.covers(conns[0].dst_ip) {
            assert(conns.contains(conns[0]));
        } else {
            if first_into(rest, net) is Some {
                let c = first_into(rest, net)->0;
                let i = choose|i: int| 0 <= i < rest.len() && rest[i] == c;
                assert(conns[i + 1] == c);
            }
            if clear_of(rest, net) {
                assert forall|i: int| 0 <= i < conns.len() implies !net.covers(
                    (#[trigger] conns[i]).dst_ip,
                ) by {
                    if i > 0 {
                        assert(rest[i - 1] == conns[i]);
                    }
                }
            } else {
                let i = choose|i: int| 0 <= i < rest.len() && net.covers((#[trigger] rest[i]).dst_ip);
                assert(conns[i + 1] == rest[i]);
            }
        }
    }
}

/// The value of a prefix of hexadecimal digits is at most the value of the whole.
proof fn lemma_hex_value_grows(s: Seq<char>, k: int)
    requires
        all_hex(s),
        0 <= k <= s.len(),
    ensures
        0 <= hex_value(s.take(k)) <= hex_value(s),
    decreases s.len() - k,
{
    lemma_hex_value_nonnegative(s.take(k));
    if k < s.len() {
        lemma_hex_value_grows(s, k + 1);
        assert(s.take(k + 1).drop_last() =~= s.take(k));
        assert(is_hex(s[k]));
        assert(s.take(k + 1).last() == s[k]);
    } else {
        assert(s.take(k) =~= s);
    }
}

/// The value of hexadecimal digits is not negative.
proof fn lemma_hex_value_nonnegative(s: Seq<char>)
    requires
        all_hex(s),
    ensures
        0 <= hex_value(s),
    decreases s.len(),
{
    if s.len() > 0 {
        assert(is_hex(s[s.len() - 1]));
        lemma_hex_value_nonnegative(s.drop_last());
    }
}

/// The number of bytes of a prefix is at most that of the whole.
proof fn lemma_utf8_len_grows(s: Seq<char>, k: int)
    requires
        0 <= k <= s.len(),
    ensures
        utf8_len(s.take(k)) <= utf8_len(s),
    decreases s.len() - k,
{
    if k < s.len() {
        lemma_utf8_len_grows(s, k + 1);
        assert(s.take(k + 1).drop_last() =~= s.take(k));
    } else {
        assert(s.take(k) =~= s);
    }
}

/// The value of one hexadecimal digit.
fn hex_digit(c: char) -> (r: Option<u8>)
    ensures
        r is Some <==> is_hex(c),
        r matches Some(v) ==> v == hex_digit_value(c) && v < 16,
{
    if c >= '0' && c <= '9' {
        Some((c as u32 - 48) as u8)
    } else if c >= 'a' && c <= 'f' {
        Some((c as u32 - 87) as u8)
    } else if c >= 'A' && c <= 'F' {
        Some((c as u32 - 55) as u8)
    } else {
        None
    }
}

/// Reads the byte that `v[from..to]` denotes in hexadecimal.
fn hex_byte_at(v: &Vec<char>, from: usize, to: usize) -> (r: Option<u8>)
    requires
        from <= to <= v.len(),
    ensures
        r == hex_byte(v@.subrange(from as int, to as int)),
{
    let ghost s = v@.subrange(from as int, to as int);
    let start = if to - from >= 2 && v[from] == '+' {
        from + 1
    } else {
        from
    };
    let ghost digits = v@.subrange(start as int, to as int);
    assert(digits =~= if s.len() >= 2 && s[0] == '+' {
        s.skip(1)
    } else {
        s
    });
    if start == to {
        return None;
    }
    let mut value: u32 = 0;
    let mut i: usize = start;
    while i < to
        invariant
            from <= start <= i <= to <= v.len(),
            s == v@.subrange(from as int, to as int),
            digits == v@.subrange(start as int, to as int),
            hex_byte(s) == if all_hex(digits) && hex_value(digits) <= 255 {
                Some(hex_value(digits) as u8)
            } else {
                None
            },
            all_hex(digits.take(i - start)),
            value == hex_value(digits.take(i - start)),
            value <= 255,
        decreases to - i,
    {
        let ghost now = digits.take(i - start);
        let ghost next = digits.take(i - start + 1);
        assert(next.drop_last() =~= now);
        assert(next.last() == v@[i as int]);
        match hex_digit(v[i]) {
            None => {
                assert(!is_hex(digits[i - start]));
                return None;
            },
            Some(d) => {
                assert forall|j: int| 0 <= j < next.len() implies is_hex(#[trigger] next[j]) by {
                    if j < now.len() {
                        assert(now[j] == next[j]);
                    }
                }
                if value * 16 + d as u32 > 255 {
                    proof {
                        if all_hex(digits) {
                            lemma_hex_value_grows(digits, i - start + 1);
                        }
                    }
                    return None;
                }
                value = value * 16 + d as u32;
            },
        }
        i += 1;
    }
    assert(digits.take(to - start) =~= digits);
    Some(value as u8)
}

/// Reads one byte in hexadecimal.
pub fn from_hex2(s: &str) -> (r: Result<u8, TableError>)
    ensures
        match r {
            Ok(v) => hex_byte(s@) == Some(v),
            Err(e) => hex_byte(s@) is None && e == TableError::BadHex,
        },
{
    let v = to_chars(s);
    assert(v@.subrange(0, v@.len() as int) =~= v@);
    match hex_byte_at(&v, 0, v.len()) {
        Some(b) => Ok(b),
        None => Err(TableError::BadHex),
    }
}

/// Whether `v` takes exactly `want` bytes in UTF-8.
fn takes_bytes(v: &Vec<char>, want: usize) -> (r: bool)
    requires
        want <= 8,
    ensures
        r == (utf8_len(v@) == want),
{
    let mut total: usize = 0;
    let mut i: usize = 0;
    while i < v.len()
        invariant
            i <= v.len(),
            want <= 8,
            total == utf8_len(v@.take(i as int)),
            total <= want,
        decreases v.len() - i,
    {
        let u = v[i] as u32;
        let w: usize = if u < 0x80 {
            1
        } else if u < 0x800 {
            2
        } else if u < 0x10000 {
            3
        } else {
            4
        };
        proof {
            assert(v@.take(i + 1).drop_last() =~= v@.take(i as int));
            assert(v@.take(i + 1).last() == v@[i as int]);
        }
        if total + w > want {
            proof {
                lemma_utf8_len_grows(v@, i + 1);
            }
            return false;
        }
        total = total + w;
        i += 1;
    }
    assert(v@.take(v@.len() as int) =~= v@);
    total == want
}

/// Reads an endpoint from the characters of a table field.
fn endpoint_from_chars(v: &Vec<char>) -> (r: Result<(Ipv4, u16), TableError>)
    ensures
        r == endpoint_of(v@),
{
    let parts = split_chars(v, ':');
    assert(char_views(parts@).len() == parts@.len());
    if parts.len() < 2 {
        return Err(TableError::MissingPort);
    }
    let ip = &parts[0];
    let port = &parts[1];
    assert(char_views(parts@)[0] == ip@);
    assert(char_views(parts@)[1] == port@);
    if !takes_bytes(ip, 8) || !takes_bytes(port, 4) {
        return Err(TableError::WrongLength);
    }
    if ip.len() != 8 || port.len() != 4 {
        return Err(TableError::BadHex);
    }
    let d = hex_byte_at(ip, 0, 2);
    let c = hex_byte_at(ip, 2, 4);
    let b = hex_byte_at(ip, 4, 6);
    let a = hex_byte_at(ip, 6, 8);
    let x = hex_byte_at(port, 0, 2);
    let y = hex_byte_at(port, 2, 4);
    match (a, b, c, d, x, y) {
        (Some(a), Some(b), Some(c), Some(d), Some(x), Some(y)) => Ok(
            (Ipv4 { a, b, c, d }, (x as u16) * 256 + (y as u16)),
        ),
        _ => Err(TableError::BadHex),
    }
}

/// Reads an endpoint, such as `C301A8C0:E5BC`, from a table field.
pub fn parse_ip_port(s: &str) -> (r: Result<(Ipv4, u16), TableError>)
    ensures
        r == endpoint_of(s@),
{
    let v = to_chars(s);
    endpoint_from_chars(&v)
}

/// Reads a connection from the characters of a table row.
fn conn_from_chars(line: &Vec<char>) -> (r: Result<Conn, TableError>)
    ensures
        r == conn_of_line(line@),
{
    let trimmed = trim_chars(line);
    let fields = split_chars(&trimmed, ' ');
    assert(char_views(fields@).len() == fields@.len());
    if fields.len() < 3 {
        return Err(TableError::MissingFields);
    }
    assert(char_views(fields@)[1] == fields@[1]@);
    assert(char_views(fields@)[2] == fields@[2]@);
    let (src_ip, src_port) = match endpoint_from_chars(&fields[1]) {
        Ok(e) => e,
        Err(e) => {
            return Err(e);
        },
    };
    let (dst_ip, dst_port) = match endpoint_from_chars(&fields[2]) {
        Ok(e) => e,
        Err(e) => {
            return Err(e);
        },
    };
    Ok(Conn { src_ip, src_port, dst_ip, dst_port })
}

/// Reads the connections that a connection table lists.
pub fn parse_table(table: &str) -> (r: Result<Vec<Conn>, TableError>)
    ensures
        match r {
            Ok(conns) => table_conns(table@) == Ok::<Seq<Conn>, TableError>(conns@),
            Err(e) => table_conns(table@) == Err::<Seq<Conn>, TableError>(e),
        },
{
    let chars = to_chars(table);
    let all = lines_of(&chars);
    let ghost rows = table_rows(table@);
    assert(char_views(all@).len() == all@.len());
    let mut conns: Vec<Conn> = Vec::new();
    let mut i: usize = 1;
    if all.len() == 0 {
        return Ok(conns);
    }
    assert(rows.take(0) =~= Seq::<Seq<char>>::empty());
    while i < all.len()
        invariant
            1 <= i <= all.len(),
            rows == table_rows(table@),
            rows == char_views(all@).skip(1),
            conns_of_lines(rows.take(i - 1)) == Ok::<Seq<Conn>, TableError>(conns@),
        decreases all.len() - i,
    {
        let ghost now = rows.take(i - 1);
        let ghost next = rows.take(i as int);
        assert(next.drop_last() =~= now);
        assert(next.last() == all@[i as int]@);
        match conn_from_chars(&all[i]) {
            Ok(conn) => {
                conns.push(conn);
            },
            Err(e) => {
                proof {
                    lemma_first_error_stays(rows, i as int);
                }
                return Err(e);
            },
        }
        i += 1;
    }
    assert(rows.take(all@.len() - 1) =~= rows);
    Ok(conns)
}

/// Once the rows up to some row denote no connections, neither do all rows.
proof fn lemma_first_error_stays(rows: Seq<Seq<char>>, k: int)
    requires
        0 <= k <= rows.len(),
        conns_of_lines(rows.take(k)) is Err,
    ensures
        conns_of_lines(rows) == conns_of_lines(rows.take(k)),
    decreases rows.len() - k,
{
    if k < rows.len() {
        assert(rows.take(k + 1).drop_last() =~= rows.take(k));
        lemma_first_error_stays(rows, k + 1);
    } else {
        assert(rows.take(k) =~= rows);
    }
}

impl Host {
    /// All connections, TCP first.
    pub open spec fn conns(&self) -> Seq<Conn> {
        self.tcp_conns@ + self.udp_conns@
    }

    /// The remote endpoint of the first connection that leads into `net`.
    pub open spec fn dst_in(&self, net: Network) -> Option<(Ipv4, u16)> {
        match first_into(self.conns(), net) {
            Some(c) => Some((c.dst_ip, c.dst_port)),
            None => None,
        }
    }

    /// A machine with these connections.
    pub fn new(tcp_conns: Vec<Conn>, udp_conns: Vec<Conn>) -> (host: Host)
        ensures
            host.tcp_conns == tcp_conns,
            host.udp_conns == udp_conns,
    {
        Host { tcp_conns, udp_conns }
    }

    /// Reads the machine's connections from the text of its TCP table and
    /// of its UDP table. An error in the TCP table goes before one in the
    /// UDP table.
    pub fn from_proc_net_tcp(tcp: &str, udp: &str) -> (r: Result<Host, TableError>)
        ensures
            match r {
                Ok(host) => {
                    &&& table_conns(tcp@) == Ok::<Seq<Conn>, TableError>(host.tcp_conns@)
                    &&& table_conns(udp@) == Ok::<Seq<Conn>, TableError>(host.udp_conns@)
                },
                Err(e) => if table_conns(tcp@) is Err {
                    table_conns(tcp@) == Err::<Seq<Conn>, TableError>(e)
                } else {
                    table_conns(udp@) == Err::<Seq<Conn>, TableError>(e)
                },
            },
    {
        let tcp_conns = match parse_table(tcp) {
            Ok(conns) => conns,
            Err(e) => {
                return Err(e);
            },
        };
        let udp_conns = match parse_table(udp) {
            Ok(conns) => conns,
            Err(e) => {
                return Err(e);
            },
        };
        Ok(Host { tcp_conns, udp_conns })
    }

    /// The remote endpoint of the first connection, TCP before UDP, whose
    /// remote address lies in `net`; `None` where no connection leads there.
    pub fn first_dst_in(&self, net: &Network) -> (r: Option<(Ipv4, u16)>)
        requires
            net.wf(),
        ensures
            r == self.dst_in(*net),
            r is None <==> clear_of(self.conns(), *net),
    {
        proof {
            lemma_first_into(self.conns(), *net);
        }
        let ghost all = self.conns();
        let mut i: usize = 0;
        assert(all.skip(0) =~= all);
        while i < self.tcp_conns.len()
            invariant
                i <= self.tcp_conns.len(),
                net.wf(),
                all == self.conns(),
                first_into(all, *net) == first_into(all.skip(i as int), *net),
            decreases self.tcp_conns.len() - i,
        {
            let c = self.tcp_conns[i];
            assert(all.skip(i as int)[0] == c);
            if net.contains(c.dst_ip) {
                return Some((c.dst_ip, c.dst_port));
            }
            assert(all.skip(i as int).skip(1) =~= all.skip(i + 1));
            i += 1;
        }
        let n = self.tcp_conns.len();
        let mut j: usize = 0;
        while j < self.udp_conns.len()
            invariant
                j <= self.udp_conns.len(),
                n == self.tcp_conns.len(),
                net.wf(),
                all == self.conns(),
                first_into(all, *net) == first_into(all.skip(n + j), *net),
            decreases self.udp_conns.len() - j,
        {
            let c = self.udp_conns[j];
            assert(all.skip(n + j)[0] == c);
            if net.contains(c.dst_ip) {
                return Some((c.dst_ip, c.dst_port));
            }
            assert(all.skip(n + j).skip(1) =~= all.skip(n + j + 1));
            j += 1;
        }
        assert(all.skip(all.len() as int).len() == 0);
        None
    }

    /// The remote endpoint, address as text, of the first connection that
    /// leads into the network that `net_str` denotes in CIDR notation.
    pub fn contains_dst(&self, net_str: &str) -> (r: Option<(String, u16)>)
        requires
            network_of(net_str@) is Some,
        ensures
            found_view(r) == endpoint_text(self.dst_in(network_of(net_str@)->0)),
    {
        match Network::parse(net_str) {
            Some(net) => match self.first_dst_in(&net) {
                Some((ip, port)) => Some((ip.to_string(), port)),
                None => None,
            },
            None => None,
        }
    }

    /// `contains_dst` for any text: `None` where the text denotes no
    /// network, else what `contains_dst` finds.
    pub fn find_dst(&self, net_str: &str) -> (r: Option<Option<(String, u16)>>)
        ensures
            r is Some <==> network_of(net_str@) is Some,
            r matches Some(found) ==> found_view(found) == endpoint_text(
                self.dst_in(network_of(net_str@)->0),
            ),
    {
        match Network::parse(net_str) {
            Some(_) => Some(self.contains_dst(net_str)),
            None => None,
        }
    }
}

} // verus!
