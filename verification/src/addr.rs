//! IPv4 addresses and network prefixes as plain values: their dotted-quad
//! text, the classes of address that never need the tunnel, and the test
//! whether a prefix covers an address.

use crate::text::{
    char_views, lemma_split_append, lemma_split_whole, split, split_chars, to_chars,
};
use vstd::prelude::*;

verus! {

/// An IPv4 address, one field per octet, most significant first.
#[derive(Clone, Copy, Debug, PartialEq, Eq, Structural, Hash)]
pub struct Ipv4 {
    pub a: u8,
    pub b: u8,
    pub c: u8,
    pub d: u8,
}

/// An address together with the number of leading bits that name the network.
/// The address is kept as given: bits behind the prefix need not be zero.
#[derive(Clone, Copy, Debug, PartialEq, Eq, Structural, Hash)]
pub struct Network {
    pub addr: Ipv4,
    pub prefix: u8,
}

/// `c` is one of the ten ASCII digits.
pub open spec fn is_digit(c: char) -> bool {
    '0' <= c <= '9'
}

/// The number that the digit `c` stands for.
pub open spec fn digit_value(c: char) -> int {
    c as int - 48
}

/// The character for the digit `d`, meaningful for `0 <= d < 10`.
pub open spec fn digit_char(d: int) -> char {
    ((48 + d) as u8) as char
}

/// The value of `s` read as a decimal number, most significant digit first.
pub open spec fn decimal_value(s: Seq<char>) -> int
    decreases s.len(),
{
    if s.len() == 0 {
        0
    } else {
        10 * decimal_value(s.drop_last()) + digit_value(s.last())
    }
}

/// The decimal digits of `n` without leading zeros; `"0"` for zero.
pub open spec fn decimal_text(n: nat) -> Seq<char>
    decreases n,
{
    if n < 10 {
        seq![digit_char(n as int)]
    } else {
        decimal_text(n / 10).push(digit_char((n % 10) as int))
    }
}

/// The octet that `s` denotes: one to three digits, no leading zero in
/// front of another digit, and a value of at most 255.
pub open spec fn octet_of(s: Seq<char>) -> Option<u8> {
    if 1 <= s.len() <= 3 && (forall|i: int| 0 <= i < s.len() ==> is_digit(#[trigger] s[i])) && (
    s.len() > 1 ==> s[0] != '0') && decimal_value(s) <= 255 {
        Some(decimal_value(s) as u8)
    } else {
        None
    }
}

/// The address that the text `s` denotes: exactly four octets separated by
/// dots, and nothing else. Anything else denotes no address.
pub open spec fn ipv4_of(s: Seq<char>) -> Option<Ipv4> {
    let p = split(s, '.');
    if p.len() == 4 && octet_of(p[0]) is Some && octet_of(p[1]) is Some && octet_of(p[2]) is Some
        && octet_of(p[3]) is Some {
        Some(
            Ipv4 {
                a: octet_of(p[0])->0,
                b: octet_of(p[1])->0,
                c: octet_of(p[2])->0,
                d: octet_of(p[3])->0,
            },
        )
    } else {
        None
    }
}

/// The bit mask of a prefix length: of 32 bits, the `prefix` most
/// significant ones set.
pub open spec fn prefix_mask(prefix: u8) -> u32 {
    !((0xffff_ffffu64 >> (prefix as u64)) as u32)
}

/// What `ipnetwork` reads from a text in CIDR notation: the address as one
/// number, first octet most significant, and the prefix length. `None`
/// where it reads no network. A text without a slash is an address with
/// prefix length 32; behind the slash may stand a length or a netmask.
pub uninterp spec fn parsed_network(s: Seq<char>) -> Option<(u32, u8)>;

/// The network that a text in CIDR notation denotes.
pub open spec fn network_of(s: Seq<char>) -> Option<Network> {
    match parsed_network(s) {
        Some((bits, prefix)) => Some(Network { addr: Ipv4::of_bits(bits), prefix }),
        None => None,
    }
}

impl Ipv4 {
    /// The address as one number, first octet most significant.
    pub open spec fn bits(self) -> u32 {
        (self.a * 16777216 + self.b * 65536 + self.c * 256 + self.d) as u32
    }

    /// The address of a number, first octet most significant.
    pub open spec fn of_bits(bits: u32) -> Ipv4 {
        Ipv4 {
            a: (bits / 16777216) as u8,
            b: (bits / 65536 % 256) as u8,
            c: (bits / 256 % 256) as u8,
            d: (bits % 256) as u8,
        }
    }

    /// Dotted-quad text: the four octets in decimal, separated by dots.
    pub open spec fn text(self) -> Seq<char> {
        decimal_text(self.a as nat) + seq!['.'] + decimal_text(self.b as nat) + seq!['.']
            + decimal_text(self.c as nat) + seq!['.'] + decimal_text(self.d as nat)
    }

    /// 127.0.0.0/8.
    pub open spec fn loopback(self) -> bool {
        self.a == 127
    }

    /// 255.255.255.255.
    pub open spec fn broadcast(self) -> bool {
        self.a == 255 && self.b == 255 && self.c == 255 && self.d == 255
    }

    /// 10.0.0.0/8, 172.16.0.0/12 or 192.168.0.0/16.
    pub open spec fn private(self) -> bool {
        self.a == 10 || (self.a == 172 && 16 <= self.b <= 31) || (self.a == 192 && self.b == 168)
    }

    /// Traffic to this address stays on the local machine or network, so
    /// it never becomes a route.
    pub open spec fn local(self) -> bool {
        self.loopback() || self.broadcast() || self.private()
    }

    /// The address `a.b.c.d`.
    pub fn new(a: u8, b: u8, c: u8, d: u8) -> (ip: Ipv4)
        ensures
            ip == (Ipv4 { a, b, c, d }),
    {
        Ipv4 { a, b, c, d }
    }

    /// The address as one number, first octet most significant.
    pub fn to_bits(self) -> (r: u32)
        ensures
            r == self.bits(),
    {
        (self.a as u32) * 16777216 + (self.b as u32) * 65536 + (self.c as u32) * 256 + (
        self.d as u32)
    }

    /// The address of a number, first octet most significant.
    pub fn from_bits(bits: u32) -> (ip: Ipv4)
        ensures
            ip == Ipv4::of_bits(bits),
            ip.bits() == bits,
    {
        Ipv4 {
            a: (bits / 16777216) as u8,
            b: (bits / 65536 % 256) as u8,
            c: (bits / 256 % 256) as u8,
            d: (bits % 256) as u8,
        }
    }

    /// Whether the address is in 127.0.0.0/8.
    pub fn is_loopback(self) -> (r: bool)
        ensures
            r == self.loopback(),
    {
        self.a == 127
    }

    /// Whether the address is 255.255.255.255.
    pub fn is_broadcast(self) -> (r: bool)
        ensures
            r == self.broadcast(),
    {
        self.a == 255 && self.b == 255 && self.c == 255 && self.d == 255
    }

    /// Whether the address is in 10.0.0.0/8, 172.16.0.0/12 or 192.168.0.0/16.
    pub fn is_private(self) -> (r: bool)
        ensures
            r == self.private(),
    {
        self.a == 10 || (self.a == 172 && 16 <= self.b && self.b <= 31) || (self.a == 192
            && self.b == 168)
    }

    /// Whether the address is loopback, broadcast or private.
    pub fn is_local(self) -> (r: bool)
        ensures
            r == self.local(),
    {
        self.is_loopback() || self.is_broadcast() || self.is_private()
    }

    /// Reads an address from its dotted-quad text.
    pub fn parse(s: &str) -> (r: Option<Ipv4>)
        ensures
            r == ipv4_of(s@),
    {
        let chars = to_chars(s);
        let pieces = split_chars(&chars, '.');
        assert(char_views(pieces@).len() == pieces@.len());
        if pieces.len() != 4 {
            return None;
        }
        assert(char_views(pieces@)[0] == pieces@[0]@);
        assert(char_views(pieces@)[1] == pieces@[1]@);
        assert(char_views(pieces@)[2] == pieces@[2]@);
        assert(char_views(pieces@)[3] == pieces@[3]@);
        let a = parse_octet(&pieces[0]);
        let b = parse_octet(&pieces[1]);
        let c = parse_octet(&pieces[2]);
        let d = parse_octet(&pieces[3]);
        match (a, b, c, d) {
            (Some(a), Some(b), Some(c), Some(d)) => Some(Ipv4 { a, b, c, d }),
            _ => None,
        }
    }

    /// Appends the dotted-quad text of the address to `out`.
    pub fn write(self, out: &mut String)
        ensures
            final(out)@ == old(out)@ + self.text(),
    {
        let ghost start = out@;
        write_decimal(out, self.a as u32);
        out.push('.');
        write_decimal(out, self.b as u32);
        out.push('.');
        write_decimal(out, self.c as u32);
        out.push('.');
        write_decimal(out, self.d as u32);
        assert(out@ =~= start + self.text());
    }

    /// The dotted-quad text of the address.
    pub fn to_string(self) -> (s: String)
        ensures
            s@ == self.text(),
    {
        let mut s = String::new();
        self.write(&mut s);
        assert(Seq::<char>::empty() + self.text() =~= self.text());
        s
    }
}

impl Network {
    /// A prefix length of an IPv4 network is at most 32.
    pub open spec fn wf(self) -> bool {
        self.prefix <= 32
    }

    /// `ip` lies in the network: it agrees with the network's address on
    /// every bit of the prefix.
    pub open spec fn covers(self, ip: Ipv4) -> bool {
        (ip.bits() & prefix_mask(self.prefix)) == (self.addr.bits() & prefix_mask(self.prefix))
    }

    /// The address, a slash, and the prefix length in decimal.
    pub open spec fn text(self) -> Seq<char> {
        self.addr.text() + seq!['/'] + decimal_text(self.prefix as nat)
    }

    /// The /16 network of an address: its first two octets, then zeros.
    pub open spec fn slash16(ip: Ipv4) -> Network {
        Network { addr: Ipv4 { a: ip.a, b: ip.b, c: 0, d: 0 }, prefix: 16 }
    }

    /// A network from an address and a prefix length, if the length is one.
    pub fn new(addr: Ipv4, prefix: u8) -> (r: Option<Network>)
        ensures
            r == if prefix <= 32 {
                Some(Network { addr, prefix })
            } else {
                None
            },
    {
        if prefix <= 32 {
            Some(Network { addr, prefix })
        } else {
            None
        }
    }

    /// Reads a network from CIDR notation, such as `10.0.0.0/16`.
    pub fn parse(s: &str) -> (r: Option<Network>)
        ensures
            r == network_of(s@),
            r matches Some(net) ==> net.wf(),
    {
        match parse_network(s) {
            Ok((bits, prefix)) => Some(Network { addr: Ipv4::from_bits(bits), prefix }),
            Err(_) => None,
        }
    }

    /// The /16 network that `ip` falls into.
    pub fn of(ip: Ipv4) -> (net: Network)
        ensures
            net == Network::slash16(ip),
            net.wf(),
    {
        Network { addr: Ipv4 { a: ip.a, b: ip.b, c: 0, d: 0 }, prefix: 16 }
    }

    /// Whether `ip` lies in the network.
    pub fn contains(&self, ip: Ipv4) -> (r: bool)
        requires
            self.wf(),
        ensures
            r == self.covers(ip),
    {
        network_contains(self.addr.to_bits(), self.prefix, ip.to_bits())
    }

    /// Appends the text of the network to `out`.
    pub fn write(&self, out: &mut String)
        ensures
            final(out)@ == old(out)@ + self.text(),
    {
        let ghost start = out@;
        self.addr.write(out);
        out.push('/');
        write_decimal(out, self.prefix as u32);
        assert(out@ =~= start + self.text());
    }

    /// The text of the network, such as `10.0.0.0/16`.
    pub fn to_string(&self) -> (s: String)
        ensures
            s@ == self.text(),
    {
        let mut s = String::new();
        self.write(&mut s);
        assert(Seq::<char>::empty() + self.text() =~= self.text());
        s
    }
}

/// The error of `ipnetwork`, carried from the parser to where it is dropped.
#[verifier::external_type_specification]
#[verifier::external_body]
pub struct ExIpNetworkError(ipnetwork::IpNetworkError);

/// `ipnetwork::Ipv4Network::from_str`, with the network handed out as its
/// address and prefix length. The contract gives the result its name, and
/// adds that the crate makes no network with a prefix length above 32.
#[verifier::external_body]
fn parse_network(s: &str) -> (r: Result<(u32, u8), ipnetwork::IpNetworkError>)
    ensures
        match r {
            Ok(net) => parsed_network(s@) == Some(net) && net.1 <= 32,
            Err(_) => parsed_network(s@) is None,
        },
{
    let net = s.parse::<ipnetwork::Ipv4Network>()?;
    Ok((net.ip().into(), net.prefix()))
}

/// `ipnetwork::Ipv4Network::contains`, on the network that
/// `Ipv4Network::new` makes of `addr` and `prefix`. The crate masks both
/// the network's address and `ip` with the prefix mask and compares. It
/// takes the mask as the low 32 bits of the complement of
/// `0xffff_ffff_u64 >> prefix`, which is the complement of the low 32 bits
/// that `prefix_mask` writes. `new` refuses a prefix above 32, which
/// `requires` leaves out.
#[verifier::external_body]
fn network_contains(addr: u32, prefix: u8, ip: u32) -> (r: bool)
    requires
        prefix <= 32,
    ensures
        r == ((ip & prefix_mask(prefix)) == (addr & prefix_mask(prefix))),
{
    ipnetwork::Ipv4Network::new(addr.into(), prefix).unwrap().contains(ip.into())
}

/// Reads one octet of a dotted quad.
pub fn parse_octet(s: &Vec<char>) -> (r: Option<u8>)
    ensures
        r == octet_of(s@),
{
    let n = s.len();
    if n < 1 || n > 3 {
        return None;
    }
    if n > 1 && s[0] == '0' {
        return None;
    }
    let mut value: u32 = 0;
    let mut i: usize = 0;
    while i < n
        invariant
            i <= n == s.len(),
            n <= 3,
            forall|j: int| 0 <= j < i ==> is_digit(#[trigger] s@[j]),
            value == decimal_value(s@.take(i as int)),
            value <= 999,
        decreases n - i,
    {
        let c = s[i];
        if !(c >= '0' && c <= '9') {
            return None;
        }
        proof {
            assert(s@.take(i + 1).drop_last() =~= s@.take(i as int));
            assert(s@.take(i + 1).last() == c);
            lemma_decimal_bound(s@.take(i + 1));
        }
        value = value * 10 + (c as u32 - 48);
        i += 1;
    }
    proof {
        assert(s@.take(n as int) =~= s@);
    }
    if value <= 255 {
        Some(value as u8)
    } else {
        None
    }
}

/// A number of `k` digits is below `10^k`; stated for the lengths that an
/// octet can have.
pub proof fn lemma_decimal_bound(s: Seq<char>)
    requires
        forall|i: int| 0 <= i < s.len() ==> is_digit(#[trigger] s[i]),
    ensures
        0 <= decimal_value(s),
        s.len() <= 1 ==> decimal_value(s) <= 9,
        s.len() <= 2 ==> decimal_value(s) <= 99,
        s.len() <= 3 ==> decimal_value(s) <= 999,
    decreases s.len(),
{
    if s.len() > 0 {
        assert(is_digit(s[s.len() - 1]));
        lemma_decimal_bound(s.drop_last());
    }
}

/// The decimal text of an octet is read back as that octet, and holds
/// nothing but digits.
pub proof fn lemma_octet_text(n: u8)
    ensures
        octet_of(decimal_text(n as nat)) == Some(n),
        !decimal_text(n as nat).contains('.'),
        n == 0 ==> decimal_text(n as nat) == seq!['0'],
{
    reveal_with_fuel(decimal_text, 3);
    reveal_with_fuel(decimal_value, 4);
    let t = decimal_text(n as nat);
    let d0 = digit_char((n % 10) as int);
    let d1 = digit_char((n / 10 % 10) as int);
    let d2 = digit_char((n / 100) as int);
    if n < 10 {
        assert(t =~= seq![d0]);
        assert(t.drop_last() =~= Seq::<char>::empty());
    } else if n < 100 {
        assert(t =~= seq![d1, d0]);
        assert(t.drop_last() =~= seq![d1]);
        assert(t.drop_last().drop_last() =~= Seq::<char>::empty());
    } else {
        assert(t =~= seq![d2, d1, d0]);
        assert(t.drop_last() =~= seq![d2, d1]);
        assert(t.drop_last().drop_last() =~= seq![d2]);
        assert(t.drop_last().drop_last().drop_last() =~= Seq::<char>::empty());
    }
    assert(is_digit(d0) && is_digit(d1) && is_digit(d2));
    assert forall|i: int| 0 <= i < t.len() implies is_digit(#[trigger] t[i]) by {}
    assert(!t.contains('.')) by {
        if t.contains('.') {
            let i = choose|i: int| 0 <= i < t.len() && t[i] == '.';
            assert(is_digit(t[i]));
        }
    }
}

/// The text of an address has four fields: the decimal texts of its octets.
pub proof fn lemma_text_fields(ip: Ipv4)
    ensures
        split(ip.text(), '.') == seq![
            decimal_text(ip.a as nat),
            decimal_text(ip.b as nat),
            decimal_text(ip.c as nat),
            decimal_text(ip.d as nat),
        ],
{
    let a = decimal_text(ip.a as nat);
    let b = decimal_text(ip.b as nat);
    let c = decimal_text(ip.c as nat);
    let d = decimal_text(ip.d as nat);
    lemma_octet_text(ip.a);
    lemma_octet_text(ip.b);
    lemma_octet_text(ip.c);
    lemma_octet_text(ip.d);
    lemma_split_whole(a, '.');
    lemma_split_append(a, '.', b);
    lemma_split_append(a + seq!['.'] + b, '.', c);
    lemma_split_append(a + seq!['.'] + b + seq!['.'] + c, '.', d);
    assert(seq![a].push(b).push(c).push(d) =~= seq![a, b, c, d]);
}

/// Reading the text of an address gives the address back.
pub proof fn lemma_parse_text(ip: Ipv4)
    ensures
        ipv4_of(ip.text()) == Some(ip),
{
    lemma_text_fields(ip);
    lemma_octet_text(ip.a);
    lemma_octet_text(ip.b);
    lemma_octet_text(ip.c);
    lemma_octet_text(ip.d);
}

/// Appends the decimal digits of `n` to `out`.
pub fn write_decimal(out: &mut String, n: u32)
    ensures
        final(out)@ == old(out)@ + decimal_text(n as nat),
    decreases n,
{
    let ghost start = out@;
    if n >= 10 {
        write_decimal(out, n / 10);
    }
    let d: u8 = (n % 10) as u8;
    out.push((48 + d) as char);
    proof {
        if n >= 10 {
            assert(out@ =~= start + decimal_text(n as nat));
        } else {
            assert(out@ =~= start + decimal_text(n as nat));
        }
    }
}

} // verus!
