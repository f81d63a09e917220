//! From resolved addresses to the tunnel's route list: one /16 network per
//! address, without the networks that a live connection leads into.

use crate::addr::{decimal_text, lemma_text_fields, Ipv4, Network};
use crate::host::{clear_of, first_into, lemma_first_into, Conn, Host};
use crate::resolve::resolved_views;
use crate::text::{char_views, join, split, split_chars, to_chars};
use crate::unique::{distinct, holds_net, lemma_distinct};
use vstd::prelude::*;

verus! {

/// A network that was dropped, and the remote endpoint of the first
/// connection that leads into it.
#[derive(Clone, Copy, Debug, PartialEq, Eq, Structural)]
pub struct Conflict {
    pub network: Network,
    pub addr: Ipv4,
    pub port: u16,
}

/// The result of route generation.
#[derive(Debug, PartialEq, Eq)]
pub struct Routes {
    /// The networks to route through the tunnel, each once.
    pub networks: Vec<Network>,
    /// The networks that were dropped, in the order in which they arose.
    pub conflicts: Vec<Conflict>,
    /// The configuration line that lists `networks`.
    pub line: String,
}

/// The addresses of all hostnames, in order.
pub open spec fn all_addresses(resolved: Seq<(Seq<char>, Seq<Ipv4>)>) -> Seq<Ipv4>
    decreases resolved.len(),
{
    if resolved.len() == 0 {
        Seq::<Ipv4>::empty()
    } else {
        all_addresses(resolved.drop_last()) + resolved.last().1
    }
}

/// The /16 network of each address, each network once.
pub open spec fn networks_of(ips: Seq<Ipv4>) -> Seq<Network> {
    distinct(ips.map_values(|ip: Ipv4| Network::slash16(ip)))
}

/// The networks that no connection leads into, in their order.
pub open spec fn clear_networks(nets: Seq<Network>, conns: Seq<Conn>) -> Seq<Network> {
    nets.filter(|n: Network| clear_of(conns, n))
}

/// For each network that a connection leads into, the first such
/// connection's remote endpoint.
pub open spec fn conflicts_of(nets: Seq<Network>, conns: Seq<Conn>) -> Seq<Conflict>
    decreases nets.len(),
{
    if nets.len() == 0 {
        Seq::<Conflict>::empty()
    } else {
        let before = conflicts_of(nets.drop_last(), conns);
        match first_into(conns, nets.last()) {
            Some(c) => before.push(
                Conflict { network: nets.last(), addr: c.dst_ip, port: c.dst_port },
            ),
            None => before,
        }
    }
}

/// The text of each network.
pub open spec fn network_texts(nets: Seq<Network>) -> Seq<Seq<char>> {
    nets.map_values(|n: Network| n.text())
}

/// The configuration line for a list of networks: `AllowedIPs = `, then the
/// networks, separated by a comma and a space.
pub open spec fn route_line_of(nets: Seq<Network>) -> Seq<char> {
    "AllowedIPs = "@ + join(network_texts(nets), ", "@)
}

/// The /16 network of an address in dotted-quad text, as text: the text up
/// to its last two fields, with `0.0` in their place and `/16` behind.
/// The text is not checked to be an address.
pub open spec fn net_text_of(ip: Seq<char>) -> Seq<char> {
    let fields = split(ip, '.');
    let kept = if fields.len() >= 2 {
        fields.take(fields.len() - 2)
    } else {
        Seq::<Seq<char>>::empty()
    };
    join(kept.push(seq!['0']).push(seq!['0']), seq!['.']) + seq!['/', '1', '6']
}

/// The /16 network of an address covers exactly the addresses that share
/// its first two octets: the addresses with the same /16 network.
pub proof fn lemma_slash16_covers(ip: Ipv4, other: Ipv4)
    ensures
        Network::slash16(ip).covers(other) <==> Network::slash16(other) == Network::slash16(ip),
        Network::slash16(ip).covers(ip),
{
    let x = Network::slash16(ip).addr.bits();
    let y = other.bits();
    let z = ip.bits();
    assert(!((0xffff_ffffu64 >> 16u64) as u32) == 0xffff_0000u32) by (bit_vector);
    assert(((y & 0xffff_0000u32) == (x & 0xffff_0000u32)) <==> (y / 65536 == x / 65536))
        by (bit_vector);
    assert(((z & 0xffff_0000u32) == (x & 0xffff_0000u32)) <==> (z / 65536 == x / 65536))
        by (bit_vector);
    assert(x / 65536 == ip.a * 256 + ip.b);
    assert(y / 65536 == other.a * 256 + other.b);
    assert(z / 65536 == ip.a * 256 + ip.b);
}

/// On the text of an address, `net_text_of` gives the text of the
/// address's /16 network.
pub proof fn lemma_net_text(ip: Ipv4)
    ensures
        net_text_of(ip.text()) == Network::slash16(ip).text(),
{
    let a = decimal_text(ip.a as nat);
    let b = decimal_text(ip.b as nat);
    let zero = seq!['0'];
    let dot = seq!['.'];
    lemma_text_fields(ip);
    let fields = split(ip.text(), '.');
    let kept = fields.take(2);
    assert(kept =~= seq![a, b]);
    let one = kept.push(zero);
    let two = one.push(zero);
    assert(kept.drop_last() =~= seq![a]);
    assert(one.drop_last() =~= kept);
    assert(two.drop_last() =~= one);
    assert(join(seq![a], dot) == a);
    assert(join(kept, dot) == a + dot + b);
    assert(join(one, dot) == a + dot + b + dot + zero);
    assert(join(two, dot) == a + dot + b + dot + zero + dot + zero);
    reveal_with_fuel(decimal_text, 2);
    assert(decimal_text(0) =~= zero);
    assert(decimal_text(16) =~= seq!['1', '6']);
    assert(net_text_of(ip.text()) =~= Network::slash16(ip).text());
}

/// Filtering twice is filtering once: in what the filter keeps, the same
/// connections find nothing more to drop.
pub proof fn lemma_filter_idempotent(nets: Seq<Network>, conns: Seq<Conn>)
    ensures
        clear_networks(clear_networks(nets, conns), conns) == clear_networks(nets, conns),
        conflicts_of(clear_networks(nets, conns), conns) == Seq::<Conflict>::empty(),
    decreases nets.len(),
{
    reveal(Seq::filter);
    let keep = |n: Network| clear_of(conns, n);
    if nets.len() > 0 {
        let before = nets.drop_last();
        lemma_filter_idempotent(before, conns);
        if keep(nets.last()) {
            let kept = before.filter(keep).push(nets.last());
            assert(kept.drop_last() =~= before.filter(keep));
            lemma_first_into(conns, nets.last());
        }
    }
}

/// The filter keeps a network exactly if it was offered and no connection
/// leads into it, whatever the order of networks and connections.
pub proof fn lemma_filter_members(nets: Seq<Network>, conns: Seq<Conn>)
    ensures
        forall|n: Network|
            clear_networks(nets, conns).contains(n) <==> nets.contains(n) && clear_of(conns, n),
        forall|i: int, j: int|
            0 <= i < clear_networks(nets, conns).len() && 0 <= j < conns.len()
                ==> !clear_networks(nets, conns)[i].covers(conns[j].dst_ip),
        nets.no_duplicates() ==> clear_networks(nets, conns).no_duplicates(),
    decreases nets.len(),
{
    reveal(Seq::filter);
    let keep = |n: Network| clear_of(conns, n);
    let kept = clear_networks(nets, conns);
    if nets.len() > 0 {
        let before = nets.drop_last();
        let last = nets.last();
        lemma_filter_members(before, conns);
        let kept_before = clear_networks(before, conns);
        assert forall|n: Network| kept.contains(n) <==> nets.contains(n) && clear_of(
            conns,
            n,
        ) by {
            assert(kept_before.contains(n) <==> before.contains(n) && clear_of(conns, n));
            if kept.contains(n) {
                let i = choose|i: int| 0 <= i < kept.len() && kept[i] == n;
                if i < kept_before.len() {
                    assert(kept_before[i] == n);
                    assert(kept_before.contains(n));
                    let j = choose|j: int| 0 <= j < before.len() && before[j] == n;
                    assert(nets[j] == n);
                } else {
                    assert(n == last);
                    assert(nets[nets.len() - 1] == n);
                }
            }
            if nets.contains(n) && clear_of(conns, n) {
                let j = choose|j: int| 0 <= j < nets.len() && nets[j] == n;
                if j < before.len() {
                    assert(before[j] == n);
                    assert(before.contains(n));
                    let i = choose|i: int| 0 <= i < kept_before.len() && kept_before[i] == n;
                    assert(kept[i] == n);
                } else {
                    assert(kept[kept.len() - 1] == n);
                }
            }
        }
        if nets.no_duplicates() {
            assert(before.no_duplicates());
            if keep(last) && kept_before.contains(last) {
                let j = choose|j: int| 0 <= j < before.len() && before[j] == last;
                assert(nets[j] == nets[nets.len() - 1]);
            }
        }
    }
}

/// Every address lies in one of the networks made from a list that holds it.
pub proof fn lemma_networks_cover(ips: Seq<Ipv4>, ip: Ipv4)
    requires
        ips.contains(ip),
    ensures
        networks_of(ips).contains(Network::slash16(ip)),
        Network::slash16(ip).covers(ip),
        networks_of(ips).no_duplicates(),
{
    let nets = ips.map_values(|ip: Ipv4| Network::slash16(ip));
    let i = choose|i: int| 0 <= i < ips.len() && ips[i] == ip;
    assert(nets[i] == Network::slash16(ip));
    assert(nets.contains(Network::slash16(ip)));
    lemma_distinct(nets);
    lemma_slash16_covers(ip, ip);
}

/// The /16 networks of all addresses of the resolved hostnames, each once.
pub fn aggregate(resolved: &Vec<(String, Vec<Ipv4>)>) -> (nets: Vec<Network>)
    ensures
        nets@ == networks_of(all_addresses(resolved_views(resolved@))),
        forall|i: int| 0 <= i < nets@.len() ==> (#[trigger] nets@[i]).wf(),
        forall|i: int| 0 <= i < nets@.len() ==> (#[trigger] nets@[i]).prefix == 16,
{
    let ghost all = resolved_views(resolved@);
    let ghost to_net = |ip: Ipv4| Network::slash16(ip);
    let mut nets: Vec<Network> = Vec::new();
    let mut i: usize = 0;
    assert(all_addresses(all.take(0)).map_values(to_net) =~= Seq::<Network>::empty());
    while i < resolved.len()
        invariant
            i <= resolved.len(),
            all == resolved_views(resolved@),
            to_net == |ip: Ipv4| Network::slash16(ip),
            nets@ == distinct(all_addresses(all.take(i as int)).map_values(to_net)),
            forall|k: int| 0 <= k < nets@.len() ==> (#[trigger] nets@[k]).prefix == 16,
        decreases resolved.len() - i,
    {
        let ips = &resolved[i].1;
        let ghost done = all_addresses(all.take(i as int));
        proof {
            assert(all.take(i + 1).drop_last() =~= all.take(i as int));
            assert(all.take(i + 1).last().1 == ips@);
            assert(done + ips@.take(0) =~= done);
        }
        let mut j: usize = 0;
        while j < ips.len()
            invariant
                j <= ips.len(),
                to_net == |ip: Ipv4| Network::slash16(ip),
                nets@ == distinct((done + ips@.take(j as int)).map_values(to_net)),
                forall|k: int| 0 <= k < nets@.len() ==> (#[trigger] nets@[k]).prefix == 16,
            decreases ips.len() - j,
        {
            let net = Network::of(ips[j]);
            proof {
                let now = (done + ips@.take(j as int)).map_values(to_net);
                let next = (done + ips@.take(j + 1)).map_values(to_net);
                assert(next.drop_last() =~= now);
                assert(next.last() == net);
            }
            if !holds_net(&nets, net) {
                nets.push(net);
            }
            j += 1;
        }
        proof {
            assert(ips@.take(ips@.len() as int) =~= ips@);
        }
        i += 1;
    }
    assert(all.take(resolved@.len() as int) =~= all);
    nets
}

/// Drops the networks that a connection of `host` leads into.
///
/// No connection's remote address lies in a network that is kept. For each
/// network that is dropped, `conflicts` names the connection's endpoint.
pub fn filter_networks(nets: &Vec<Network>, host: &Host) -> (r: (Vec<Network>, Vec<Conflict>))
    requires
        forall|i: int| 0 <= i < nets@.len() ==> (#[trigger] nets@[i]).wf(),
    ensures
        r.0@ == clear_networks(nets@, host.conns()),
        r.1@ == conflicts_of(nets@, host.conns()),
        forall|i: int, j: int|
            0 <= i < r.0@.len() && 0 <= j < host.conns().len() ==> !r.0@[i].covers(
                host.conns()[j].dst_ip,
            ),
        nets@.no_duplicates() ==> r.0@.no_duplicates(),
{
    let ghost conns = host.conns();
    let ghost keep = |n: Network| clear_of(conns, n);
    let mut kept: Vec<Network> = Vec::new();
    let mut conflicts: Vec<Conflict> = Vec::new();
    let mut i: usize = 0;
    proof {
        reveal(Seq::filter);
        assert(nets@.take(0) =~= Seq::<Network>::empty());
    }
    while i < nets.len()
        invariant
            i <= nets.len(),
            conns == host.conns(),
            keep == |n: Network| clear_of(conns, n),
            forall|k: int| 0 <= k < nets@.len() ==> (#[trigger] nets@[k]).wf(),
            kept@ == nets@.take(i as int).filter(keep),
            conflicts@ == conflicts_of(nets@.take(i as int), conns),
        decreases nets.len() - i,
    {
        let net = nets[i];
        proof {
            reveal(Seq::filter);
            assert(nets@.take(i + 1).drop_last() =~= nets@.take(i as int));
            assert(nets@.take(i + 1).last() == net);
            lemma_first_into(conns, net);
        }
        match host.first_dst_in(&net) {
            None => {
                kept.push(net);
            },
            Some((addr, port)) => {
                conflicts.push(Conflict { network: net, addr, port });
            },
        }
        i += 1;
    }
    proof {
        assert(nets@.take(nets@.len() as int) =~= nets@);
        lemma_filter_members(nets@, conns);
    }
    (kept, conflicts)
}

/// The configuration line that lists `nets`.
pub fn route_line(nets: &Vec<Network>) -> (line: String)
    ensures
        line@ == route_line_of(nets@),
{
    let ghost texts = network_texts(nets@);
    let mut line = String::from_str("AllowedIPs = ");
    let mut i: usize = 0;
    assert(line@ =~= "AllowedIPs = "@ + join(texts.take(0), ", "@));
    while i < nets.len()
        invariant
            i <= nets.len(),
            texts == network_texts(nets@),
            line@ == "AllowedIPs = "@ + join(texts.take(i as int), ", "@),
        decreases nets.len() - i,
    {
        let ghost start = line@;
        let ghost so_far = join(texts.take(i as int), ", "@);
        proof {
            assert(texts.take(i + 1).drop_last() =~= texts.take(i as int));
            assert(texts.take(i + 1).last() == nets@[i as int].text());
        }
        if i > 0 {
            line.append(", ");
        }
        nets[i].write(&mut line);
        proof {
            if i > 0 {
                assert(line@ =~= "AllowedIPs = "@ + (so_far + ", "@ + nets@[i as int].text()));
            } else {
                assert(so_far =~= Seq::<char>::empty());
                assert(line@ =~= "AllowedIPs = "@ + nets@[i as int].text());
            }
        }
        i += 1;
    }
    assert(texts.take(nets@.len() as int) =~= texts);
    line
}

/// The route list for the addresses that a batch of hostnames resolved to,
/// on a machine with the connections of `host`.
pub fn gen_wg_routes(resolved: &Vec<(String, Vec<Ipv4>)>, host: &Host) -> (routes: Routes)
    ensures
        routes.networks@ == clear_networks(
            networks_of(all_addresses(resolved_views(resolved@))),
            host.conns(),
        ),
        routes.conflicts@ == conflicts_of(
            networks_of(all_addresses(resolved_views(resolved@))),
            host.conns(),
        ),
        routes.line@ == route_line_of(routes.networks@),
        routes.networks@.no_duplicates(),
        forall|i: int, j: int|
            0 <= i < routes.networks@.len() && 0 <= j < host.conns().len()
                ==> !routes.networks@[i].covers(host.conns()[j].dst_ip),
{
    let nets = aggregate(resolved);
    proof {
        lemma_distinct(
            all_addresses(resolved_views(resolved@)).map_values(|ip: Ipv4| Network::slash16(ip)),
        );
    }
    let (networks, conflicts) = filter_networks(&nets, host);
    let line = route_line(&networks);
    Routes { networks, conflicts, line }
}

/// The /16 network of an address, text to text.
pub fn net_from_ip(ip: &str) -> (net: String)
    ensures
        net@ == net_text_of(ip@),
{
    let chars = to_chars(ip);
    let fields = split_chars(&chars, '.');
    let ghost all = split(ip@, '.');
    assert(all.len() == fields@.len());
    let keep: usize = if fields.len() >= 2 {
        fields.len() - 2
    } else {
        0
    };
    let ghost kept = all.take(keep as int);
    assert(kept =~= if all.len() >= 2 {
        all.take(all.len() - 2)
    } else {
        Seq::<Seq<char>>::empty()
    });
    let mut net = String::new();
    let mut i: usize = 0;
    assert(net@ =~= join(kept.take(0), seq!['.']));
    while i < keep
        invariant
            i <= keep <= fields.len(),
            all == char_views(fields@),
            kept == all.take(keep as int),
            net@ == join(kept.take(i as int), seq!['.']),
        decreases keep - i,
    {
        let ghost so_far = net@;
        let field = &fields[i];
        proof {
            assert(kept.take(i + 1).drop_last() =~= kept.take(i as int));
            assert(kept.take(i + 1).last() == field@);
        }
        if i > 0 {
            net.push('.');
        }
        let ghost dotted = net@;
        let mut k: usize = 0;
        while k < field.len()
            invariant
                k <= field.len(),
                net@ == dotted + field@.take(k as int),
            decreases field.len() - k,
        {
            net.push(field[k]);
            assert(field@.take(k + 1) =~= field@.take(k as int).push(field@[k as int]));
            k += 1;
        }
        proof {
            assert(field@.take(field@.len() as int) =~= field@);
            if i > 0 {
                assert(net@ =~= so_far + seq!['.'] + field@);
            } else {
                assert(so_far =~= Seq::<char>::empty());
                assert(net@ =~= field@);
            }
        }
        i += 1;
    }
    let ghost joined = net@;
    proof {
        assert(kept.take(keep as int) =~= kept);
        let one = kept.push(seq!['0']);
        let two = one.push(seq!['0']);
        assert(one.drop_last() =~= kept);
        assert(two.drop_last() =~= one);
        assert(join(one, seq!['.']) =~= if keep > 0 {
            joined + seq!['.'] + seq!['0']
        } else {
            seq!['0']
        });
        assert(join(two, seq!['.']) =~= join(one, seq!['.']) + seq!['.'] + seq!['0']);
    }
    if keep > 0 {
        net.push('.');
    }
    net.push('0');
    net.push('.');
    net.push('0');
    net.push('/');
    net.push('1');
    net.push('6');
    assert(net@ =~= net_text_of(ip@));
    net
}

} // verus!
