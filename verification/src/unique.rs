//! Sets kept as vectors: each element once, in the order of first arrival.

use crate::addr::{Ipv4, Network};
use crate::text::views;
use vstd::prelude::*;

verus! {

/// The elements of `s`, each kept where it occurs first.
pub open spec fn distinct<T>(s: Seq<T>) -> Seq<T>
    decreases s.len(),
{
    if s.len() == 0 {
        Seq::<T>::empty()
    } else {
        let d = distinct(s.drop_last());
        if d.contains(s.last()) {
            d
        } else {
            d.push(s.last())
        }
    }
}

/// `distinct(s)` holds what `s` holds, and nothing twice.
pub proof fn lemma_distinct<T>(s: Seq<T>)
    ensures
        distinct(s).no_duplicates(),
        forall|x: T| distinct(s).contains(x) <==> s.contains(x),
        distinct(s).len() <= s.len(),
    decreases s.len(),
{
    if s.len() > 0 {
        let t = s.drop_last();
        let last = s.last();
        let d = distinct(t);
        let ds = distinct(s);
        lemma_distinct(t);
        assert(ds == if d.contains(last) {
            d
        } else {
            d.push(last)
        });
        assert forall|x: T| ds.contains(x) <==> s.contains(x) by {
            assert(d.contains(x) <==> t.contains(x));
            if s.contains(x) {
                let i = choose|i: int| 0 <= i < s.len() && s[i] == x;
                if i < t.len() {
                    assert(t[i] == x);
                    assert(t.contains(x));
                    let j = choose|j: int| 0 <= j < d.len() && d[j] == x;
                    assert(ds[j] == x);
                } else {
                    assert(x == last);
                    if !d.contains(last) {
                        assert(ds[d.len() as int] == x);
                    }
                }
                assert(ds.contains(x));
            }
            if ds.contains(x) {
                let j = choose|j: int| 0 <= j < ds.len() && ds[j] == x;
                if j < d.len() {
                    assert(d[j] == x);
                    assert(d.contains(x));
                    let i = choose|i: int| 0 <= i < t.len() && t[i] == x;
                    assert(s[i] == x);
                } else {
                    assert(s[s.len() - 1] == x);
                }
                assert(s.contains(x));
            }
        }
    }
}

/// Whether `v` holds `x`.
pub fn holds_ip(v: &Vec<Ipv4>, x: Ipv4) -> (r: bool)
    ensures
        r == v@.contains(x),
{
    let mut i: usize = 0;
    while i < v.len()
        invariant
            i <= v.len(),
            forall|j: int| 0 <= j < i ==> v@[j] != x,
        decreases v.len() - i,
    {
        if v[i] == x {
            return true;
        }
        i += 1;
    }
    false
}

/// Whether `v` holds `x`.
pub fn holds_net(v: &Vec<Network>, x: Network) -> (r: bool)
    ensures
        r == v@.contains(x),
{
    let mut i: usize = 0;
    while i < v.len()
        invariant
            i <= v.len(),
            forall|j: int| 0 <= j < i ==> v@[j] != x,
        decreases v.len() - i,
    {
        if v[i] == x {
            return true;
        }
        i += 1;
    }
    false
}

/// The addresses of `v`, each once.
pub fn distinct_ips(v: &Vec<Ipv4>) -> (r: Vec<Ipv4>)
    ensures
        r@ == distinct(v@),
{
    let mut r: Vec<Ipv4> = Vec::new();
    let mut i: usize = 0;
    while i < v.len()
        invariant
            i <= v.len(),
            r@ == distinct(v@.take(i as int)),
        decreases v.len() - i,
    {
        assert(v@.take(i + 1).drop_last() =~= v@.take(i as int));
        if !holds_ip(&r, v[i]) {
            r.push(v[i]);
        }
        i += 1;
    }
    assert(v@.take(v@.len() as int) =~= v@);
    r
}

/// Whether one of `v` reads as `x` does.
pub fn holds_text(v: &Vec<String>, x: &String) -> (r: bool)
    ensures
        r == views(v@).contains(x@),
{
    let mut i: usize = 0;
    while i < v.len()
        invariant
            i <= v.len(),
            forall|j: int| 0 <= j < i ==> views(v@)[j] != x@,
        decreases v.len() - i,
    {
        if v[i] == *x {
            assert(views(v@)[i as int] == x@);
            return true;
        }
        i += 1;
    }
    false
}

} // verus!
