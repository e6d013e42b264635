//! The hash circle shared by the circular rings: an ordered map from `u64` positions to node
//! ids, and the lookup of the first position at or after a hash, wrapping around.
use std::collections::BTreeMap;
use vstd::prelude::*;
use vstd::std_specs::cmp::OrdSpec;
use vstd::std_specs::iter::IteratorSpec;

verus! {

/// `k` is the least key of `dom` that is at least `h`.
pub open spec fn is_least_from(dom: Set<u64>, h: u64, k: u64) -> bool {
    &&& dom.contains(k)
    &&& k >= h
    &&& forall|k2: u64| dom.contains(k2) && k2 >= h ==> k <= k2
}

/// The position that a hash `h` falls to on a circle with positions `dom`: the least position
/// at or after `h`, or, when there is none, the least position of all.
pub open spec fn next_position(dom: Set<u64>, h: u64) -> u64 {
    if exists|k: u64| is_least_from(dom, h, k) {
        choose|k: u64| is_least_from(dom, h, k)
    } else {
        choose|k: u64| is_least_from(dom, 0, k)
    }
}

/// Two least keys from the same hash are the same key.
pub proof fn lemma_least_unique(dom: Set<u64>, h: u64, k1: u64, k2: u64)
    requires
        is_least_from(dom, h, k1),
        is_least_from(dom, h, k2),
    ensures
        k1 == k2,
{
}

/// A finite set of positions with one at or after `h` has a least one at or after `h`.
pub proof fn lemma_least_exists(dom: Set<u64>, h: u64, x: u64)
    requires
        dom.finite(),
        dom.contains(x),
        x >= h,
    ensures
        exists|k: u64| is_least_from(dom, h, k),
    decreases dom.len(),
{
    let rest = dom.remove(x);
    if exists|y: u64| rest.contains(y) && y >= h {
        let y = choose|y: u64| rest.contains(y) && y >= h;
        lemma_least_exists(rest, h, y);
        let z = choose|k: u64| is_least_from(rest, h, k);
        if z < x {
            assert(is_least_from(dom, h, z));
        } else {
            assert(is_least_from(dom, h, x));
        }
    } else {
        assert(is_least_from(dom, h, x));
    }
}

/// Where the position that `h` falls to on a circle is also on a smaller circle, `h` falls to
/// the same position on the smaller circle.
pub proof fn lemma_next_position_of_subset(small: Set<u64>, big: Set<u64>, h: u64)
    requires
        big.finite(),
        small.subset_of(big),
        big.contains(next_position(big, h)),
        small.contains(next_position(big, h)),
    ensures
        next_position(small, h) == next_position(big, h),
{
    let k = next_position(big, h);
    if exists|k2: u64| is_least_from(big, h, k2) {
        assert(is_least_from(small, h, k));
        let c = choose|k2: u64| is_least_from(small, h, k2);
        lemma_least_unique(small, h, k, c);
    } else {
        assert(k >= h ==> is_least_from(big, h, k)) by {
            if k >= h {
                lemma_least_exists(big, h, k);
            }
        }
        lemma_least_exists(big, 0, k);
        assert(is_least_from(big, 0, k));
        if exists|k2: u64| is_least_from(small, h, k2) {
            let c = choose|k2: u64| is_least_from(small, h, k2);
            lemma_least_exists(big, h, c);
        }
        assert(is_least_from(small, 0, k));
        let c = choose|k2: u64| is_least_from(small, 0, k2);
        lemma_least_unique(small, 0, k, c);
    }
}

/// On a finite, non-empty circle every hash falls to a position of the circle.
pub proof fn lemma_next_position_on_circle(dom: Set<u64>, h: u64)
    requires
        dom.finite(),
        dom.len() > 0,
    ensures
        dom.contains(next_position(dom, h)),
        (exists|k: u64| is_least_from(dom, h, k)) ==> is_least_from(dom, h, next_position(dom, h)),
        !(exists|k: u64| is_least_from(dom, h, k)) ==> is_least_from(dom, 0, next_position(dom, h)),
{
    vstd::set_lib::lemma_set_empty_equivalency_len(dom);
    let x = choose|x: u64| dom.contains(x);
    lemma_least_exists(dom, 0, x);
}

/// Relies on `BTreeMap::range`: a range from `h` walks the entries whose keys are at least `h`
/// in ascending key order, so its first item is the entry of the least such key.
#[verifier::external_body]
fn range_first(m: &BTreeMap<u64, u64>, h: u64) -> (r: Option<(u64, u64)>)
    ensures
        match r {
            Some((k, v)) => is_least_from(m@.dom(), h, k) && m@[k] == v,
            None => forall|k: u64| m@.contains_key(k) ==> k < h,
        },
{
    match m.range(h..).next() {
        Some((k, v)) => Some((*k, *v)),
        None => None,
    }
}

/// The entry with the least key of `m`, if `m` has any: the first entry that iterating over
/// `m` yields, as keys come in increasing order.
fn first_entry(m: &BTreeMap<u64, u64>) -> (r: Option<(u64, u64)>)
    ensures
        match r {
            Some((k, v)) => is_least_from(m@.dom(), 0, k) && m@[k] == v,
            None => m@.dom() =~= Set::empty(),
        },
{
    broadcast use vstd::std_specs::btree::group_btree_axioms;
    broadcast use vstd::laws_cmp::group_laws_cmp;

    proof {
        assert(vstd::laws_cmp::obeys_cmp::<u64>());
    }
    for kv in it: m.iter()
        invariant
            it.index() == 0,
            m@.dom().len() == it.seq().len(),
            vstd::std_specs::btree::increasing_seq(it.seq().map_values(|kv: (&u64, &u64)| *kv.0)),
    {
        proof {
            let seq = it.seq();
            let keys = seq.map_values(|kv: (&u64, &u64)| *kv.0);
            assert(kv == seq[0]);
            assert(keys[0] == *kv.0);
            assert(m@.contains_key(*kv.0));
            assert forall|k2: u64| m@.dom().contains(k2) implies *kv.0 <= k2 by {
                assert(seq.contains((&k2, &m@[k2])));
                let j = choose|j: int| 0 <= j < seq.len() && seq[j] == (&k2, &m@[k2]);
                if j > 0 {
                    assert(keys[0].cmp_spec(&keys[j]) is Less);
                }
            }
        }
        return Some((*kv.0, *kv.1));
    }
    proof {
        assert(m@.dom().len() == 0);
        vstd::set_lib::lemma_set_empty_equivalency_len(m@.dom());
    }
    None
}

/// The entry at the position that `h` falls to on the circle `m`, or `None` when `m` is empty.
pub fn next_entry(m: &BTreeMap<u64, u64>, h: u64) -> (r: Option<(u64, u64)>)
    ensures
        match r {
            Some((k, v)) => m@.dom().len() > 0 && k == next_position(m@.dom(), h) && m@.contains_key(k)
                && m@[k] == v,
            None => m@.dom() =~= Set::empty(),
        },
{
    broadcast use vstd::std_specs::btree::group_btree_axioms;

    match range_first(m, h) {
        Some((k, v)) => {
            proof {
                let c = choose|k2: u64| is_least_from(m@.dom(), h, k2);
                lemma_least_unique(m@.dom(), h, k, c);
                vstd::set_lib::lemma_set_empty_equivalency_len(m@.dom());
            }
            Some((k, v))
        },
        None => {
            let first = first_entry(m);
            match first {
                Some((k, v)) => {
                    proof {
                        assert(!exists|k2: u64| is_least_from(m@.dom(), h, k2));
                        let c = choose|k2: u64| is_least_from(m@.dom(), 0, k2);
                        lemma_least_unique(m@.dom(), 0, k, c);
                        vstd::set_lib::lemma_set_empty_equivalency_len(m@.dom());
                    }
                    Some((k, v))
                },
                None => None,
            }
        },
    }
}

} // verus!
