//! Multi-probe consistent hashing: each node holds one position on the hash circle, and each
//! point is hashed `hash_count` times; the probe closest to the position after it wins.
use crate::circle::{
    is_least_from, lemma_least_exists, lemma_next_position_of_subset, lemma_next_position_on_circle,
    next_entry, next_position,
};
use crate::hashing::HashBuilder;
use crate::RingError;
use std::collections::BTreeMap;
use vstd::prelude::*;
use vstd::wrapping::u64_specs;

verus! {

/// The modulus that spreads the probes of a point over the circle.
pub const PRIME: u64 = 0xFFFF_FFFF_FFFF_FFC5;

/// Probe `i` of a point whose two hashes are `h0` and `h1`: `h0 + (i * h1 mod PRIME)`, where
/// the product and the sum wrap.
pub open spec fn probe(h0: u64, h1: u64, i: u64) -> u64 {
    u64_specs::wrapping_add(h0, (u64_specs::wrapping_mul(i, h1) % PRIME) as u64)
}

/// The distance along the circle from `hash` forward to `next_hash`, with unsigned wrap.
pub open spec fn distance(hash: u64, next_hash: u64) -> u64 {
    u64_specs::wrapping_sub(next_hash, hash)
}

/// Probe `i` of a point as the pair it is ranked by: its distance to the position it falls to
/// on the circle `dom`, and that position.
pub open spec fn probe_rank(dom: Set<u64>, h0: u64, h1: u64, i: u64) -> (u64, u64) {
    let p = probe(h0, h1, i);
    let next = next_position(dom, p);
    (distance(p, next), next)
}

/// The lesser of two ranks: by distance, then by position.
pub open spec fn rank_min(a: (u64, u64), b: (u64, u64)) -> (u64, u64) {
    if a.0 < b.0 || (a.0 == b.0 && a.1 <= b.1) {
        a
    } else {
        b
    }
}

/// The least rank among the probes `0..n` (`n >= 1`).
pub open spec fn best_rank(dom: Set<u64>, h0: u64, h1: u64, n: nat) -> (u64, u64)
    decreases n,
{
    if n <= 1 {
        probe_rank(dom, h0, h1, 0)
    } else {
        rank_min(best_rank(dom, h0, h1, (n - 1) as nat), probe_rank(dom, h0, h1, (n - 1) as u64))
    }
}

/// The best rank is the rank of one of the probes, and no probe ranks lower.
pub proof fn lemma_best_rank_is_least(dom: Set<u64>, h0: u64, h1: u64, n: nat)
    requires
        1 <= n <= u64::MAX as nat + 1,
    ensures
        exists|i: u64| i < n && best_rank(dom, h0, h1, n) == probe_rank(dom, h0, h1, i),
        forall|j: u64|
            j < n ==> rank_min(best_rank(dom, h0, h1, n), #[trigger] probe_rank(dom, h0, h1, j))
                == best_rank(dom, h0, h1, n),
    decreases n,
{
    if n > 1 {
        lemma_best_rank_is_least(dom, h0, h1, (n - 1) as nat);
        let prev = best_rank(dom, h0, h1, (n - 1) as nat);
        if best_rank(dom, h0, h1, n) == prev {
            let i = choose|i: u64| i < n - 1 && prev == probe_rank(dom, h0, h1, i);
            assert(i < n && best_rank(dom, h0, h1, n) == probe_rank(dom, h0, h1, i));
        } else {
            assert(best_rank(dom, h0, h1, n) == probe_rank(dom, h0, h1, (n - 1) as u64));
        }
    } else {
        assert(best_rank(dom, h0, h1, n) == probe_rank(dom, h0, h1, 0));
    }
}

/// A hashing ring implemented with multi-probe consistent hashing.
pub struct Ring {
    nodes: BTreeMap<u64, u64>,
    hash_count: u64,
    probe_builders: [HashBuilder; 2],
    hash_builder: HashBuilder,
}

impl Ring {
    /// The circle: each position and the node that holds it.
    pub closed spec fn positions(&self) -> Map<u64, u64> {
        self.nodes@
    }

    /// How many probes each point is hashed to.
    pub closed spec fn probes(&self) -> nat {
        self.hash_count as nat
    }

    /// The builders of a point's two probe hashes.
    pub closed spec fn probe_hashers(&self) -> (HashBuilder, HashBuilder) {
        (self.probe_builders[0], self.probe_builders[1])
    }

    /// The builder that places nodes on the circle.
    pub closed spec fn builder(&self) -> HashBuilder {
        self.hash_builder
    }

    /// A ring probes each point at least once, and every node sits at its own hash.
    pub open spec fn wf(&self) -> bool {
        &&& self.probes() >= 1
        &&& forall|p: u64| #[trigger]
            self.positions().contains_key(p) ==> p == self.builder().hash_of(self.positions()[p])
    }

    /// Node `id` holds a position on the circle.
    pub open spec fn holds(&self, id: u64) -> bool {
        let h = self.builder().hash_of(id);
        self.positions().contains_key(h) && self.positions()[h] == id
    }

    /// The node that a point with probe hashes `h0` and `h1` maps to, or `None` when the circle
    /// is empty.
    pub open spec fn lookup_hashes(&self, h0: u64, h1: u64) -> Option<u64> {
        if self.positions().dom().len() == 0 {
            None
        } else {
            Some(self.positions()[best_rank(self.positions().dom(), h0, h1, self.probes()).1])
        }
    }

    /// The node that `point` maps to, or `None` when the circle is empty.
    pub open spec fn lookup(&self, point: u64) -> Option<u64> {
        self.lookup_hashes(
            self.probe_hashers().0.hash_of(point),
            self.probe_hashers().1.hash_of(point),
        )
    }

    /// An empty ring that probes each point `hash_count` times, with every builder keyed at
    /// random.
    pub fn new(hash_count: u64) -> (r: Self)
        requires
            hash_count >= 1,
        ensures
            r.wf(),
            r.probes() == hash_count,
            r.positions() == Map::<u64, u64>::empty(),
    {
        Self::with_hasher(HashBuilder::new(), hash_count)
    }

    /// An empty ring that probes each point `hash_count` times and places nodes with
    /// `hash_builder`; the probe hashes are keyed at random.
    pub fn with_hasher(hash_builder: HashBuilder, hash_count: u64) -> (r: Self)
        requires
            hash_count >= 1,
        ensures
            r.wf(),
            r.probes() == hash_count,
            r.positions() == Map::<u64, u64>::empty(),
            r.builder() == hash_builder,
    {
        Self::with_probe_hashers(hash_builder, HashBuilder::new(), HashBuilder::new(), hash_count)
    }

    /// An empty ring that probes each point `hash_count` times, places nodes with
    /// `hash_builder` and takes a point's two probe hashes with `probe0` and `probe1`.
    pub fn with_probe_hashers(
        hash_builder: HashBuilder,
        probe0: HashBuilder,
        probe1: HashBuilder,
        hash_count: u64,
    ) -> (r: Self)
        requires
            hash_count >= 1,
        ensures
            r.wf(),
            r.probes() == hash_count,
            r.positions() == Map::<u64, u64>::empty(),
            r.builder() == hash_builder,
            r.probe_hashers() == (probe0, probe1),
    {
        Ring { nodes: BTreeMap::new(), hash_count, probe_builders: [probe0, probe1], hash_builder }
    }

    /// Places node `id` at its hash, over whatever node held that position.
    pub fn insert_node(&mut self, id: u64)
        requires
            old(self).wf(),
        ensures
            final(self).wf(),
            final(self).probes() == old(self).probes(),
            final(self).probe_hashers() == old(self).probe_hashers(),
            final(self).builder() == old(self).builder(),
            final(self).positions() == old(self).positions().insert(
                old(self).builder().hash_of(id),
                id,
            ),
            final(self).holds(id),
            final(self).positions().len() == old(self).positions().len() + if old(
                self,
            ).positions().contains_key(old(self).builder().hash_of(id)) {
                0int
            } else {
                1int
            },
    {
        broadcast use vstd::std_specs::btree::group_btree_axioms;

        let h = self.hash_builder.gen_hash(id);
        self.nodes.insert(h, id);
        proof {
            assert forall|p: u64| #[trigger] self.positions().contains_key(p) implies p
                == self.builder().hash_of(self.positions()[p]) by {
                if p != h {
                    assert(old(self).positions().contains_key(p));
                }
            }
        }
    }

    /// Removes node `id` from its position. Removing a node that is not in the ring, even one
    /// whose hash is another node's position, changes nothing.
    pub fn remove_node(&mut self, id: &u64)
        requires
            old(self).wf(),
        ensures
            final(self).wf(),
            final(self).probes() == old(self).probes(),
            final(self).probe_hashers() == old(self).probe_hashers(),
            final(self).builder() == old(self).builder(),
            final(self).positions() == if old(self).holds(*id) {
                old(self).positions().remove(old(self).builder().hash_of(*id))
            } else {
                old(self).positions()
            },
            !final(self).holds(*id),
            final(self).positions().len() == old(self).positions().len() - if old(self).holds(*id) {
                1int
            } else {
                0int
            },
    {
        broadcast use vstd::std_specs::btree::group_btree_axioms;

        let h = self.hash_builder.gen_hash(*id);
        let held = match self.nodes.get(&h) {
            Some(owner) => *owner == *id,
            None => false,
        };
        if held {
            self.nodes.remove(&h);
        }
        proof {
            assert forall|p: u64| #[trigger] self.positions().contains_key(p) implies p
                == self.builder().hash_of(self.positions()[p]) by {
                assert(old(self).positions().contains_key(p));
            }
        }
    }

    /// The node that a point with probe hashes `h0` and `h1` maps to: over all probes, the
    /// holder of the position reached at the least distance, the lower position on a tie. Fails
    /// when the circle is empty.
    pub fn get_node_for_hashes(&self, h0: u64, h1: u64) -> (r: Result<u64, RingError>)
        requires
            self.wf(),
        ensures
            match r {
                Ok(id) => self.lookup_hashes(h0, h1) == Some(id) && self.positions().values().contains(
                    id,
                ),
                Err(e) => e == RingError::EmptyRing && self.lookup_hashes(h0, h1) is None,
            },
    {
        broadcast use vstd::std_specs::btree::group_btree_axioms;

        let ghost dom = self.nodes@.dom();
        let first = next_entry(&self.nodes, h0.wrapping_add(0u64.wrapping_mul(h1) % PRIME));
        let (mut best_dist, mut best_next, mut best_id) = match first {
            Some((next, id)) => (next.wrapping_sub(h0.wrapping_add(0u64.wrapping_mul(h1) % PRIME)), next, id),
            None => {
                return Err(RingError::EmptyRing);
            },
        };
        let mut i: u64 = 1;
        while i < self.hash_count
            invariant
                1 <= i <= self.hash_count,
                dom == self.nodes@.dom(),
                dom.len() > 0,
                (best_dist, best_next) == best_rank(dom, h0, h1, i as nat),
                self.nodes@.contains_key(best_next),
                self.nodes@[best_next] == best_id,
            decreases self.hash_count - i,
        {
            let p = h0.wrapping_add(i.wrapping_mul(h1) % PRIME);
            match next_entry(&self.nodes, p) {
                Some((next, id)) => {
                    let dist = next.wrapping_sub(p);
                    if dist < best_dist || (dist == best_dist && next <= best_next) {
                        best_dist = dist;
                        best_next = next;
                        best_id = id;
                    }
                },
                None => {},
            }
            i = i + 1;
        }
        proof {
            assert(self.nodes@.dom().contains(best_next));
        }
        Ok(best_id)
    }

    /// The node that `point` maps to: over all its probes, the holder of the position reached
    /// at the least distance, the lower position on a tie. Fails when the circle is empty.
    pub fn get_node(&self, point: &u64) -> (r: Result<u64, RingError>)
        requires
            self.wf(),
        ensures
            match r {
                Ok(id) => self.lookup(*point) == Some(id) && self.positions().values().contains(id),
                Err(e) => e == RingError::EmptyRing && self.lookup(*point) is None,
            },
    {
        let h0 = self.probe_builders[0].gen_hash(*point);
        let h1 = self.probe_builders[1].gen_hash(*point);
        self.get_node_for_hashes(h0, h1)
    }

    /// The number of positions on the circle.
    pub fn len(&self) -> (r: usize)
        ensures
            r == self.positions().len(),
    {
        self.nodes.len()
    }

    /// Whether the circle is empty.
    pub fn is_empty(&self) -> (r: bool)
        ensures
            r == (self.positions().len() == 0),
    {
        self.nodes.is_empty()
    }
}

/// Lookups depend on nothing but the circle, the probe count and the builders: two rings that
/// agree on these map every point to the same node.
pub proof fn lemma_lookup_deterministic(r1: &Ring, r2: &Ring, point: u64)
    requires
        r1.positions() == r2.positions(),
        r1.probes() == r2.probes(),
        r1.probe_hashers() == r2.probe_hashers(),
    ensures
        r1.lookup(point) == r2.lookup(point),
{
}

/// Inserting a node and removing it again leaves the circle as it was, provided the node's
/// position was free before.
pub proof fn lemma_insert_remove_round_trip(m: Map<u64, u64>, b: HashBuilder, id: u64)
    requires
        !m.contains_key(b.hash_of(id)),
    ensures
        m.insert(b.hash_of(id), id)[b.hash_of(id)] == id,
        m.insert(b.hash_of(id), id).remove(b.hash_of(id)) == m,
{
    assert(m.insert(b.hash_of(id), id).remove(b.hash_of(id)) =~= m);
}

/// `a` ranks no higher than `b`.
pub open spec fn rank_le(a: (u64, u64), b: (u64, u64)) -> bool {
    rank_min(a, b) == a
}

/// After a position `hx` joins a circle, a hash falls either to the position it fell to before
/// or to `hx`, and in that case no farther away.
proof fn lemma_next_after_join(dom: Set<u64>, hx: u64, p: u64)
    requires
        dom.finite(),
        dom.len() > 0,
    ensures
        ({
            let k = next_position(dom, p);
            let k2 = next_position(dom.insert(hx), p);
            k2 == k || (k2 == hx && distance(p, hx) <= distance(p, k))
        }),
{
    let big = dom.insert(hx);
    vstd::set_lib::lemma_set_empty_equivalency_len(big);
    lemma_next_position_on_circle(big, p);
    lemma_next_position_on_circle(dom, p);
    let k = next_position(dom, p);
    let k2 = next_position(big, p);
    if k2 != hx {
        lemma_next_position_of_subset(dom, big, p);
    } else if exists|j: u64| is_least_from(big, p, j) {
        assert(is_least_from(big, p, hx));
        assert(big.contains(k));
    } else {
        assert(is_least_from(big, 0, hx));
        assert(big.contains(k));
        if k >= p {
            lemma_least_exists(big, p, k);
        }
    }
}

/// The rank of one probe, before and after a position `hx` joins the circle: it stays, or the
/// probe now reaches `hx` and ranks no higher than before.
proof fn lemma_rank_after_join(dom: Set<u64>, hx: u64, h0: u64, h1: u64, i: u64)
    requires
        dom.finite(),
        dom.len() > 0,
    ensures
        probe_rank(dom.insert(hx), h0, h1, i) == probe_rank(dom, h0, h1, i) || (probe_rank(
            dom.insert(hx),
            h0,
            h1,
            i,
        ).1 == hx && rank_le(probe_rank(dom.insert(hx), h0, h1, i), probe_rank(dom, h0, h1, i))),
{
    lemma_next_after_join(dom, hx, probe(h0, h1, i));
}

/// Inserting a node moves a point, if at all, to that node: every other point keeps its node.
pub proof fn lemma_insert_moves_only_to_new_node(before: &Ring, after: &Ring, id: u64, point: u64)
    requires
        before.wf(),
        after.probes() == before.probes(),
        after.probe_hashers() == before.probe_hashers(),
        after.positions() == before.positions().insert(before.builder().hash_of(id), id),
    ensures
        after.lookup(point) == before.lookup(point) || after.lookup(point) == Some(id),
{
    broadcast use vstd::std_specs::btree::group_btree_axioms;

    let hx = before.builder().hash_of(id);
    let dom = before.positions().dom();
    let big = after.positions().dom();
    assert(big =~= dom.insert(hx));
    vstd::set_lib::lemma_set_empty_equivalency_len(big);
    vstd::set_lib::lemma_set_empty_equivalency_len(dom);
    let h0 = before.probe_hashers().0.hash_of(point);
    let h1 = before.probe_hashers().1.hash_of(point);
    let n = before.probes();
    if dom.len() > 0 {
        let best = best_rank(dom, h0, h1, n);
        let best2 = best_rank(big, h0, h1, n);
        lemma_best_rank_is_least(dom, h0, h1, n);
        lemma_best_rank_is_least(big, h0, h1, n);
        if best2.1 != hx {
            let i2 = choose|i: u64| i < n && best2 == probe_rank(big, h0, h1, i);
            let i1 = choose|i: u64| i < n && best == probe_rank(dom, h0, h1, i);
            lemma_rank_after_join(dom, hx, h0, h1, i2);
            lemma_rank_after_join(dom, hx, h0, h1, i1);
            assert(rank_le(best, probe_rank(dom, h0, h1, i2)));
            assert(rank_le(best2, probe_rank(big, h0, h1, i1)));
            assert(best == best2);
        }
    } else {
        assert(big =~= set![hx]);
        lemma_best_rank_is_least(big, h0, h1, n);
        let i2 = choose|i: u64| i < n && best_rank(big, h0, h1, n) == probe_rank(big, h0, h1, i);
        lemma_next_position_on_circle(big, probe(h0, h1, i2));
    }
}

} // verus!
