//! Consistent hashing with virtual nodes: each node is placed on the hash circle once per
//! replica, at the combination of its own hash with the replica number's hash. A point maps to
//! the node at the first position at or after the point's hash, wrapping around.
use crate::circle::{
    lemma_next_position_of_subset, lemma_next_position_on_circle, next_entry, next_position,
};
use crate::hashing::HashBuilder;
use crate::RingError;
use std::collections::BTreeMap;
use vstd::prelude::*;

verus! {

/// The position of replica `i` of node `id`.
pub open spec fn replica_position(b: HashBuilder, id: u64, i: u64) -> u64 {
    b.combined(b.hash_of(id), b.hash_of(i))
}

/// `p` is the position of one of the first `r` replicas of node `id`.
pub open spec fn is_replica_of(b: HashBuilder, id: u64, r: nat, p: u64) -> bool {
    exists|i: u64| i < r && p == #[trigger] replica_position(b, id, i)
}

/// The positions of the first `i + 1` replicas are those of the first `i` and that of replica
/// `i`.
proof fn lemma_replica_window_grows(b: HashBuilder, id: u64, i: u64)
    ensures
        forall|p: u64|
            #[trigger] is_replica_of(b, id, (i + 1) as nat, p) <==> (is_replica_of(b, id, i as nat, p)
                || p == replica_position(b, id, i)),
{
    assert forall|p: u64|
        #[trigger] is_replica_of(b, id, (i + 1) as nat, p) <==> (is_replica_of(b, id, i as nat, p)
            || p == replica_position(b, id, i)) by {
        if is_replica_of(b, id, (i + 1) as nat, p) {
            let k = choose|k: u64| k < (i + 1) as nat && p == #[trigger] replica_position(b, id, k);
            if k < i {
                assert(is_replica_of(b, id, i as nat, p));
            }
        }
        if p == replica_position(b, id, i) {
            assert(is_replica_of(b, id, (i + 1) as nat, p));
        }
    }
}

/// The circle `m` without the positions held by node `id`.
pub open spec fn evict(m: Map<u64, u64>, id: u64) -> Map<u64, u64> {
    Map::new(|p: u64| m.contains_key(p) && m[p] != id, |p: u64| m[p])
}

/// The circle `m` with the first `r` replicas of node `id` placed on it, each one taking its
/// position over whatever held it.
pub open spec fn place(m: Map<u64, u64>, b: HashBuilder, id: u64, r: nat) -> Map<u64, u64> {
    Map::new(
        |p: u64| m.contains_key(p) || is_replica_of(b, id, r, p),
        |p: u64|
            if is_replica_of(b, id, r, p) {
                id
            } else {
                m[p]
            },
    )
}

/// A hashing ring implemented with consistent hashing.
pub struct Ring {
    nodes: BTreeMap<u64, u64>,
    replicas: BTreeMap<u64, usize>,
    hash_builder: HashBuilder,
}

impl Ring {
    /// The circle: each position and the node that holds it.
    pub closed spec fn positions(&self) -> Map<u64, u64> {
        self.nodes@
    }

    /// Each node of the ring and its number of replicas.
    pub closed spec fn replica_counts(&self) -> Map<u64, usize> {
        self.replicas@
    }

    /// The builder that nodes and points are hashed with.
    pub closed spec fn builder(&self) -> HashBuilder {
        self.hash_builder
    }

    /// Every position is held by a node of the ring, at one of that node's replica positions.
    pub open spec fn wf(&self) -> bool {
        forall|p: u64| #[trigger]
            self.positions().contains_key(p) ==> {
                let id = self.positions()[p];
                &&& self.replica_counts().contains_key(id)
                &&& is_replica_of(self.builder(), id, self.replica_counts()[id] as nat, p)
            }
    }

    /// The node that `point` maps to, or `None` when the circle is empty.
    pub open spec fn lookup(&self, point: u64) -> Option<u64> {
        if self.positions().dom().len() == 0 {
            None
        } else {
            Some(
                self.positions()[next_position(
                    self.positions().dom(),
                    self.builder().hash_of(point),
                )],
            )
        }
    }

    /// An empty ring, hashing under randomly drawn keys.
    pub fn new() -> (r: Self)
        ensures
            r.wf(),
            r.positions() == Map::<u64, u64>::empty(),
            r.replica_counts() == Map::<u64, usize>::empty(),
    {
        Self::with_hasher(HashBuilder::new())
    }

    /// An empty ring, hashing with `hash_builder`.
    pub fn with_hasher(hash_builder: HashBuilder) -> (r: Self)
        ensures
            r.wf(),
            r.positions() == Map::<u64, u64>::empty(),
            r.replica_counts() == Map::<u64, usize>::empty(),
            r.builder() == hash_builder,
    {
        Ring { nodes: BTreeMap::new(), replicas: BTreeMap::new(), hash_builder }
    }

    /// Places `replicas` replicas of node `id` on the circle, replacing those it had. A replica
    /// takes its position over whatever node held it.
    pub fn insert_node(&mut self, id: u64, replicas: usize)
        requires
            old(self).wf(),
        ensures
            final(self).wf(),
            final(self).builder() == old(self).builder(),
            final(self).positions() == place(
                evict(old(self).positions(), id),
                old(self).builder(),
                id,
                replicas as nat,
            ),
            final(self).replica_counts() == old(self).replica_counts().insert(id, replicas),
            final(self).replica_counts().len() == old(self).replica_counts().len() + if old(
                self,
            ).replica_counts().contains_key(id) {
                0int
            } else {
                1int
            },
    {
        broadcast use vstd::std_specs::btree::group_btree_axioms;

        if self.replicas.contains_key(&id) {
            self.remove_node(&id);
        }
        proof {
            assert(self.nodes@ =~= evict(old(self).positions(), id));
        }
        let ghost evicted = self.nodes@;
        let id_hash = self.hash_builder.gen_hash(id);
        let mut i: usize = 0;
        while i < replicas
            invariant
                i <= replicas,
                self.hash_builder == old(self).hash_builder,
                id_hash == self.hash_builder.hash_of(id),
                evicted == evict(old(self).positions(), id),
                self.nodes@ == place(evicted, self.hash_builder, id, i as nat),
                self.replicas@ == old(self).replicas@.remove(id),
            decreases replicas - i,
        {
            let pos = self.hash_builder.combine_hash(id_hash, self.hash_builder.gen_hash(i as u64));
            self.nodes.insert(pos, id);
            proof {
                assert(pos == replica_position(self.hash_builder, id, i as u64));
                lemma_replica_window_grows(self.hash_builder, id, i as u64);
                assert(self.nodes@ =~= place(evicted, self.hash_builder, id, (i + 1) as nat));
            }
            i = i + 1;
        }
        self.replicas.insert(id, replicas);
        proof {
            assert forall|p: u64| #[trigger] self.positions().contains_key(p) implies {
                let owner = self.positions()[p];
                &&& self.replica_counts().contains_key(owner)
                &&& is_replica_of(self.builder(), owner, self.replica_counts()[owner] as nat, p)
            } by {
                if !is_replica_of(self.hash_builder, id, replicas as nat, p) {
                    assert(old(self).positions().contains_key(p));
                }
            }
        }
    }

    /// Removes node `id` and every position it holds. Positions of its replicas that another
    /// node took over stay. Removing a node that is not in the ring changes nothing.
    pub fn remove_node(&mut self, id: &u64)
        requires
            old(self).wf(),
        ensures
            final(self).wf(),
            final(self).builder() == old(self).builder(),
            final(self).positions() == evict(old(self).positions(), *id),
            final(self).replica_counts() == old(self).replica_counts().remove(*id),
            final(self).replica_counts().len() == old(self).replica_counts().len() - if old(
                self,
            ).replica_counts().contains_key(*id) {
                1int
            } else {
                0int
            },
    {
        broadcast use vstd::std_specs::btree::group_btree_axioms;

        let id = *id;
        let count = match self.replicas.get(&id) {
            Some(c) => *c,
            None => {
                proof {
                    assert(self.positions() =~= evict(old(self).positions(), id));
                    assert(self.replica_counts() =~= old(self).replica_counts().remove(id));
                }
                return ;
            },
        };
        let id_hash = self.hash_builder.gen_hash(id);
        let mut i: usize = 0;
        while i < count
            invariant
                i <= count,
                count == old(self).replicas@[id],
                old(self).replicas@.contains_key(id),
                old(self).wf(),
                self.hash_builder == old(self).hash_builder,
                self.replicas@ == old(self).replicas@,
                id_hash == self.hash_builder.hash_of(id),
                forall|p: u64| #[trigger]
                    self.nodes@.contains_key(p) <==> old(self).nodes@.contains_key(p) && !(
                    old(self).nodes@[p] == id && is_replica_of(self.hash_builder, id, i as nat, p)),
                forall|p: u64| #[trigger]
                    self.nodes@.contains_key(p) ==> self.nodes@[p] == old(self).nodes@[p],
            decreases count - i,
        {
            let pos = self.hash_builder.combine_hash(id_hash, self.hash_builder.gen_hash(i as u64));
            let held = match self.nodes.get(&pos) {
                Some(owner) => *owner == id,
                None => false,
            };
            if held {
                self.nodes.remove(&pos);
            }
            proof {
                assert(pos == replica_position(self.hash_builder, id, i as u64));
                lemma_replica_window_grows(self.hash_builder, id, i as u64);
            }
            i = i + 1;
        }
        self.replicas.remove(&id);
        proof {
            assert(self.positions() =~= evict(old(self).positions(), id));
        }
    }

    /// The node that `point` maps to: the holder of the first position at or after the point's
    /// hash, wrapping around to the first position. Fails when the circle is empty.
    pub fn get_node(&self, point: &u64) -> (r: Result<u64, RingError>)
        requires
            self.wf(),
        ensures
            match r {
                Ok(id) => self.lookup(*point) == Some(id) && self.replica_counts().contains_key(id),
                Err(e) => e == RingError::EmptyRing && self.lookup(*point) is None,
            },
    {
        let h = self.hash_builder.gen_hash(*point);
        match next_entry(&self.nodes, h) {
            Some((_, id)) => Ok(id),
            None => Err(RingError::EmptyRing),
        }
    }

    /// The number of nodes in the ring.
    pub fn len(&self) -> (r: usize)
        ensures
            r == self.replica_counts().len(),
    {
        self.replicas.len()
    }

    /// Whether the ring holds no node.
    pub fn is_empty(&self) -> (r: bool)
        ensures
            r == (self.replica_counts().len() == 0),
    {
        self.replicas.is_empty()
    }
}

/// Lookups depend on nothing but the circle and the builder: two rings that agree on both map
/// every point to the same node.
pub proof fn lemma_lookup_deterministic(r1: &Ring, r2: &Ring, point: u64)
    requires
        r1.positions() == r2.positions(),
        r1.builder() == r2.builder(),
    ensures
        r1.lookup(point) == r2.lookup(point),
{
}

/// Once a node with at least one replica has been placed, every point maps to some node of the
/// ring.
pub proof fn lemma_total_after_insert(
    ring: &Ring,
    before: Map<u64, u64>,
    id: u64,
    replicas: nat,
    point: u64,
)
    requires
        ring.wf(),
        replicas >= 1,
        ring.positions() == place(before, ring.builder(), id, replicas),
    ensures
        ring.lookup(point) is Some,
        ring.replica_counts().contains_key(ring.lookup(point)->Some_0),
{
    broadcast use vstd::std_specs::btree::group_btree_axioms;

    let dom = ring.positions().dom();
    assert(is_replica_of(ring.builder(), id, replicas, replica_position(ring.builder(), id, 0)));
    assert(dom.contains(replica_position(ring.builder(), id, 0)));
    vstd::set_lib::lemma_set_empty_equivalency_len(dom);
    lemma_next_position_on_circle(dom, ring.builder().hash_of(point));
}

/// Inserting a node that was not in the ring moves a point, if at all, to that node: every
/// other point keeps its node.
pub proof fn lemma_insert_moves_only_to_new_node(
    before: &Ring,
    after: &Ring,
    id: u64,
    replicas: nat,
    point: u64,
)
    requires
        before.wf(),
        !before.replica_counts().contains_key(id),
        after.builder() == before.builder(),
        after.positions() == place(evict(before.positions(), id), before.builder(), id, replicas),
    ensures
        after.lookup(point) == before.lookup(point) || after.lookup(point) == Some(id),
{
    broadcast use vstd::std_specs::btree::group_btree_axioms;

    let b = before.builder();
    assert(evict(before.positions(), id) =~= before.positions());
    let big = after.positions().dom();
    let small = before.positions().dom();
    let h = b.hash_of(point);
    assert(small.subset_of(big));
    vstd::set_lib::lemma_set_empty_equivalency_len(big);
    vstd::set_lib::lemma_set_empty_equivalency_len(small);
    if big.len() == 0 {
        assert(small =~= Set::<u64>::empty());
    } else {
        lemma_next_position_on_circle(big, h);
        let k = next_position(big, h);
        if !is_replica_of(b, id, replicas, k) {
            assert(small.contains(k));
            lemma_next_position_of_subset(small, big, h);
        }
    }
}

/// Inserting a node and removing it again leaves the circle as it was, provided the node held
/// no position before and none of its replicas took a position over from another node.
pub proof fn lemma_insert_remove_round_trip(
    m: Map<u64, u64>,
    b: HashBuilder,
    id: u64,
    replicas: nat,
)
    requires
        forall|p: u64| m.contains_key(p) ==> m[p] != id,
        forall|p: u64| is_replica_of(b, id, replicas, p) ==> !m.contains_key(p),
    ensures
        evict(place(evict(m, id), b, id, replicas), id) == m,
{
    assert(evict(place(evict(m, id), b, id, replicas), id) =~= m);
}

impl Default for Ring {
    /// An empty ring, hashing under randomly drawn keys.
    fn default() -> (r: Self)
        ensures
            r.wf(),
            r.positions() == Map::<u64, u64>::empty(),
            r.replica_counts() == Map::<u64, usize>::empty(),
    {
        Self::new()
    }
}

} // verus!
