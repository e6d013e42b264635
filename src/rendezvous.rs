//! Rendezvous (highest random weight) hashing: every node scores every point, and the point
//! goes to the node with the highest score. A node with several replicas scores a point with
//! the best of its replicas' scores.
use crate::consistent::replica_position;
use crate::hashing::HashBuilder;
use crate::RingError;
use vstd::prelude::*;

verus! {

/// The hashes of the first `r` replicas of node `id`.
pub open spec fn replica_hashes(b: HashBuilder, id: u64, r: nat) -> Seq<u64> {
    Seq::new(r, |i: int| replica_position(b, id, i as u64))
}

/// The score of a node whose replicas hash to `hashes` (at least one) for a point that hashes
/// to `ph`: the highest combination of a replica hash with the point hash.
pub open spec fn node_score(b: HashBuilder, hashes: Seq<u64>, ph: u64) -> u64
    decreases hashes.len(),
{
    if hashes.len() <= 1 {
        b.combined(hashes[0], ph)
    } else {
        let rest = node_score(b, hashes.drop_last(), ph);
        let last = b.combined(hashes.last(), ph);
        if rest >= last {
            rest
        } else {
            last
        }
    }
}

/// The greater of two (score, id) pairs: by score, then by id.
pub open spec fn pair_max(a: (u64, u64), c: (u64, u64)) -> (u64, u64) {
    if a.0 > c.0 || (a.0 == c.0 && a.1 >= c.1) {
        a
    } else {
        c
    }
}

/// The greatest (score, id) pair among the first `k` nodes that have a replica; `None` when
/// none of them has one.
pub open spec fn best_pair(
    b: HashBuilder,
    ids: Seq<u64>,
    hashes: Seq<Seq<u64>>,
    ph: u64,
    k: nat,
) -> Option<(u64, u64)>
    decreases k,
{
    if k == 0 {
        None
    } else {
        let prev = best_pair(b, ids, hashes, ph, (k - 1) as nat);
        if hashes[k - 1].len() == 0 {
            prev
        } else {
            let cand = (node_score(b, hashes[k - 1], ph), ids[k - 1]);
            match prev {
                Some(p) => Some(pair_max(p, cand)),
                None => Some(cand),
            }
        }
    }
}

/// A hashing ring implemented with rendezvous hashing.
pub struct Ring {
    ids: Vec<u64>,
    hashes: Vec<Vec<u64>>,
    hash_builder: HashBuilder,
}

impl Ring {
    /// The nodes of the ring, in the order they were first inserted.
    pub closed spec fn node_ids(&self) -> Seq<u64> {
        self.ids@
    }

    /// The replica hashes of each node, in the order of `node_ids`.
    pub closed spec fn node_hashes(&self) -> Seq<Seq<u64>> {
        self.hashes@.map_values(|v: Vec<u64>| v@)
    }

    /// The builder that nodes and points are hashed with.
    pub closed spec fn builder(&self) -> HashBuilder {
        self.hash_builder
    }

    /// Each node appears once, with the hashes of its replicas.
    pub open spec fn wf(&self) -> bool {
        &&& self.node_ids().len() == self.node_hashes().len()
        &&& self.node_ids().no_duplicates()
        &&& forall|i: int|
            0 <= i < self.node_ids().len() ==> #[trigger] self.node_hashes()[i] == replica_hashes(
                self.builder(),
                self.node_ids()[i],
                self.node_hashes()[i].len(),
            )
    }

    /// The node that `point` maps to, or `None` when no node has a replica.
    pub open spec fn lookup(&self, point: u64) -> Option<u64> {
        match best_pair(
            self.builder(),
            self.node_ids(),
            self.node_hashes(),
            self.builder().hash_of(point),
            self.node_ids().len(),
        ) {
            Some(p) => Some(p.1),
            None => None,
        }
    }

    /// An empty ring, hashing under randomly drawn keys.
    pub fn new() -> (r: Self)
        ensures
            r.wf(),
            r.node_ids() == Seq::<u64>::empty(),
    {
        Self::with_hasher(HashBuilder::new())
    }

    /// An empty ring, hashing with `hash_builder`.
    pub fn with_hasher(hash_builder: HashBuilder) -> (r: Self)
        ensures
            r.wf(),
            r.node_ids() == Seq::<u64>::empty(),
            r.builder() == hash_builder,
    {
        let r = Ring { ids: Vec::new(), hashes: Vec::new(), hash_builder };
        proof {
            assert(r.node_hashes() =~= Seq::<Seq<u64>>::empty());
        }
        r
    }

    /// Gives node `id` `replicas` replicas, replacing those it had; a new node goes last.
    pub fn insert_node(&mut self, id: u64, replicas: usize)
        requires
            old(self).wf(),
        ensures
            final(self).wf(),
            final(self).builder() == old(self).builder(),
            old(self).node_ids().contains(id) ==> {
                let i = old(self).node_ids().index_of(id);
                &&& final(self).node_ids() == old(self).node_ids()
                &&& final(self).node_hashes() == old(self).node_hashes().update(
                    i,
                    replica_hashes(old(self).builder(), id, replicas as nat),
                )
            },
            !old(self).node_ids().contains(id) ==> {
                &&& final(self).node_ids() == old(self).node_ids().push(id)
                &&& final(self).node_hashes() == old(self).node_hashes().push(
                    replica_hashes(old(self).builder(), id, replicas as nat),
                )
            },
    {
        let id_hash = self.hash_builder.gen_hash(id);
        let mut list: Vec<u64> = Vec::new();
        let mut i: usize = 0;
        while i < replicas
            invariant
                i <= replicas,
                self.ids@ == old(self).ids@,
                self.hashes@ == old(self).hashes@,
                self.hash_builder == old(self).hash_builder,
                id_hash == self.hash_builder.hash_of(id),
                list@ == replica_hashes(self.hash_builder, id, i as nat),
            decreases replicas - i,
        {
            let h = self.hash_builder.combine_hash(id_hash, self.hash_builder.gen_hash(i as u64));
            list.push(h);
            proof {
                assert(list@ =~= replica_hashes(self.hash_builder, id, (i + 1) as nat));
            }
            i = i + 1;
        }
        let ghost new_hashes = list@;
        let mut k: usize = 0;
        while k < self.ids.len()
            invariant
                k <= self.ids.len(),
                old(self).wf(),
                self.ids@ == old(self).ids@,
                self.hashes@ == old(self).hashes@,
                self.hash_builder == old(self).hash_builder,
                list@ == new_hashes,
                new_hashes == replica_hashes(self.hash_builder, id, replicas as nat),
                forall|j: int| 0 <= j < k ==> self.ids@[j] != id,
            decreases self.ids.len() - k,
        {
            if self.ids[k] == id {
                proof {
                    assert(old(self).node_ids()[k as int] == id);
                    assert(old(self).node_ids().contains(id));
                    assert(old(self).node_ids().index_of(id) == k);
                }
                self.hashes.set(k, list);
                proof {
                    assert(self.node_hashes() =~= old(self).node_hashes().update(k as int, new_hashes));
                    assert forall|i: int| 0 <= i < self.node_ids().len() implies #[trigger] self.node_hashes()[i] == replica_hashes(
                            self.builder(),
                            self.node_ids()[i],
                            self.node_hashes()[i].len(),
                        ) by {
                        if i != k {
                            assert(old(self).node_hashes()[i] == self.node_hashes()[i]);
                        } else {
                            assert(self.node_ids()[i] == id);
                            assert(self.node_hashes()[i] == new_hashes);
                        }
                    }
                }
                return ;
            }
            k = k + 1;
        }
        self.ids.push(id);
        self.hashes.push(list);
        proof {
            assert(self.node_hashes() =~= old(self).node_hashes().push(new_hashes));
            assert(!old(self).node_ids().contains(id));
            assert forall|i: int| 0 <= i < self.node_ids().len() implies #[trigger] self.node_hashes()[i] == replica_hashes(
                    self.builder(),
                    self.node_ids()[i],
                    self.node_hashes()[i].len(),
                ) by {
                if i < old(self).node_ids().len() {
                    assert(old(self).node_hashes()[i] == self.node_hashes()[i]);
                }
            }
        }
    }

    /// Removes node `id` and its replicas; the other nodes keep their order. Removing a node
    /// that is not in the ring changes nothing.
    pub fn remove_node(&mut self, id: &u64)
        requires
            old(self).wf(),
        ensures
            final(self).wf(),
            final(self).builder() == old(self).builder(),
            old(self).node_ids().contains(*id) ==> {
                let i = old(self).node_ids().index_of(*id);
                &&& final(self).node_ids() == old(self).node_ids().remove(i)
                &&& final(self).node_hashes() == old(self).node_hashes().remove(i)
            },
            !old(self).node_ids().contains(*id) ==> final(self).node_ids() == old(self).node_ids()
                && final(self).node_hashes() == old(self).node_hashes(),
    {
        let mut k: usize = 0;
        while k < self.ids.len()
            invariant
                k <= self.ids.len(),
                old(self).wf(),
                self.ids@ == old(self).ids@,
                self.hashes@ == old(self).hashes@,
                self.hash_builder == old(self).hash_builder,
                forall|j: int| 0 <= j < k ==> self.ids@[j] != *id,
            decreases self.ids.len() - k,
        {
            if self.ids[k] == *id {
                proof {
                    assert(old(self).node_ids()[k as int] == *id);
                    assert(old(self).node_ids().contains(*id));
                    assert(old(self).node_ids().index_of(*id) == k);
                }
                self.ids.remove(k);
                self.hashes.remove(k);
                proof {
                    assert(self.node_hashes() =~= old(self).node_hashes().remove(k as int));
                    assert forall|a: int, c: int|
                        0 <= a < c < self.node_ids().len() implies self.node_ids()[a]
                        != self.node_ids()[c] by {
                        let a2 = if a < k { a } else { a + 1 };
                        let c2 = if c < k { c } else { c + 1 };
                        assert(old(self).node_ids()[a2] != old(self).node_ids()[c2]);
                    }
                    assert forall|i: int| 0 <= i < self.node_ids().len() implies #[trigger] self.node_hashes()[i] == replica_hashes(
                            self.builder(),
                            self.node_ids()[i],
                            self.node_hashes()[i].len(),
                        ) by {
                        let i2 = if i < k { i } else { i + 1 };
                        assert(old(self).node_hashes()[i2] == self.node_hashes()[i]);
                    }
                }
                return ;
            }
            k = k + 1;
        }
        proof {
            assert(!old(self).node_ids().contains(*id));
        }
    }

    /// The score of the node at `i` for a point that hashes to `ph`.
    fn score(&self, i: usize, ph: u64) -> (r: u64)
        requires
            self.wf(),
            i < self.node_ids().len(),
            self.node_hashes()[i as int].len() >= 1,
        ensures
            r == node_score(self.builder(), self.node_hashes()[i as int], ph),
    {
        let list = &self.hashes[i];
        proof {
            assert(list@ == self.node_hashes()[i as int]);
        }
        let mut best = self.hash_builder.combine_hash(list[0], ph);
        let mut j: usize = 1;
        while j < list.len()
            invariant
                1 <= j <= list.len(),
                best == node_score(self.hash_builder, list@.take(j as int), ph),
            decreases list.len() - j,
        {
            let s = self.hash_builder.combine_hash(list[j], ph);
            proof {
                assert(list@.take((j + 1) as int).drop_last() =~= list@.take(j as int));
            }
            if s > best {
                best = s;
            }
            j = j + 1;
        }
        proof {
            assert(list@.take(j as int) =~= list@);
        }
        best
    }

    /// The node that `point` maps to: the one whose best replica scores the point highest, the
    /// greater id on a tie; nodes without replicas take no part. Fails when no node has a
    /// replica.
    pub fn get_node(&self, point: &u64) -> (r: Result<u64, RingError>)
        requires
            self.wf(),
        ensures
            match r {
                Ok(id) => self.lookup(*point) == Some(id) && self.node_ids().contains(id),
                Err(e) => e == RingError::EmptyRing && self.lookup(*point) is None,
            },
    {
        let ph = self.hash_builder.gen_hash(*point);
        let mut found = false;
        let mut best_score: u64 = 0;
        let mut best_id: u64 = 0;
        let mut i: usize = 0;
        while i < self.ids.len()
            invariant
                self.wf(),
                i <= self.node_ids().len(),
                ph == self.builder().hash_of(*point),
                best_pair(self.builder(), self.node_ids(), self.node_hashes(), ph, i as nat) == if found {
                    Some((best_score, best_id))
                } else {
                    None
                },
                found ==> self.node_ids().contains(best_id),
            decreases self.node_ids().len() - i,
        {
            proof {
                assert(self.hashes@[i as int]@ == self.node_hashes()[i as int]);
            }
            if self.hashes[i].len() > 0 {
                let s = self.score(i, ph);
                let id = self.ids[i];
                if !found || !(best_score > s || (best_score == s && best_id >= id)) {
                    best_score = s;
                    best_id = id;
                }
                found = true;
            }
            i = i + 1;
        }
        if found {
            Ok(best_id)
        } else {
            Err(RingError::EmptyRing)
        }
    }

    /// The number of nodes in the ring.
    pub fn len(&self) -> (r: usize)
        ensures
            r == self.node_ids().len(),
    {
        self.ids.len()
    }

    /// Whether the ring holds no node.
    pub fn is_empty(&self) -> (r: bool)
        ensures
            r == (self.node_ids().len() == 0),
    {
        self.ids.len() == 0
    }
}

/// The best pair among the first `k` nodes does not depend on nodes after them.
proof fn lemma_best_pair_prefix(
    b: HashBuilder,
    ids: Seq<u64>,
    hashes: Seq<Seq<u64>>,
    id: u64,
    list: Seq<u64>,
    ph: u64,
    k: nat,
)
    requires
        k <= ids.len(),
        ids.len() == hashes.len(),
    ensures
        best_pair(b, ids.push(id), hashes.push(list), ph, k) == best_pair(b, ids, hashes, ph, k),
    decreases k,
{
    if k > 0 {
        lemma_best_pair_prefix(b, ids, hashes, id, list, ph, (k - 1) as nat);
    }
}

/// Lookups depend on nothing but the nodes, their replicas and the builder: two rings that
/// agree on these map every point to the same node.
pub proof fn lemma_lookup_deterministic(r1: &Ring, r2: &Ring, point: u64)
    requires
        r1.node_ids() == r2.node_ids(),
        r1.node_hashes() == r2.node_hashes(),
        r1.builder() == r2.builder(),
    ensures
        r1.lookup(point) == r2.lookup(point),
{
}

/// Inserting a node that was not in the ring moves a point, if at all, to that node: every
/// other point keeps its node.
pub proof fn lemma_insert_moves_only_to_new_node(before: &Ring, after: &Ring, id: u64, point: u64)
    requires
        before.wf(),
        after.builder() == before.builder(),
        after.node_ids() == before.node_ids().push(id),
        after.node_hashes().len() == before.node_hashes().len() + 1,
        after.node_hashes().drop_last() == before.node_hashes(),
    ensures
        after.lookup(point) == before.lookup(point) || after.lookup(point) == Some(id),
{
    let n = before.node_ids().len();
    let list = after.node_hashes().last();
    assert(after.node_hashes() =~= before.node_hashes().push(list));
    lemma_best_pair_prefix(
        before.builder(),
        before.node_ids(),
        before.node_hashes(),
        id,
        list,
        before.builder().hash_of(point),
        n,
    );
}

/// Inserting a node that was not in the ring and removing it again leaves the ring's nodes
/// and replicas as they were.
pub proof fn lemma_insert_remove_round_trip(
    ids: Seq<u64>,
    hashes: Seq<Seq<u64>>,
    id: u64,
    list: Seq<u64>,
)
    requires
        !ids.contains(id),
        ids.len() == hashes.len(),
    ensures
        ids.push(id).index_of(id) == ids.len(),
        ids.push(id).remove(ids.push(id).index_of(id)) == ids,
        hashes.push(list).remove(ids.push(id).index_of(id)) == hashes,
{
    let extended = ids.push(id);
    assert(extended[ids.len() as int] == id);
    assert(extended.contains(id));
    let w = extended.index_of(id);
    assert(extended[w] == id);
    assert(w == ids.len());
    assert(extended.remove(w) =~= ids);
    assert(hashes.push(list).remove(w) =~= hashes);
}

impl Default for Ring {
    /// An empty ring, hashing under randomly drawn keys.
    fn default() -> (r: Self)
        ensures
            r.wf(),
            r.node_ids() == Seq::<u64>::empty(),
    {
        Self::new()
    }
}

} // verus!
