//! Weighted rendezvous hashing: every node scores a point with a number drawn from the
//! combination of its hash and the point's hash, stretched by its weight, and the highest score
//! wins.
//!
//! This module keeps what the scheme decides without arithmetic on weights: the nodes, each
//! once, with their weights (the bit patterns of positive finite `f64`s), the hash that each
//! node's score is drawn from, and the choice of the highest score.
use crate::carp::{higher, highest, pick_highest, valid_weight};
use crate::hashing::HashBuilder;
use crate::RingError;
use vstd::prelude::*;

verus! {

/// A weighted rendezvous ring's nodes.
pub struct Ring {
    ids: Vec<u64>,
    weights: Vec<u64>,
    hash_builder: HashBuilder,
}

impl Ring {
    /// The nodes, in the order they were first inserted.
    pub closed spec fn node_ids(&self) -> Seq<u64> {
        self.ids@
    }

    /// The weights of the nodes, in the order of `node_ids`.
    pub closed spec fn node_weights(&self) -> Seq<u64> {
        self.weights@
    }

    /// The builder that nodes and points are hashed with.
    pub closed spec fn builder(&self) -> HashBuilder {
        self.hash_builder
    }

    /// Each node appears once, with one valid weight.
    pub open spec fn wf(&self) -> bool {
        &&& self.node_ids().len() == self.node_weights().len()
        &&& self.node_ids().no_duplicates()
        &&& forall|i: int|
            0 <= i < self.node_weights().len() ==> valid_weight(#[trigger] self.node_weights()[i])
    }

    /// An empty ring, hashing under randomly drawn keys.
    pub fn new() -> (r: Self)
        ensures
            r.wf(),
            r.node_ids() == Seq::<u64>::empty(),
    {
        Self::with_hasher(HashBuilder::new())
    }

    /// An empty ring, hashing with `hash_builder`.
    pub fn with_hasher(hash_builder: HashBuilder) -> (r: Self)
        ensures
            r.wf(),
            r.node_ids() == Seq::<u64>::empty(),
            r.builder() == hash_builder,
    {
        Ring { ids: Vec::new(), weights: Vec::new(), hash_builder }
    }

    /// Gives node `id` the weight `weight`, replacing the weight it had; a new node goes last.
    pub fn insert_node(&mut self, id: u64, weight: u64)
        requires
            old(self).wf(),
            valid_weight(weight),
        ensures
            final(self).wf(),
            final(self).builder() == old(self).builder(),
            old(self).node_ids().contains(id) ==> {
                &&& final(self).node_ids() == old(self).node_ids()
                &&& final(self).node_weights() == old(self).node_weights().update(
                    old(self).node_ids().index_of(id),
                    weight,
                )
            },
            !old(self).node_ids().contains(id) ==> {
                &&& final(self).node_ids() == old(self).node_ids().push(id)
                &&& final(self).node_weights() == old(self).node_weights().push(weight)
            },
    {
        let mut k: usize = 0;
        while k < self.ids.len()
            invariant
                k <= self.ids.len(),
                old(self).wf(),
                self.ids@ == old(self).ids@,
                self.weights@ == old(self).weights@,
                self.hash_builder == old(self).hash_builder,
                valid_weight(weight),
                forall|j: int| 0 <= j < k ==> self.ids@[j] != id,
            decreases self.ids.len() - k,
        {
            if self.ids[k] == id {
                proof {
                    assert(old(self).node_ids()[k as int] == id);
                    assert(old(self).node_ids().contains(id));
                    assert(old(self).node_ids().index_of(id) == k);
                }
                self.weights.set(k, weight);
                return ;
            }
            k = k + 1;
        }
        self.ids.push(id);
        self.weights.push(weight);
        proof {
            assert(!old(self).node_ids().contains(id));
        }
    }

    /// Removes node `id`; the others keep their order. Removing a node that is not in the ring
    /// changes nothing.
    pub fn remove_node(&mut self, id: &u64)
        requires
            old(self).wf(),
        ensures
            final(self).wf(),
            final(self).builder() == old(self).builder(),
            old(self).node_ids().contains(*id) ==> {
                let i = old(self).node_ids().index_of(*id);
                &&& final(self).node_ids() == old(self).node_ids().remove(i)
                &&& final(self).node_weights() == old(self).node_weights().remove(i)
            },
            !old(self).node_ids().contains(*id) ==> final(self).node_ids() == old(self).node_ids()
                && final(self).node_weights() == old(self).node_weights(),
    {
        let mut k: usize = 0;
        while k < self.ids.len()
            invariant
                k <= self.ids.len(),
                old(self).wf(),
                self.ids@ == old(self).ids@,
                self.weights@ == old(self).weights@,
                self.hash_builder == old(self).hash_builder,
                forall|j: int| 0 <= j < k ==> self.ids@[j] != *id,
            decreases self.ids.len() - k,
        {
            if self.ids[k] == *id {
                proof {
                    assert(old(self).node_ids()[k as int] == *id);
                    assert(old(self).node_ids().contains(*id));
                    assert(old(self).node_ids().index_of(*id) == k);
                }
                self.ids.remove(k);
                self.weights.remove(k);
                proof {
                    assert forall|a: int, c: int|
                        0 <= a < c < self.node_ids().len() implies self.node_ids()[a]
                        != self.node_ids()[c] by {
                        let a2 = if a < k { a } else { a + 1 };
                        let c2 = if c < k { c } else { c + 1 };
                        assert(old(self).node_ids()[a2] != old(self).node_ids()[c2]);
                    }
                }
                return ;
            }
            k = k + 1;
        }
        proof {
            assert(!old(self).node_ids().contains(*id));
        }
    }

    /// For each node, in order, the combination of its hash with the hash of `point`: the
    /// number its score is drawn from.
    pub fn point_hashes(&self, point: &u64) -> (r: Vec<u64>)
        requires
            self.wf(),
        ensures
            r.len() == self.node_ids().len(),
            forall|i: int|
                0 <= i < r.len() ==> r[i] == self.builder().combined(
                    self.builder().hash_of(self.node_ids()[i]),
                    self.builder().hash_of(*point),
                ),
    {
        let ph = self.hash_builder.gen_hash(*point);
        let mut out: Vec<u64> = Vec::new();
        let mut i: usize = 0;
        while i < self.ids.len()
            invariant
                i <= self.ids.len(),
                out.len() == i,
                ph == self.builder().hash_of(*point),
                forall|j: int|
                    0 <= j < i ==> out[j] == self.builder().combined(
                        self.builder().hash_of(self.node_ids()[j]),
                        ph,
                    ),
            decreases self.ids.len() - i,
        {
            let h = self.hash_builder.gen_hash(self.ids[i]);
            out.push(self.hash_builder.combine_hash(h, ph));
            i = i + 1;
        }
        out
    }

    /// The weights of the nodes, in order.
    pub fn weights(&self) -> (r: Vec<u64>)
        ensures
            r@ == self.node_weights(),
    {
        self.weights.clone()
    }

    /// The node whose score, of `scores` (one per node, in order), is highest, the greater id on
    /// a tie. Fails when the ring is empty.
    pub fn get_node_for_scores(&self, scores: &Vec<u64>) -> (r: Result<u64, RingError>)
        requires
            self.wf(),
            scores.len() == self.node_ids().len(),
        ensures
            self.node_ids().len() == 0 ==> r == Err::<u64, RingError>(RingError::EmptyRing),
            self.node_ids().len() > 0 ==> r == Ok::<u64, RingError>(
                highest(scores@, self.node_ids(), self.node_ids().len() as nat).1,
            ),
    {
        match pick_highest(scores, &self.ids) {
            Some(id) => Ok(id),
            None => Err(RingError::EmptyRing),
        }
    }

    /// The number of nodes.
    pub fn len(&self) -> (r: usize)
        ensures
            r == self.node_ids().len(),
    {
        self.ids.len()
    }

    /// Whether the ring holds no node.
    pub fn is_empty(&self) -> (r: bool)
        ensures
            r == (self.node_ids().len() == 0),
    {
        self.ids.len() == 0
    }
}

/// Inserting a node that was not in the ring and removing it again leaves the ring's nodes and
/// weights as they were.
pub proof fn lemma_insert_remove_round_trip(ids: Seq<u64>, weights: Seq<u64>, id: u64, weight: u64)
    requires
        !ids.contains(id),
        ids.len() == weights.len(),
    ensures
        ids.push(id).index_of(id) == ids.len(),
        ids.push(id).remove(ids.push(id).index_of(id)) == ids,
        weights.push(weight).remove(ids.push(id).index_of(id)) == weights,
{
    let extended = ids.push(id);
    assert(extended[ids.len() as int] == id);
    let w = extended.index_of(id);
    assert(extended[w] == id);
    assert(w == ids.len());
    assert(extended.remove(w) =~= ids);
    assert(weights.push(weight).remove(w) =~= weights);
}

/// The highest pair among the first `k` candidates does not depend on candidates after them.
proof fn lemma_highest_prefix(scores: Seq<u64>, ids: Seq<u64>, s: u64, id: u64, k: nat)
    requires
        1 <= k <= ids.len(),
        scores.len() == ids.len(),
    ensures
        highest(scores.push(s), ids.push(id), k) == highest(scores, ids, k),
    decreases k,
{
    if k > 1 {
        lemma_highest_prefix(scores, ids, s, id, (k - 1) as nat);
    }
}

/// A node's score depends on its own weight and hash alone, so inserting a node that was not in
/// the ring leaves the other scores as they were; then a point moves, if at all, to the new
/// node.
pub proof fn lemma_insert_moves_only_to_new_node(scores: Seq<u64>, ids: Seq<u64>, s: u64, id: u64)
    requires
        scores.len() == ids.len(),
        ids.len() >= 1,
    ensures
        highest(scores.push(s), ids.push(id), (ids.len() + 1) as nat).1 == highest(
            scores,
            ids,
            ids.len() as nat,
        ).1 || highest(scores.push(s), ids.push(id), (ids.len() + 1) as nat).1 == id,
{
    lemma_highest_prefix(scores, ids, s, id, ids.len() as nat);
    assert(highest(scores.push(s), ids.push(id), (ids.len() + 1) as nat) == higher(
        highest(scores, ids, ids.len() as nat),
        (s, id),
    ));
}

} // verus!
