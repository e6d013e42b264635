//! The Cache Array Routing Protocol: every node scores a point with the combination of its own
//! hash and the point's hash, scaled by a relative weight derived from all the nodes' weights,
//! and the highest score wins.
//!
//! This module keeps what the protocol decides without arithmetic on weights: the node list,
//! with unique ids and ordered by (weight, id), the hashes that the scores scale, and the choice
//! of the highest score. A weight is carried as the bit pattern of a positive finite `f64`;
//! for such numbers the order of the bit patterns as integers is the order of the weights.
use crate::hashing::HashBuilder;
use crate::RingError;
use vstd::prelude::*;

verus! {

/// `w` is the bit pattern of a positive finite `f64`: neither zero, negative, infinite nor NaN.
pub open spec fn valid_weight(w: u64) -> bool {
    0 < w < 0x7FF0_0000_0000_0000
}

/// A node with an associated weight (the bits of a positive finite `f64`).
#[derive(Clone, Copy, Debug, PartialEq, Eq, Structural)]
pub struct Node {
    pub id: u64,
    pub hash: u64,
    pub weight: u64,
}

impl Node {
    /// A node with id `id` and weight `weight`; its hash is set when it joins a ring.
    pub fn new(id: u64, weight: u64) -> (r: Node)
        requires
            valid_weight(weight),
        ensures
            r.id == id,
            r.weight == weight,
            r.hash == 0,
    {
        Node { id, hash: 0, weight }
    }
}

/// `a` comes before `b`: by weight, then by id.
pub open spec fn node_before(a: Node, b: Node) -> bool {
    a.weight < b.weight || (a.weight == b.weight && a.id < b.id)
}

/// The nodes are in strictly increasing (weight, id) order and no id appears twice.
pub open spec fn ordered_unique(s: Seq<Node>) -> bool {
    &&& forall|i: int, j: int| 0 <= i < j < s.len() ==> node_before(s[i], s[j])
    &&& forall|i: int, j: int| 0 <= i < s.len() && 0 <= j < s.len() && i != j ==> s[i].id != s[j].id
}

/// The (id, weight) pairs of a node list.
pub open spec fn weighted_ids(s: Seq<Node>) -> Set<(u64, u64)> {
    Set::new(|e: (u64, u64)| exists|i: int| 0 <= i < s.len() && (s[i].id, s[i].weight) == e)
}

/// The (id, weight) pairs after giving node `id` the weight `weight`: its old pair goes.
pub open spec fn reweigh(set: Set<(u64, u64)>, id: u64, weight: u64) -> Set<(u64, u64)> {
    set.filter(|e: (u64, u64)| e.0 != id).insert((id, weight))
}

/// The (id, weight) pairs after inserting the first `k` nodes of `nodes` in turn, each one
/// replacing an earlier node of the same id.
pub open spec fn weighted_ids_of_inserts(nodes: Seq<Node>, k: nat) -> Set<(u64, u64)>
    decreases k,
{
    if k == 0 {
        Set::empty()
    } else {
        reweigh(weighted_ids_of_inserts(nodes, (k - 1) as nat), nodes[k - 1].id, nodes[k - 1].weight)
    }
}

/// The greater of two (score, id) pairs: by score, then by id.
pub open spec fn higher(a: (u64, u64), c: (u64, u64)) -> (u64, u64) {
    if a.0 > c.0 || (a.0 == c.0 && a.1 >= c.1) {
        a
    } else {
        c
    }
}

/// The greatest (score, id) pair among the first `k` (`k >= 1`) of `scores` and `ids`.
pub open spec fn highest(scores: Seq<u64>, ids: Seq<u64>, k: nat) -> (u64, u64)
    decreases k,
{
    if k <= 1 {
        (scores[0], ids[0])
    } else {
        higher(highest(scores, ids, (k - 1) as nat), (scores[k - 1], ids[k - 1]))
    }
}

/// The id with the highest score, the greater id on a tie, or `None` when there is none.
pub fn pick_highest(scores: &Vec<u64>, ids: &Vec<u64>) -> (r: Option<u64>)
    requires
        scores.len() == ids.len(),
    ensures
        ids.len() == 0 ==> r is None,
        ids.len() > 0 ==> r == Some(highest(scores@, ids@, ids.len() as nat).1),
{
    if ids.len() == 0 {
        return None;
    }
    let mut best_score = scores[0];
    let mut best_id = ids[0];
    let mut i: usize = 1;
    while i < ids.len()
        invariant
            scores.len() == ids.len(),
            1 <= i <= ids.len(),
            (best_score, best_id) == highest(scores@, ids@, i as nat),
        decreases ids.len() - i,
    {
        if !(best_score > scores[i] || (best_score == scores[i] && best_id >= ids[i])) {
            best_score = scores[i];
            best_id = ids[i];
        }
        i = i + 1;
    }
    Some(best_id)
}

/// The winner is one of the candidates.
pub proof fn lemma_highest_is_candidate(scores: Seq<u64>, ids: Seq<u64>, k: nat)
    requires
        1 <= k <= ids.len(),
        scores.len() == ids.len(),
    ensures
        exists|i: int| 0 <= i < k && ids[i] == highest(scores, ids, k).1,
    decreases k,
{
    if k > 1 {
        lemma_highest_is_candidate(scores, ids, (k - 1) as nat);
        if highest(scores, ids, k) == (scores[k - 1], ids[k - 1]) {
            assert(ids[k - 1] == highest(scores, ids, k).1);
        }
    } else {
        assert(ids[0] == highest(scores, ids, k).1);
    }
}

/// A CARP ring's node list.
pub struct Ring {
    nodes: Vec<Node>,
    hash_builder: HashBuilder,
}

impl Ring {
    /// The nodes, in increasing (weight, id) order.
    pub closed spec fn node_list(&self) -> Seq<Node> {
        self.nodes@
    }

    /// The builder that nodes and points are hashed with.
    pub closed spec fn builder(&self) -> HashBuilder {
        self.hash_builder
    }

    /// The nodes are ordered by (weight, id), ids are unique, weights are valid, and each node
    /// carries its hash.
    pub open spec fn wf(&self) -> bool {
        &&& ordered_unique(self.node_list())
        &&& forall|i: int|
            0 <= i < self.node_list().len() ==> valid_weight((#[trigger] self.node_list()[i]).weight)
        &&& forall|i: int|
            0 <= i < self.node_list().len() ==> (#[trigger] self.node_list()[i]).hash
                == self.builder().hash_of(self.node_list()[i].id)
    }

    /// The ids of the nodes, in order.
    pub open spec fn ids(&self) -> Seq<u64> {
        self.node_list().map_values(|n: Node| n.id)
    }

    /// The ring's nodes: each one given and, for repeated ids, the last one given.
    pub fn new(nodes: Vec<Node>) -> (r: Self)
        requires
            forall|i: int| 0 <= i < nodes.len() ==> valid_weight(#[trigger] nodes[i].weight),
        ensures
            r.wf(),
            weighted_ids(r.node_list()) == weighted_ids_of_inserts(nodes@, nodes.len() as nat),
    {
        Self::with_hasher(HashBuilder::new(), nodes)
    }

    /// The ring's nodes, hashed with `hash_builder`: each one given and, for repeated ids, the
    /// last one given.
    pub fn with_hasher(hash_builder: HashBuilder, nodes: Vec<Node>) -> (r: Self)
        requires
            forall|i: int| 0 <= i < nodes.len() ==> valid_weight(#[trigger] nodes[i].weight),
        ensures
            r.wf(),
            r.builder() == hash_builder,
            weighted_ids(r.node_list()) == weighted_ids_of_inserts(nodes@, nodes.len() as nat),
    {
        let mut ring = Ring { nodes: Vec::new(), hash_builder };
        proof {
            assert(weighted_ids(ring.node_list()) =~= Set::<(u64, u64)>::empty());
        }
        let mut k: usize = 0;
        while k < nodes.len()
            invariant
                k <= nodes.len(),
                forall|i: int| 0 <= i < nodes.len() ==> valid_weight(#[trigger] nodes[i].weight),
                ring.wf(),
                ring.builder() == hash_builder,
                weighted_ids(ring.node_list()) == weighted_ids_of_inserts(nodes@, k as nat),
            decreases nodes.len() - k,
        {
            ring.insert_node(nodes[k]);
            k = k + 1;
        }
        ring
    }

    /// Position at which a node with this key belongs: after every node that comes before it.
    fn insertion_index(&self, node: Node) -> (k: usize)
        requires
            self.wf(),
            forall|i: int| 0 <= i < self.node_list().len() ==> self.node_list()[i].id != node.id,
        ensures
            k <= self.node_list().len(),
            forall|i: int| 0 <= i < k ==> node_before(self.node_list()[i], node),
            forall|i: int| k <= i < self.node_list().len() ==> node_before(node, self.node_list()[i]),
    {
        let mut k: usize = 0;
        while k < self.nodes.len()
            invariant
                self.wf(),
                forall|i: int| 0 <= i < self.node_list().len() ==> self.node_list()[i].id != node.id,
                k <= self.node_list().len(),
                forall|i: int| 0 <= i < k ==> node_before(self.node_list()[i], node),
            decreases self.nodes.len() - k,
        {
            let e = self.nodes[k];
            if e.weight > node.weight || (e.weight == node.weight && e.id > node.id) {
                proof {
                    assert forall|i: int| k <= i < self.node_list().len() implies node_before(
                        node,
                        self.node_list()[i],
                    ) by {
                        if i > k {
                            assert(node_before(self.node_list()[k as int], self.node_list()[i]));
                        }
                    }
                }
                return k;
            }
            k = k + 1;
        }
        k
    }

    /// Gives the node `new_node.id` the weight `new_node.weight`, replacing the node of that id
    /// if there is one, and keeps the nodes ordered.
    pub fn insert_node(&mut self, new_node: Node)
        requires
            old(self).wf(),
            valid_weight(new_node.weight),
        ensures
            final(self).wf(),
            final(self).builder() == old(self).builder(),
            weighted_ids(final(self).node_list()) == reweigh(
                weighted_ids(old(self).node_list()),
                new_node.id,
                new_node.weight,
            ),
            final(self).node_list().len() == old(self).node_list().len() + if (exists|i: int|
                0 <= i < old(self).node_list().len() && old(self).node_list()[i].id == new_node.id) {
                0int
            } else {
                1int
            },
    {
        let hash = self.hash_builder.gen_hash(new_node.id);
        let node = Node { id: new_node.id, hash, weight: new_node.weight };
        self.remove_node(&node.id);
        let ghost mid = self.nodes@;
        let k = self.insertion_index(node);
        self.nodes.insert(k, node);
        proof {
            let s = self.nodes@;
            assert forall|i: int, j: int| 0 <= i < j < s.len() implies node_before(s[i], s[j]) by {
                if j < k {
                    assert(s[i] == mid[i] && s[j] == mid[j]);
                } else if j == k {
                    assert(s[i] == mid[i]);
                } else if i < k {
                    assert(s[i] == mid[i] && s[j] == mid[j - 1]);
                    assert(node_before(mid[i], node));
                    assert(node_before(node, mid[j - 1]));
                } else if i == k {
                    assert(s[j] == mid[j - 1]);
                } else {
                    assert(s[i] == mid[i - 1] && s[j] == mid[j - 1]);
                }
            }
            assert forall|i: int, j: int|
                0 <= i < s.len() && 0 <= j < s.len() && i != j implies s[i].id != s[j].id by {
                let i2 = if i < k { i } else { i - 1 };
                let j2 = if j < k { j } else { j - 1 };
                if i != k && j != k {
                    assert(s[i] == mid[i2] && s[j] == mid[j2]);
                } else if i == k {
                    assert(s[j] == mid[j2]);
                } else {
                    assert(s[i] == mid[i2]);
                }
            }
            assert forall|i: int| 0 <= i < s.len() implies (#[trigger] s[i]).hash
                == self.builder().hash_of(s[i].id) by {
                if i < k {
                    assert(s[i] == mid[i]);
                } else if i > k {
                    assert(s[i] == mid[i - 1]);
                }
            }
            assert forall|e: (u64, u64)| weighted_ids(s).contains(e) <==> weighted_ids(
                mid,
            ).insert((node.id, node.weight)).contains(e) by {
                if weighted_ids(s).contains(e) {
                    let i = choose|i: int| 0 <= i < s.len() && (s[i].id, s[i].weight) == e;
                    if i < k {
                        assert(s[i] == mid[i]);
                    } else if i > k {
                        assert(s[i] == mid[i - 1]);
                    }
                }
                if weighted_ids(mid).contains(e) {
                    let i = choose|i: int| 0 <= i < mid.len() && (mid[i].id, mid[i].weight) == e;
                    if i < k {
                        assert(s[i] == mid[i]);
                    } else {
                        assert(s[i + 1] == mid[i]);
                    }
                }
                if e == (node.id, node.weight) {
                    assert(s[k as int] == node);
                }
            }
            assert(weighted_ids(s) =~= weighted_ids(mid).insert((node.id, node.weight)));
            assert(reweigh(weighted_ids(old(self).node_list()), node.id, node.weight) =~= weighted_ids(
                mid,
            ).insert((node.id, node.weight)));
        }
    }

    /// Removes the node `id`; the others keep their order. Removing a node that is not in the
    /// ring changes nothing.
    pub fn remove_node(&mut self, id: &u64)
        requires
            old(self).wf(),
        ensures
            final(self).wf(),
            final(self).builder() == old(self).builder(),
            weighted_ids(final(self).node_list()) == weighted_ids(old(self).node_list()).filter(
                |e: (u64, u64)| e.0 != *id,
            ),
            forall|i: int| 0 <= i < final(self).node_list().len() ==> final(self).node_list()[i].id != *id,
            final(self).node_list().len() == old(self).node_list().len() - if (exists|i: int|
                0 <= i < old(self).node_list().len() && old(self).node_list()[i].id == *id) {
                1int
            } else {
                0int
            },
    {
        let mut k: usize = 0;
        while k < self.nodes.len()
            invariant
                k <= self.nodes.len(),
                old(self).wf(),
                self.nodes@ == old(self).nodes@,
                self.hash_builder == old(self).hash_builder,
                forall|j: int| 0 <= j < k ==> self.nodes@[j].id != *id,
            decreases self.nodes.len() - k,
        {
            if self.nodes[k].id == *id {
                let ghost before = self.nodes@;
                self.nodes.remove(k);
                proof {
                    let s = self.nodes@;
                    assert forall|i: int, j: int| 0 <= i < j < s.len() implies node_before(
                        s[i],
                        s[j],
                    ) by {
                        let i2 = if i < k { i } else { i + 1 };
                        let j2 = if j < k { j } else { j + 1 };
                        assert(s[i] == before[i2] && s[j] == before[j2]);
                    }
                    assert forall|i: int, j: int|
                        0 <= i < s.len() && 0 <= j < s.len() && i != j implies s[i].id != s[j].id by {
                        let i2 = if i < k { i } else { i + 1 };
                        let j2 = if j < k { j } else { j + 1 };
                        assert(s[i] == before[i2] && s[j] == before[j2]);
                    }
                    assert forall|i: int| 0 <= i < s.len() implies (#[trigger] s[i]).hash
                        == self.builder().hash_of(s[i].id) by {
                        let i2 = if i < k { i } else { i + 1 };
                        assert(s[i] == before[i2]);
                    }
                    assert forall|i: int| 0 <= i < s.len() implies s[i].id != *id by {
                        let i2 = if i < k { i } else { i + 1 };
                        assert(s[i] == before[i2]);
                        assert(before[k as int].id == *id);
                    }
                    assert forall|e: (u64, u64)| weighted_ids(s).contains(e) <==> weighted_ids(
                        before,
                    ).filter(|e: (u64, u64)| e.0 != *id).contains(e) by {
                        if weighted_ids(s).contains(e) {
                            let i = choose|i: int| 0 <= i < s.len() && (s[i].id, s[i].weight) == e;
                            let i2 = if i < k { i } else { i + 1 };
                            assert(s[i] == before[i2]);
                        }
                        if weighted_ids(before).contains(e) && e.0 != *id {
                            let i = choose|i: int|
                                0 <= i < before.len() && (before[i].id, before[i].weight) == e;
                            if i < k {
                                assert(s[i] == before[i]);
                            } else {
                                assert(i != k);
                                assert(s[i - 1] == before[i]);
                            }
                        }
                    }
                    assert(weighted_ids(s) =~= weighted_ids(before).filter(
                        |e: (u64, u64)| e.0 != *id,
                    ));
                }
                return ;
            }
            k = k + 1;
        }
        proof {
            assert(weighted_ids(self.nodes@) =~= weighted_ids(old(self).nodes@).filter(
                |e: (u64, u64)| e.0 != *id,
            ));
        }
    }

    /// For each node, in order, the combination of its hash with the hash of `point`: the
    /// number that its relative weight scales into its score.
    pub fn point_hashes(&self, point: &u64) -> (r: Vec<u64>)
        requires
            self.wf(),
        ensures
            r.len() == self.node_list().len(),
            forall|i: int|
                0 <= i < r.len() ==> r[i] == self.builder().combined(
                    self.node_list()[i].hash,
                    self.builder().hash_of(*point),
                ),
    {
        let ph = self.hash_builder.gen_hash(*point);
        let mut out: Vec<u64> = Vec::new();
        let mut i: usize = 0;
        while i < self.nodes.len()
            invariant
                i <= self.nodes.len(),
                out.len() == i,
                ph == self.builder().hash_of(*point),
                forall|j: int|
                    0 <= j < i ==> out[j] == self.builder().combined(self.node_list()[j].hash, ph),
            decreases self.nodes.len() - i,
        {
            out.push(self.hash_builder.combine_hash(self.nodes[i].hash, ph));
            i = i + 1;
        }
        out
    }

    /// The ids of the nodes, in order.
    pub fn node_ids(&self) -> (r: Vec<u64>)
        ensures
            r@ == self.ids(),
    {
        let mut out: Vec<u64> = Vec::new();
        let mut i: usize = 0;
        while i < self.nodes.len()
            invariant
                i <= self.nodes.len(),
                out@ == self.ids().take(i as int),
            decreases self.nodes.len() - i,
        {
            out.push(self.nodes[i].id);
            proof {
                assert(out@ =~= self.ids().take(i + 1));
            }
            i = i + 1;
        }
        proof {
            assert(out@ =~= self.ids());
        }
        out
    }

    /// The weights of the nodes, in order.
    pub fn weights(&self) -> (r: Vec<u64>)
        ensures
            r@ == self.node_list().map_values(|n: Node| n.weight),
    {
        let mut out: Vec<u64> = Vec::new();
        let mut i: usize = 0;
        while i < self.nodes.len()
            invariant
                i <= self.nodes.len(),
                out@ == self.node_list().map_values(|n: Node| n.weight).take(i as int),
            decreases self.nodes.len() - i,
        {
            out.push(self.nodes[i].weight);
            proof {
                assert(out@ =~= self.node_list().map_values(|n: Node| n.weight).take(i + 1));
            }
            i = i + 1;
        }
        proof {
            assert(out@ =~= self.node_list().map_values(|n: Node| n.weight));
        }
        out
    }

    /// The node whose score, of `scores` (one per node, in order), is highest, the greater id on
    /// a tie. Fails when the ring is empty.
    pub fn get_node_for_scores(&self, scores: &Vec<u64>) -> (r: Result<u64, RingError>)
        requires
            scores.len() == self.node_list().len(),
        ensures
            self.node_list().len() == 0 ==> r == Err::<u64, RingError>(RingError::EmptyRing),
            self.node_list().len() > 0 ==> r == Ok::<u64, RingError>(
                highest(scores@, self.ids(), self.node_list().len() as nat).1,
            ),
    {
        let ids = self.node_ids();
        match pick_highest(scores, &ids) {
            Some(id) => Ok(id),
            None => Err(RingError::EmptyRing),
        }
    }

    /// The number of nodes.
    pub fn len(&self) -> (r: usize)
        ensures
            r == self.node_list().len(),
    {
        self.nodes.len()
    }

    /// Whether the ring holds no node.
    pub fn is_empty(&self) -> (r: bool)
        ensures
            r == (self.node_list().len() == 0),
    {
        self.nodes.len() == 0
    }
}

/// Inserting a node that was not in the ring and removing it again leaves the ring's
/// (id, weight) pairs as they were; the order by (weight, id) then fixes the node list.
pub proof fn lemma_insert_remove_round_trip(set: Set<(u64, u64)>, id: u64, weight: u64)
    requires
        forall|e: (u64, u64)| set.contains(e) ==> e.0 != id,
    ensures
        reweigh(set, id, weight).filter(|e: (u64, u64)| e.0 != id) == set,
{
    assert(reweigh(set, id, weight).filter(|e: (u64, u64)| e.0 != id) =~= set);
}

/// Two node lists ordered by (weight, id), without repeated ids, that hold the same
/// (id, weight) pairs hold them in the same order.
pub proof fn lemma_ordered_lists_agree(left: Seq<Node>, right: Seq<Node>, i: int)
    requires
        ordered_unique(left),
        ordered_unique(right),
        weighted_ids(left) == weighted_ids(right),
        0 <= i < left.len(),
        0 <= i < right.len(),
    ensures
        left[i].id == right[i].id,
        left[i].weight == right[i].weight,
    decreases i,
{
    if i > 0 {
        lemma_ordered_lists_agree(left, right, i - 1);
    }
    let e1 = (left[i].id, left[i].weight);
    let e2 = (right[i].id, right[i].weight);
    assert(weighted_ids(left).contains(e1));
    assert(weighted_ids(right).contains(e2));
    let j2 = choose|j: int| 0 <= j < right.len() && (right[j].id, right[j].weight) == e1;
    let j1 = choose|j: int| 0 <= j < left.len() && (left[j].id, left[j].weight) == e2;
    if j2 < i {
        lemma_ordered_lists_agree(left, right, j2);
        assert(left[j2].id == left[i].id);
    }
    if j1 < i {
        lemma_ordered_lists_agree(left, right, j1);
        assert(right[j1].id == right[i].id);
    }
    if j2 > i && j1 > i {
        assert(node_before(right[i], right[j2]));
        assert(node_before(left[i], left[j1]));
    }
}

} // verus!
