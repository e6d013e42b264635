//! Maglev hashing: every node walks its own permutation of a prime-sized table, and the nodes
//! take turns claiming the next free slot on their walk until the table is full. A key maps in
//! constant time to the node that owns the key's slot.
use crate::hashing::HashBuilder;
use primal::Sieve;
use vstd::arithmetic::div_mod::{
    lemma_fundamental_div_mod, lemma_fundamental_div_mod_converse, lemma_mod_bound,
    lemma_mod_multiples_basic, lemma_small_mod, lemma_sub_mod_noop,
};
use vstd::prelude::*;
use vstd::relations::injective_on;
use vstd::set_lib::{lemma_int_range, lemma_len_subset, lemma_map_size, lemma_subset_equality, set_int_range};

verus! {

/// `p` is a prime number.
pub open spec fn is_prime(p: int) -> bool {
    &&& p >= 2
    &&& forall|d: int| 2 <= d < p ==> #[trigger] (p % d) != 0
}

/// `p` is the least prime that is at least `n`.
pub open spec fn is_least_prime_from(n: int, p: int) -> bool {
    &&& is_prime(p)
    &&& p >= n
    &&& forall|q: int| n <= q < p ==> !is_prime(q)
}

/// Step `k` of the walk that starts at slot `offset` and advances by `skip`, in a table of
/// `m` slots.
pub open spec fn walk(offset: int, skip: int, m: int, k: int) -> int {
    (offset + k * skip) % m
}

/// A prime divides no product of two numbers between zero and itself.
proof fn lemma_prime_product_nonzero(p: int, a: int, b: int)
    requires
        is_prime(p),
        0 < a < p,
        0 < b < p,
    ensures
        (a * b) % p != 0,
    decreases b,
{
    if b == 1 {
        assert(a * b == a);
        lemma_small_mod(a as nat, p as nat);
    } else {
        let r = p % b;
        let q = p / b;
        assert(p % b != 0);
        lemma_fundamental_div_mod(p, b);
        lemma_mod_bound(p, b);
        lemma_prime_product_nonzero(p, a, r);
        if (a * b) % p == 0 {
            let t = (a * b) / p;
            lemma_fundamental_div_mod(a * b, p);
            assert(a * r == (a - q * t) * p) by (nonlinear_arith)
                requires
                    p == b * q + r,
                    a * b == p * t + 0,
            ;
            lemma_mod_multiples_basic(a - q * t, p);
        }
    }
}

/// In a prime-sized table, a walk whose step is not a multiple of the size visits distinct
/// slots in its first `m` steps.
proof fn lemma_walk_injective(offset: int, skip: int, m: int, k1: int, k2: int)
    requires
        is_prime(m),
        0 < skip < m,
        0 <= k1 < k2 < m,
    ensures
        walk(offset, skip, m, k1) != walk(offset, skip, m, k2),
{
    let x = offset + k2 * skip;
    let y = offset + k1 * skip;
    if walk(offset, skip, m, k1) == walk(offset, skip, m, k2) {
        lemma_sub_mod_noop(x, y, m);
        assert(x - y == (k2 - k1) * skip) by (nonlinear_arith)
            requires
                x == offset + k2 * skip,
                y == offset + k1 * skip,
        ;
        assert(x % m == y % m);
        lemma_small_mod(0, m as nat);
        assert(((x % m) - (y % m)) % m == 0);
        lemma_prime_product_nonzero(m, k2 - k1, skip);
    }
}

/// In a prime-sized table, the first `m` steps of such a walk visit every slot.
pub proof fn lemma_walk_covers(offset: int, skip: int, m: int, slot: int)
    requires
        is_prime(m),
        0 < skip < m,
        0 <= slot < m,
    ensures
        exists|k: int| 0 <= k < m && #[trigger] walk(offset, skip, m, k) == slot,
{
    let dom = set_int_range(0, m);
    let f = |k: int| walk(offset, skip, m, k);
    lemma_int_range(0, m);
    assert(injective_on(f, dom)) by {
        assert forall|k1: int, k2: int|
            dom.contains(k1) && dom.contains(k2) && #[trigger] f(k1) == #[trigger] f(k2) implies k1
            == k2 by {
            if k1 < k2 {
                lemma_walk_injective(offset, skip, m, k1, k2);
            } else if k2 < k1 {
                lemma_walk_injective(offset, skip, m, k2, k1);
            }
        }
    }
    let img = dom.map(f);
    lemma_map_size(dom, img, f);
    assert(img.subset_of(dom)) by {
        assert forall|c: int| img.contains(c) implies dom.contains(c) by {
            let k = choose|k: int| dom.contains(k) && c == f(k);
            lemma_mod_bound(offset + k * skip, m);
        }
    }
    lemma_subset_equality(img, dom);
    assert(dom.contains(slot));
    assert(img.contains(slot));
    let k = choose|k: int| dom.contains(k) && slot == f(k);
    assert(walk(offset, skip, m, k) == slot);
}

/// The slots of `table` that a node has claimed; a free slot holds `usize::MAX`.
pub open spec fn claimed(table: Seq<usize>) -> Set<int> {
    Set::new(|c: int| 0 <= c < table.len() && table[c] != usize::MAX)
}

/// Node `j` owns at least one slot of `table`.
pub open spec fn owns_slot(table: Seq<usize>, j: int) -> bool {
    exists|c: int| 0 <= c < table.len() && table[c] == j
}

/// The slots of `table` that node `j` owns.
pub open spec fn owned(table: Seq<usize>, j: int) -> Set<int> {
    Set::new(|c: int| 0 <= c < table.len() && table[c] == j)
}

/// The number of slots that node `j` of `n` gets when `m` slots are dealt out in turns:
/// `floor(m / n)`, and one more for the first `m mod n` nodes.
pub open spec fn share(m: int, n: int, j: int) -> int {
    m / n + if j < m % n {
        1int
    } else {
        0int
    }
}

/// The first step, from step `k` on, at which the walk that starts at `offset` and advances by
/// `skip` reaches a free slot of `table`; `m` if there is none.
pub open spec fn first_free(table: Seq<usize>, offset: int, skip: int, m: int, k: int) -> int
    decreases m - k,
{
    if k >= m || table[walk(offset, skip, m, k)] == usize::MAX {
        k
    } else {
        first_free(table, offset, skip, m, k + 1)
    }
}

/// Node `j` takes its turn: from the step where it stopped, it claims the first free slot on
/// its walk, and will go on from the step after.
pub open spec fn take_turn(
    state: (Seq<usize>, Seq<int>),
    offsets: Seq<usize>,
    skips: Seq<usize>,
    m: int,
    j: int,
) -> (Seq<usize>, Seq<int>) {
    let k = first_free(state.0, offsets[j] as int, skips[j] as int, m, state.1[j]);
    (
        state.0.update(walk(offsets[j] as int, skips[j] as int, m, k), j as usize),
        state.1.update(j, k + 1),
    )
}

/// The table (free slots hold `usize::MAX`) and the step each node has reached on its walk,
/// after `t` turns taken by the nodes in order `0, 1, .., n - 1, 0, 1, ..`.
pub open spec fn fill(offsets: Seq<usize>, skips: Seq<usize>, m: int, t: nat) -> (
    Seq<usize>,
    Seq<int>,
)
    decreases t,
{
    if t == 0 {
        (Seq::new(m as nat, |c: int| usize::MAX), Seq::new(offsets.len(), |j: int| 0int))
    } else {
        take_turn(
            fill(offsets, skips, m, (t - 1) as nat),
            offsets,
            skips,
            m,
            (t - 1) % (offsets.len() as int),
        )
    }
}

/// `table` is the lookup table of `m` slots for the nodes whose walks start at `offsets` and
/// advance by `skips`: the table after `m` turns of the fill, with every slot claimed by a
/// node. The slots are dealt out evenly, node `j` owning `share(m, n, j)` of them, so that,
/// when there are no more nodes than slots, every node owns a slot.
pub open spec fn is_lookup_table(table: Seq<usize>, offsets: Seq<usize>, skips: Seq<usize>, m: int) -> bool {
    &&& table == fill(offsets, skips, m, m as nat).0
    &&& table.len() == m
    &&& forall|c: int| 0 <= c < m ==> (#[trigger] table[c]) < offsets.len()
    &&& forall|j: int| 0 <= j < offsets.len() ==> (#[trigger] owned(table, j)).len() == share(m, offsets.len() as int, j)
    &&& offsets.len() <= m ==> forall|j: int| 0 <= j < offsets.len() ==> #[trigger] owns_slot(table, j)
}

/// Progress of the fill with `i` slots claimed: every step a node has passed on its walk is a
/// claimed slot, and every claimed slot names a node.
pub open spec fn fill_progress(
    entry: Seq<usize>,
    next: Seq<usize>,
    offsets: Seq<usize>,
    skips: Seq<usize>,
    m: int,
    i: int,
) -> bool {
    &&& walks_fit(offsets, skips, m)
    &&& next.len() == offsets.len()
    &&& entry.len() == m
    &&& claimed(entry).len() == i
    &&& forall|j: int, k: int|
        0 <= j < offsets.len() && 0 <= k < next[j] ==> entry[#[trigger] walk(
            offsets[j] as int,
            skips[j] as int,
            m,
            k,
        )] != usize::MAX
    &&& forall|j: int| 0 <= j < offsets.len() ==> #[trigger] next[j] <= m
    &&& forall|c: int| 0 <= c < m && entry[c] != usize::MAX ==> (#[trigger] entry[c]) < offsets.len()
}

/// The step each node has reached, as numbers.
pub open spec fn steps(next: Seq<usize>) -> Seq<int> {
    next.map_values(|k: usize| k as int)
}

/// Claiming a free slot for node `j` adds it to the slots that `j` owns and leaves the others'.
proof fn lemma_claim_owned(table: Seq<usize>, c: int, j: usize, j2: int)
    requires
        0 <= c < table.len(),
        table[c] == usize::MAX,
        j != usize::MAX,
        0 <= j2 < usize::MAX,
    ensures
        owned(table, j2).finite(),
        j2 == j ==> owned(table.update(c, j), j2).len() == owned(table, j2).len() + 1,
        j2 != j ==> owned(table.update(c, j), j2).len() == owned(table, j2).len(),
{
    lemma_int_range(0, table.len() as int);
    lemma_len_subset(owned(table, j2), set_int_range(0, table.len() as int));
    if j2 == j {
        assert(owned(table.update(c, j), j2) =~= owned(table, j2).insert(c));
    } else {
        assert(owned(table.update(c, j), j2) =~= owned(table, j2));
    }
}

proof fn lemma_claimed_finite(table: Seq<usize>)
    ensures
        claimed(table).finite(),
        claimed(table).len() <= table.len(),
{
    lemma_int_range(0, table.len() as int);
    lemma_len_subset(claimed(table), set_int_range(0, table.len() as int));
}

/// Claiming a free slot adds it to the claimed ones.
proof fn lemma_claim(table: Seq<usize>, c: int, j: usize)
    requires
        0 <= c < table.len(),
        table[c] == usize::MAX,
        j != usize::MAX,
    ensures
        claimed(table.update(c, j)).len() == claimed(table).len() + 1,
{
    lemma_claimed_finite(table);
    assert(claimed(table.update(c, j)) =~= claimed(table).insert(c));
}

/// With fewer than `m` slots claimed, a walk whose first `done` slots are all claimed reaches a
/// free slot at some later step below `m`.
proof fn lemma_free_slot_ahead(table: Seq<usize>, offset: int, skip: int, m: int, done: int)
    requires
        is_prime(m),
        0 < skip < m,
        table.len() == m,
        claimed(table).len() < m,
        forall|k: int| 0 <= k < done ==> table[#[trigger] walk(offset, skip, m, k)] != usize::MAX,
    ensures
        exists|k: int| done <= k < m && table[#[trigger] walk(offset, skip, m, k)] == usize::MAX,
{
    lemma_claimed_finite(table);
    lemma_int_range(0, m);
    if forall|c: int| 0 <= c < m ==> table[c] != usize::MAX {
        assert(set_int_range(0, m).subset_of(claimed(table)));
        lemma_len_subset(set_int_range(0, m), claimed(table));
    }
    let u = choose|c: int| 0 <= c < m && table[c] == usize::MAX;
    lemma_walk_covers(offset, skip, m, u);
    let k = choose|k: int| 0 <= k < m && #[trigger] walk(offset, skip, m, k) == u;
    assert(done <= k);
}

/// Step `k` of a walk through a table of `m` slots.
fn walk_step(offset: usize, skip: usize, m: usize, k: usize) -> (c: usize)
    requires
        0 < m,
        offset < m,
        skip < m,
        k < m,
    ensures
        c as int == walk(offset as int, skip as int, m as int, k as int),
        c < m,
{
    assert((k as int) * (skip as int) <= 0xFFFF_FFFF_FFFF_FFFFint * 0xFFFF_FFFF_FFFF_FFFFint)
        by (nonlinear_arith)
        requires
            0 <= k <= 0xFFFF_FFFF_FFFF_FFFFint,
            0 <= skip <= 0xFFFF_FFFF_FFFF_FFFFint,
    ;
    let v: u128 = (offset as u128 + (k as u128) * (skip as u128)) % (m as u128);
    v as usize
}

/// The walks that start at `offsets` and advance by `skips` fit a table of prime size `m`.
pub open spec fn walks_fit(offsets: Seq<usize>, skips: Seq<usize>, m: int) -> bool {
    &&& is_prime(m)
    &&& offsets.len() == skips.len()
    &&& forall|j: int| 0 <= j < offsets.len() ==> #[trigger] offsets[j] < m
    &&& forall|j: int| 0 <= j < skips.len() ==> 0 < #[trigger] skips[j] < m
}

/// Fills a table of `m` slots for the nodes whose walks start at `offsets` and advance by
/// `skips`: the nodes take turns, in order, each claiming the first free slot on its own walk,
/// until no slot is free.
pub fn populate(offsets: &Vec<usize>, skips: &Vec<usize>, m: usize) -> (table: Vec<usize>)
    requires
        walks_fit(offsets@, skips@, m as int),
        1 <= offsets.len(),
    ensures
        is_lookup_table(table@, offsets@, skips@, m as int),
{
    let n = offsets.len();
    let mut next: Vec<usize> = Vec::new();
    while next.len() < n
        invariant
            next.len() <= n,
            forall|j: int| 0 <= j < next.len() ==> next[j] == 0,
        decreases n - next.len(),
    {
        next.push(0);
    }
    let mut entry: Vec<usize> = Vec::new();
    while entry.len() < m
        invariant
            entry.len() <= m,
            forall|c: int| 0 <= c < entry.len() ==> entry[c] == usize::MAX,
        decreases m - entry.len(),
    {
        entry.push(usize::MAX);
    }
    proof {
        assert(claimed(entry@) =~= Set::<int>::empty());
        assert forall|j: int| 0 <= j < n implies (#[trigger] owned(entry@, j)).len() == 0 by {
            assert(owned(entry@, j) =~= Set::<int>::empty());
        }
        assert(entry@ =~= fill(offsets@, skips@, m as int, 0).0);
        assert(steps(next@) =~= fill(offsets@, skips@, m as int, 0).1);
    }
    let ghost mut rounds: int = 0;
    let ghost mut turn: int = 0;
    let mut i: usize = 0;
    while i < m
        invariant
            n == offsets.len(),
            n >= 1,
            i <= m,
            fill_progress(entry@, next@, offsets@, skips@, m as int, i as int),
            entry@ == fill(offsets@, skips@, m as int, i as nat).0,
            steps(next@) == fill(offsets@, skips@, m as int, i as nat).1,
            i < m ==> (i == 0 || i >= n),
            i < m ==> turn == 0,
            0 <= turn < n,
            0 <= rounds,
            i == rounds * n + turn,
            forall|j: int|
                0 <= j < n ==> (#[trigger] owned(entry@, j)).len() == rounds + if j < turn {
                    1int
                } else {
                    0int
                },
            forall|j: int| 0 <= j < n && j < i ==> #[trigger] owns_slot(entry@, j),
        decreases m - i,
    {
        let ghost i0 = i;
        let mut j: usize = 0;
        while j < n && i < m
            invariant
                n == offsets.len(),
                n >= 1,
                i <= m,
                j <= n,
                i == i0 + j,
                i0 < m,
                0 <= rounds,
                i0 == rounds * n,
                i == j || i >= n,
                fill_progress(entry@, next@, offsets@, skips@, m as int, i as int),
                entry@ == fill(offsets@, skips@, m as int, i as nat).0,
                steps(next@) == fill(offsets@, skips@, m as int, i as nat).1,
                forall|j2: int|
                    0 <= j2 < n ==> (#[trigger] owned(entry@, j2)).len() == rounds + if j2 < j {
                        1int
                    } else {
                        0int
                    },
                forall|j: int| 0 <= j < n && j < i ==> #[trigger] owns_slot(entry@, j),
            decreases n - j,
        {
            let offset = offsets[j];
            let skip = skips[j];
            let ghost start = next[j as int] as int;
            let ghost prev_next = next@;
            proof {
                lemma_free_slot_ahead(entry@, offset as int, skip as int, m as int, start);
            }
            let mut c = walk_step(offset, skip, m, next[j]);
            while entry[c] != usize::MAX
                invariant
                    n == offsets.len(),
                    j < n,
                    offset == offsets[j as int],
                    skip == skips[j as int],
                    i < m,
                    fill_progress(entry@, next@, offsets@, skips@, m as int, i as int),
                    next[j as int] < m,
                    c as int == walk(offset as int, skip as int, m as int, next[j as int] as int),
                    next@.len() == prev_next.len(),
                    forall|j2: int| 0 <= j2 < n && j2 != j ==> next[j2] == prev_next[j2],
                    first_free(entry@, offset as int, skip as int, m as int, next[j as int] as int)
                        == first_free(entry@, offset as int, skip as int, m as int, start),
                decreases m - next[j as int],
            {
                let advanced = next[j] + 1;
                next.set(j, advanced);
                proof {
                    lemma_free_slot_ahead(entry@, offset as int, skip as int, m as int, advanced as int);
                }
                c = walk_step(offset, skip, m, next[j]);
            }
            let step = next[j];
            proof {
                lemma_claim(entry@, c as int, j);
                assert forall|j2: int| 0 <= j2 < n implies #[trigger] owned(entry@.update(c as int, j), j2).len()
                    == rounds + if j2 < j + 1 {
                    1int
                } else {
                    0int
                } by {
                    lemma_claim_owned(entry@, c as int, j, j2);
                }
                lemma_fundamental_div_mod_converse(i as int, n as int, rounds, j as int);
                assert(first_free(entry@, offset as int, skip as int, m as int, step as int) == step);
            }
            let ghost before = entry@;
            entry.set(c, j);
            next.set(j, step + 1);
            proof {
                let prev = fill(offsets@, skips@, m as int, i as nat);
                assert(prev.1[j as int] == start);
                assert(entry@ == fill(offsets@, skips@, m as int, (i + 1) as nat).0);
                assert(steps(next@) =~= fill(offsets@, skips@, m as int, (i + 1) as nat).1);
                assert forall|j2: int| 0 <= j2 < n && j2 < i + 1 implies #[trigger] owns_slot(
                    entry@,
                    j2,
                ) by {
                    if j2 == j {
                        assert(entry[c as int] == j2);
                    } else {
                        assert(owns_slot(before, j2));
                        let c2 = choose|c2: int| 0 <= c2 < m && before[c2] == j2;
                        assert(entry[c2] == j2);
                    }
                }
                assert forall|j2: int, k: int|
                    0 <= j2 < n && 0 <= k < next[j2] implies entry[#[trigger] walk(
                        offsets[j2] as int,
                        skips[j2] as int,
                        m as int,
                        k,
                    )] != usize::MAX by {
                    if j2 == j && k == step {
                    } else {
                        assert(before[walk(offsets[j2] as int, skips[j2] as int, m as int, k)]
                            != usize::MAX);
                    }
                }
                assert forall|c2: int| 0 <= c2 < m && entry[c2] != usize::MAX implies (
                #[trigger] entry[c2]) < n by {
                    if c2 != c as int {
                        assert(before[c2] != usize::MAX);
                    }
                }
            }
            i = i + 1;
            j = j + 1;
        }
        proof {
            if j == n {
                rounds = rounds + 1;
                turn = 0;
                assert(i == rounds * n + turn) by (nonlinear_arith)
                    requires
                        i == i0 + j,
                        i0 == (rounds - 1) * n,
                        j == n,
                        turn == 0,
                ;
                assert forall|j2: int| 0 <= j2 < n implies (#[trigger] owned(entry@, j2)).len()
                    == rounds + if j2 < turn {
                    1int
                } else {
                    0int
                } by {}
            } else {
                turn = j as int;
            }
        }
    }
    proof {
        lemma_claimed_finite(entry@);
        lemma_int_range(0, m as int);
        assert(claimed(entry@).subset_of(set_int_range(0, m as int)));
        lemma_subset_equality(claimed(entry@), set_int_range(0, m as int));
        assert forall|c: int| 0 <= c < m implies (#[trigger] entry[c]) < n by {
            assert(set_int_range(0, m as int).contains(c));
        }
        assert forall|j: int| 0 <= j < n && n <= m implies #[trigger] owns_slot(entry@, j) by {
            assert(j < i);
        }
        lemma_fundamental_div_mod_converse(m as int, n as int, rounds, turn);
    }
    entry
}

/// Relies on `primal::Sieve`: a sieve built for `limit` knows every number up to at least
/// `limit`, and `primes_from(n)` yields the primes from `n` (inclusive) in increasing order.
/// With `limit` at least `2 * n`, Bertrand's postulate puts a prime between `n` and the limit,
/// so the first one yielded is the least prime at least `n`.
#[verifier::external_body]
fn least_prime_from(n: usize, limit: usize) -> (p: usize)
    requires
        1 <= n,
        n <= limit / 2,
    ensures
        is_least_prime_from(n as int, p as int),
{
    Sieve::new(limit).primes_from(n).next().expect("a prime lies between n and 2n")
}

/// Where each node's walk starts, in a table of `m` slots: its hash under `b`, modulo `m`.
pub open spec fn offsets_for(ids: Seq<u64>, b: HashBuilder, m: int) -> Seq<usize> {
    Seq::new(ids.len(), |j: int| (b.hash_of(ids[j]) as int % m) as usize)
}

/// How far each node's walk advances, in a table of `m` slots: its hash under `b`, modulo
/// `m - 1`, plus one.
pub open spec fn skips_for(ids: Seq<u64>, b: HashBuilder, m: int) -> Seq<usize> {
    Seq::new(ids.len(), |j: int| (b.hash_of(ids[j]) as int % (m - 1) + 1) as usize)
}

/// A hashing ring implemented with maglev hashing.
pub struct Ring {
    nodes: Vec<u64>,
    lookup: Vec<usize>,
    hash_builder: HashBuilder,
}

impl Ring {
    /// The nodes, in the order they were given.
    pub closed spec fn node_ids(&self) -> Seq<u64> {
        self.nodes@
    }

    /// The lookup table: for each slot, the index of the node that owns it.
    pub closed spec fn table(&self) -> Seq<usize> {
        self.lookup@
    }

    /// The builder that keys are hashed with; it also placed the starts of the walks.
    pub closed spec fn builder(&self) -> HashBuilder {
        self.hash_builder
    }

    /// A ring has a node, and every slot of its table names one of its nodes.
    pub open spec fn wf(&self) -> bool {
        &&& self.node_ids().len() >= 1
        &&& self.table().len() >= 2
        &&& forall|c: int| 0 <= c < self.table().len() ==> #[trigger] self.table()[c] < self.node_ids().len()
    }

    /// The table is the lookup table of the ring's nodes, walking from their hashes under the
    /// ring's builder, in steps drawn from their hashes under some other builder.
    pub open spec fn has_table_for_some_skips(&self) -> bool {
        exists|skip_builder: HashBuilder|
            is_lookup_table(
                self.table(),
                offsets_for(self.node_ids(), self.builder(), self.table().len() as int),
                #[trigger] skips_for(self.node_ids(), skip_builder, self.table().len() as int),
                self.table().len() as int,
            )
    }

    /// The node that `key` maps to: the owner of slot `hash(key) mod M`.
    pub open spec fn node_of(&self, key: u64) -> u64 {
        self.node_ids()[self.table()[self.builder().hash_of(key) as int % self.table().len() as int] as int]
    }

    /// A ring over `nodes` whose table has at least a hundred slots per node; the hashes are
    /// keyed at random.
    pub fn new(nodes: Vec<u64>) -> (r: Self)
        requires
            1 <= nodes.len() <= usize::MAX / 200,
        ensures
            r.wf(),
            r.node_ids() == nodes@,
            is_least_prime_from(nodes.len() * 100, r.table().len() as int),
            r.has_table_for_some_skips(),
    {
        let capacity_hint = nodes.len() * 100;
        Self::with_capacity_hint(nodes, capacity_hint)
    }

    /// A ring over `nodes` whose table has as many slots as the least prime at least
    /// `capacity_hint`; the hashes are keyed at random. A ring rebuilt after a change of nodes
    /// should keep its capacity.
    pub fn with_capacity_hint(nodes: Vec<u64>, capacity_hint: usize) -> (r: Self)
        requires
            1 <= nodes.len(),
            capacity_hint <= usize::MAX / 2,
        ensures
            r.wf(),
            r.node_ids() == nodes@,
            is_least_prime_from(capacity_hint as int, r.table().len() as int),
            r.has_table_for_some_skips(),
    {
        let offset_builder = HashBuilder::new();
        let skip_builder = HashBuilder::new();
        let r = Self::with_hashers(nodes, capacity_hint, offset_builder, skip_builder);
        proof {
            let m = r.table().len() as int;
            assert(is_lookup_table(
                r.table(),
                offsets_for(r.node_ids(), r.builder(), m),
                skips_for(r.node_ids(), skip_builder, m),
                m,
            ));
        }
        r
    }

    /// A ring over `nodes` whose table has as many slots as the least prime `M` at least
    /// `capacity_hint`. Each node walks the table from its hash under `offset_builder` modulo
    /// `M`, in steps of its hash under `skip_builder` modulo `M - 1`, plus one; keys are hashed
    /// with `offset_builder`.
    pub fn with_hashers(
        nodes: Vec<u64>,
        capacity_hint: usize,
        offset_builder: HashBuilder,
        skip_builder: HashBuilder,
    ) -> (r: Self)
        requires
            1 <= nodes.len(),
            capacity_hint <= usize::MAX / 2,
        ensures
            r.wf(),
            r.node_ids() == nodes@,
            r.builder() == offset_builder,
            is_least_prime_from(capacity_hint as int, r.table().len() as int),
            is_lookup_table(
                r.table(),
                offsets_for(nodes@, offset_builder, r.table().len() as int),
                skips_for(nodes@, skip_builder, r.table().len() as int),
                r.table().len() as int,
            ),
    {
        let start = if capacity_hint == 0 {
            1
        } else {
            capacity_hint
        };
        let m = least_prime_from(start, start * 2);
        proof {
            if capacity_hint == 0 {
                assert(!is_prime(0));
            }
        }
        let n = nodes.len();
        let mut offsets: Vec<usize> = Vec::new();
        let mut skips: Vec<usize> = Vec::new();
        let mut j: usize = 0;
        while j < n
            invariant
                j <= n,
                n == nodes.len(),
                m >= 2,
                offsets@ == offsets_for(nodes@, offset_builder, m as int).take(j as int),
                skips@ == skips_for(nodes@, skip_builder, m as int).take(j as int),
            decreases n - j,
        {
            let offset = (offset_builder.gen_hash(nodes[j]) % (m as u64)) as usize;
            let skip = (skip_builder.gen_hash(nodes[j]) % ((m - 1) as u64)) as usize + 1;
            offsets.push(offset);
            skips.push(skip);
            proof {
                assert(offsets@ =~= offsets_for(nodes@, offset_builder, m as int).take(j + 1));
                assert(skips@ =~= skips_for(nodes@, skip_builder, m as int).take(j + 1));
            }
            j = j + 1;
        }
        proof {
            assert(offsets@ =~= offsets_for(nodes@, offset_builder, m as int));
            assert(skips@ =~= skips_for(nodes@, skip_builder, m as int));
        }
        let lookup = populate(&offsets, &skips, m);
        Ring { nodes, lookup, hash_builder: offset_builder }
    }

    /// The number of nodes.
    pub fn nodes(&self) -> (r: usize)
        ensures
            r == self.node_ids().len(),
    {
        self.nodes.len()
    }

    /// The number of slots of the lookup table.
    pub fn capacity(&self) -> (r: usize)
        ensures
            r == self.table().len(),
    {
        self.lookup.len()
    }

    /// The node that `key` maps to: the owner of the slot at the key's hash modulo the capacity.
    pub fn get_node(&self, key: &u64) -> (r: u64)
        requires
            self.wf(),
        ensures
            r == self.node_of(*key),
    {
        let slot = (self.hash_builder.gen_hash(*key) % (self.lookup.len() as u64)) as usize;
        self.nodes[self.lookup[slot]]
    }
}

} // verus!
