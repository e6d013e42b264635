//! Jump hashing: a key's hash seeds a linear congruential generator whose draws jump forward
//! through the buckets `0..n` until one falls off the end; the last bucket landed on wins.
use crate::hashing::HashBuilder;
use vstd::prelude::*;
use vstd::wrapping::u64_specs;

verus! {

/// Multiplier of the generator that drives the jumps.
pub const JUMP_MULTIPLIER: u64 = 2862933555777941757;

/// `2^31`, the scale of a jump.
pub const JUMP_SCALE: u64 = 0x8000_0000;

/// One step of the generator, in wrapping `u64` arithmetic.
#[verifier::opaque]
pub open spec fn lcg_next(h: u64) -> u64 {
    u64_specs::wrapping_add(u64_specs::wrapping_mul(h, JUMP_MULTIPLIER), 1)
}

/// The bucket that a jump from bucket `b` lands on when the generator is in state `h`:
/// `floor((b + 1) * 2^31 / ((h >> 33) + 1))`.
#[verifier::opaque]
pub open spec fn jump_target(b: int, h: u64) -> int {
    (b + 1) * JUMP_SCALE as int / ((h >> 33u64) as int + 1)
}

/// The last bucket below `n` reached by jumping on from bucket `b` with the generator in
/// state `h`.
pub open spec fn jump_from(h: u64, b: int, n: int) -> int
    decreases n - b,
{
    let h2 = lcg_next(h);
    let j = jump_target(b, h2);
    if 0 <= b && b < j && j < n {
        jump_from(h2, j, n)
    } else {
        b
    }
}

/// The bucket in `0..n` that jump hashing assigns to a key whose hash is `key_hash`.
pub open spec fn jump_bucket(key_hash: u64, n: int) -> int {
    jump_from(key_hash, 0, n)
}

/// A jump never lands before the bucket after the one it starts from.
proof fn lemma_jump_advances(b: int, h: u64)
    requires
        0 <= b,
    ensures
        jump_target(b, h) > b,
{
    reveal(jump_target);
    let d = (h >> 33u64) as int + 1;
    assert((h >> 33u64) < 0x8000_0000u64) by (bit_vector);
    let x = b + 1;
    assert(x * JUMP_SCALE as int >= x * d) by (nonlinear_arith)
        requires
            1 <= d <= JUMP_SCALE as int,
            x >= 1,
    ;
    assert((x * JUMP_SCALE as int) / d >= (x * d) / d) by (nonlinear_arith)
        requires
            x * JUMP_SCALE as int >= x * d,
            d >= 1,
    ;
    assert((x * d) / d == x) by (nonlinear_arith)
        requires
            d >= 1,
    ;
}

/// Jumping on from a bucket below `n` ends below `n`, and not before that bucket.
pub proof fn lemma_jump_from_in_range(h: u64, b: int, n: int)
    requires
        0 <= b < n,
    ensures
        b <= jump_from(h, b, n) < n,
    decreases n - b,
{
    let h2 = lcg_next(h);
    let j = jump_target(b, h2);
    if 0 <= b && b < j && j < n {
        lemma_jump_from_in_range(h2, j, n);
    }
}

/// Every key lands in one of the `n` buckets.
pub proof fn lemma_jump_bucket_in_range(key_hash: u64, n: int)
    requires
        n >= 1,
    ensures
        0 <= jump_bucket(key_hash, n) < n,
{
    lemma_jump_from_in_range(key_hash, 0, n);
}

proof fn lemma_jump_from_grow(h: u64, b: int, n: int)
    requires
        0 <= b < n,
    ensures
        jump_from(h, b, n + 1) == jump_from(h, b, n) || jump_from(h, b, n + 1) == n,
    decreases n - b,
{
    let h2 = lcg_next(h);
    let j = jump_target(b, h2);
    lemma_jump_advances(b, h2);
    if j < n {
        lemma_jump_from_grow(h2, j, n);
    } else if j == n {
        let h3 = lcg_next(h2);
        lemma_jump_advances(j, h3);
        assert(jump_from(h2, j, n + 1) == n);
        assert(jump_from(h, b, n + 1) == n);
    } else {
        assert(jump_from(h, b, n + 1) == b);
        assert(jump_from(h, b, n) == b);
    }
}

/// Growing the ring from `n` to `n + 1` buckets moves a key only into the new bucket `n`:
/// every other key keeps its bucket.
pub proof fn lemma_jump_grow_moves_only_to_new_bucket(key_hash: u64, n: int)
    requires
        n >= 1,
    ensures
        jump_bucket(key_hash, n + 1) == jump_bucket(key_hash, n) || jump_bucket(key_hash, n + 1)
            == n,
{
    lemma_jump_from_grow(key_hash, 0, n);
}

/// One jump: the bucket reached from bucket `b` with the generator in state `h`.
fn jump_step(b: u64, h: u64) -> (j: u64)
    requires
        b < 0x1_0000_0000,
    ensures
        j as int == jump_target(b as int, h),
        j > b,
{
    proof {
        reveal(jump_target);
        lemma_jump_advances(b as int, h);
    }
    let top: u64 = h >> 33u64;
    assert(top < 0x8000_0000u64) by (bit_vector)
        requires
            top == h >> 33u64,
    ;
    let d: u64 = top + 1;
    assert((b + 1) * JUMP_SCALE <= 0x1_0000_0000 * 0x8000_0000) by (nonlinear_arith)
        requires
            b < 0x1_0000_0000,
    ;
    (b + 1) * JUMP_SCALE / d
}

/// One step of the generator.
fn lcg_step(h: u64) -> (r: u64)
    ensures
        r == lcg_next(h),
{
    proof {
        reveal(lcg_next);
    }
    h.wrapping_mul(JUMP_MULTIPLIER).wrapping_add(1)
}

/// The bucket that jump hashing assigns, among `n`, to a key whose hash is `key_hash`.
pub fn jump_hash(key_hash: u64, n: u32) -> (r: u32)
    requires
        n >= 1,
    ensures
        r as int == jump_bucket(key_hash, n as int),
        r < n,
{
    let mut h: u64 = lcg_step(key_hash);
    let mut b: u64 = 0;
    let mut j: u64 = jump_step(b, h);
    while j < n as u64
        invariant
            0 <= b < n,
            b < j,
            j as int == jump_target(b as int, h),
            (if j < n { jump_from(h, j as int, n as int) } else { b as int }) == jump_bucket(
                key_hash,
                n as int,
            ),
        decreases n - b,
    {
        b = j;
        h = lcg_step(h);
        j = jump_step(b, h);
    }
    b as u32
}

/// A ring of `n` integer buckets assigned by jump hashing. It keeps no per-node state.
pub struct Ring {
    nodes: u32,
    hash_builder: HashBuilder,
}

impl Ring {
    /// The number of buckets.
    pub closed spec fn node_count(&self) -> int {
        self.nodes as int
    }

    /// The builder that keys are hashed with.
    pub closed spec fn builder(&self) -> HashBuilder {
        self.hash_builder
    }

    /// A ring has at least one bucket.
    pub closed spec fn wf(&self) -> bool {
        self.nodes >= 1
    }

    /// The bucket that `key` is assigned to.
    pub open spec fn bucket_of(&self, key: u64) -> int {
        jump_bucket(self.builder().hash_of(key), self.node_count())
    }

    /// A ring of `nodes` buckets, hashing under randomly drawn keys.
    pub fn new(nodes: u32) -> (r: Self)
        requires
            nodes >= 1,
        ensures
            r.wf(),
            r.node_count() == nodes,
    {
        Self::with_hasher(HashBuilder::new(), nodes)
    }

    /// A ring of `nodes` buckets, hashing with `hash_builder`.
    pub fn with_hasher(hash_builder: HashBuilder, nodes: u32) -> (r: Self)
        requires
            nodes >= 1,
        ensures
            r.wf(),
            r.node_count() == nodes,
            r.builder() == hash_builder,
    {
        Ring { nodes, hash_builder }
    }

    /// The bucket that `key` is assigned to.
    pub fn get_node(&self, key: &u64) -> (r: u32)
        requires
            self.wf(),
        ensures
            r as int == self.bucket_of(*key),
            r < self.node_count(),
    {
        let key_hash = self.hash_builder.gen_hash(*key);
        jump_hash(key_hash, self.nodes)
    }

    /// The number of buckets.
    pub fn nodes(&self) -> (r: u32)
        ensures
            r == self.node_count(),
    {
        self.nodes
    }
}

} // verus!
