//! Keyed hashing of `u64` values with SipHash-2-4.
use siphasher::sip::SipHasher;
use std::hash::Hasher;
use vstd::prelude::*;

verus! {

/// The SipHash-2-4 digest, under keys `k0` and `k1`, of the eight bytes that `write_u64` feeds
/// for `v`: its bytes in the machine's native order, so the digest is the same on every machine
/// of one byte order.
pub uninterp spec fn sip_hash(k0: u64, k1: u64, v: u64) -> u64;

/// The SipHash-2-4 digest, under keys `k0` and `k1`, of the bytes that `write_u64` feeds for
/// `a` followed by those it feeds for `b` (in the machine's native byte order).
pub uninterp spec fn sip_hash_pair(k0: u64, k1: u64, a: u64, b: u64) -> u64;

/// Relies on `siphasher::sip::SipHasher`: a hasher keyed with `k0`, `k1` that is fed `v` with
/// `write_u64` finishes with the digest of those eight bytes.
#[verifier::external_body]
fn sip_u64(k0: u64, k1: u64, v: u64) -> (r: u64)
    ensures
        r == sip_hash(k0, k1, v),
{
    let mut hasher = SipHasher::new_with_keys(k0, k1);
    hasher.write_u64(v);
    hasher.finish()
}

/// Relies on `siphasher::sip::SipHasher`: a hasher keyed with `k0`, `k1` that is fed `a` and
/// then `b` with `write_u64` finishes with the digest of those sixteen bytes.
#[verifier::external_body]
fn sip_u64_pair(k0: u64, k1: u64, a: u64, b: u64) -> (r: u64)
    ensures
        r == sip_hash_pair(k0, k1, a, b),
{
    let mut hasher = SipHasher::new_with_keys(k0, k1);
    hasher.write_u64(a);
    hasher.write_u64(b);
    hasher.finish()
}

/// Relies on `rand::random`: a `u64` drawn from the thread-local generator. Nothing is known
/// of the value.
#[verifier::external_body]
pub(crate) fn random_u64() -> (r: u64) {
    rand::random::<u64>()
}

/// A factory of keyed hashers: the two SipHash keys that every hash of a ring is taken under.
#[derive(Clone, Copy, Debug, PartialEq, Eq, Structural)]
pub struct HashBuilder {
    pub k0: u64,
    pub k1: u64,
}

impl HashBuilder {
    /// The hash of `v` under this builder.
    pub open spec fn hash_of(self, v: u64) -> u64 {
        sip_hash(self.k0, self.k1, v)
    }

    /// The order-sensitive combination of two hashes under this builder.
    pub open spec fn combined(self, a: u64, b: u64) -> u64 {
        sip_hash_pair(self.k0, self.k1, a, b)
    }

    /// A builder with the given keys.
    pub fn with_keys(k0: u64, k1: u64) -> (r: Self)
        ensures
            r.k0 == k0,
            r.k1 == k1,
    {
        HashBuilder { k0, k1 }
    }

    /// A builder with keys drawn at random.
    pub fn new() -> (r: Self) {
        let k0 = random_u64();
        let k1 = random_u64();
        HashBuilder { k0, k1 }
    }

    /// Hashes `v` with a fresh hasher from this builder.
    pub fn gen_hash(&self, v: u64) -> (r: u64)
        ensures
            r == self.hash_of(v),
    {
        sip_u64(self.k0, self.k1, v)
    }

    /// Combines two hashes by feeding both, in order, into a fresh hasher from this builder.
    pub fn combine_hash(&self, a: u64, b: u64) -> (r: u64)
        ensures
            r == self.combined(a, b),
    {
        sip_u64_pair(self.k0, self.k1, a, b)
    }
}

} // verus!
