//! Consistent-assignment hashing rings: deterministic maps from an unbounded key space onto a
//! finite, changing set of nodes, stable under node churn.
//!
//! Node identifiers and points are `u64` values; a caller that names its nodes otherwise keeps
//! its own table from handle to node. Every ring is keyed by a [`hashing::HashBuilder`], so two
//! rings built with the same keys agree on every assignment.
use vstd::prelude::*;

pub mod carp;
pub mod circle;
pub mod consistent;
pub mod hashing;
pub mod jump;
pub mod maglev;
pub mod mpc;
pub mod rendezvous;
pub mod weighted_rendezvous;

verus! {

/// Why a lookup failed.
#[derive(Clone, Copy, Debug, PartialEq, Eq, Structural)]
pub enum RingError {
    /// The ring holds no node to map the point to.
    EmptyRing,
}

} // verus!
