//! Authenticated vector commitments over fixed-arity trees.
//!
//! Two schemes share one interface (`setup`, `commit`, `open`, `verify`):
//! a k-ary Merkle tree hashed with Keccak-256, and a Verkle tree whose
//! internal nodes are KZG polynomial commitments over the BN254 curve.
//! The KZG engine, the Fiat-Shamir multiproof aggregator and the tree
//! logic are verified; the finite-field, curve and hash primitives are
//! reached through a small trusted adapter layer.
use vstd::prelude::*;

pub mod bytes;
pub mod curve;
pub mod field;
pub mod hash;
pub mod kzg;
pub mod merkle;
pub mod multipoint;
pub mod multiproof;
pub mod poly;
pub mod transcript;
pub mod verkle;

verus! {

/// The failures that the KZG engine, the multiproof engines and the
/// Verkle tree can surface. Cryptographic rejection is not an error:
/// `verify` reports it as `Ok(false)`.
#[derive(Debug, Clone, Copy, PartialEq, Eq, Structural)]
pub enum Error {
    /// `KZG::setup` was asked for a degree below one.
    DegreeIsZero,
    /// `KZG::trim` was asked for more powers than the setup produced.
    TrimExceedsSetup,
    /// An opening index lies outside the committed vector.
    InvalidIndex,
    /// `open` or `verify` was called before `commit`.
    UncommittedTree,
    /// A polynomial division during proving left a nonzero remainder,
    /// meaning the claimed evaluations do not match the polynomials.
    DivisionRemainder,
    /// The squeezed evaluation point collided with an opening point.
    InvalidTranscript,
}

} // verus!
