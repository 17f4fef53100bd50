//! Keccak-256, the hash behind Merkle nodes and Fiat-Shamir challenges.
use keccak_asm::Digest;
use vstd::prelude::*;

verus! {

/// The Keccak-256 digest of a byte string. The function is fixed by
/// the algorithm, so the digest depends on the input bytes alone.
pub uninterp spec fn keccak_of(input: Seq<u8>) -> Seq<u8>;

/// Relies on `keccak_asm::Keccak256`: the Keccak-256 digest of the
/// input, 32 bytes long.
#[verifier::external_body]
pub(crate) fn keccak256(input: &Vec<u8>) -> (r: [u8; 32])
    ensures
        r@ == keccak_of(input@),
        r@.len() == 32,
{
    let digest = keccak_asm::Keccak256::digest(input.as_slice());
    let mut out = [0u8; 32];
    out.copy_from_slice(&digest);
    out
}

} // verus!
