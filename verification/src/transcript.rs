//! The Fiat-Shamir transcript: Keccak-256 over a canonical byte
//! stream.
//!
//! Points and scalars are absorbed as 32-byte big-endian field
//! elements, and an element that is zero contributes nothing — the
//! zero-skipping discipline the on-chain verifier expects. A `G1`
//! point contributes its coordinates and, for the identity, the set
//! flag as a third element of value one.
use crate::bytes::{append_bytes32, be_val, bytes32_is_zero};
use crate::curve::G1Pt;
use crate::field::{fr_mod, Scalar};
use crate::hash::{keccak256, keccak_of};
use vstd::prelude::*;

verus! {

/// One 32-byte big-endian field element of value one: what the
/// identity flag of a point contributes.
pub open spec fn one_fe_bytes() -> Seq<u8> {
    Seq::new(
        32,
        |i: int|
            if i == 31 {
                1u8
            } else {
                0u8
            },
    )
}

/// Absorbing one field element: its bytes if nonzero, nothing if
/// zero.
pub open spec fn absorb_fe_spec(acc: Seq<u8>, b: Seq<u8>) -> Seq<u8> {
    if be_val(b) == 0 {
        acc
    } else {
        acc + b
    }
}

/// Absorbing a `G1` point: its `x` and `y` coordinates, each iff
/// nonzero, then the identity flag iff set.
pub open spec fn absorb_g1_spec(acc: Seq<u8>, p: G1Pt) -> Seq<u8> {
    let acc2 = absorb_fe_spec(absorb_fe_spec(acc, p.x@), p.y@);
    if p.inf {
        acc2 + one_fe_bytes()
    } else {
        acc2
    }
}

/// The scalar a finished transcript squeezes: the digest read as a
/// big-endian integer, reduced modulo the field order.
pub open spec fn challenge_of(bytes: Seq<u8>) -> nat {
    be_val(keccak_of(bytes)) % fr_mod()
}

/// Absorbs a scalar, skipping it when zero.
pub fn absorb_scalar(buf: &mut Vec<u8>, s: &Scalar)
    requires
        s.wf(),
    ensures
        final(buf)@ == absorb_fe_spec(old(buf)@, s.bytes@),
{
    if !s.is_zero() {
        append_bytes32(buf, &s.bytes);
    }
}

/// Absorbs a `G1` point with zero-skipping on its elements.
pub fn absorb_g1(buf: &mut Vec<u8>, p: &G1Pt)
    ensures
        final(buf)@ == absorb_g1_spec(old(buf)@, *p),
{
    if !bytes32_is_zero(&p.x) {
        append_bytes32(buf, &p.x);
    }
    if !bytes32_is_zero(&p.y) {
        append_bytes32(buf, &p.y);
    }
    if p.inf {
        let ghost mid = buf@;
        let mut i: usize = 0;
        while i < 31
            invariant
                i <= 31,
                buf@ == mid + one_fe_bytes().take(i as int),
            decreases 31 - i,
        {
            buf.push(0u8);
            proof {
                assert(buf@ =~= mid + one_fe_bytes().take(i + 1));
            }
            i = i + 1;
        }
        buf.push(1u8);
        proof {
            assert(buf@ =~= mid + one_fe_bytes());
        }
    }
}

/// Finishes the transcript: hash the stream and reduce into `Fr`.
pub fn squeeze(buf: &Vec<u8>) -> (r: Scalar)
    ensures
        r.wf(),
        r.val() == challenge_of(buf@),
{
    let digest = keccak256(buf);
    let mut v: Vec<u8> = Vec::new();
    append_bytes32(&mut v, &digest);
    proof {
        assert(v@ =~= digest@);
    }
    Scalar::from_be_bytes_mod_order(&v)
}

} // verus!
