//! The BN254 curve adapter: affine points in canonical byte form and
//! trusted wrappers over `ark_bn254` / `ark_ec` for the group
//! operations, multi-scalar multiplication, the pairing check and the
//! FFT evaluation domain.
//!
//! Group elements are opaque to the proofs: each operation's result
//! is named by an uninterpreted function of the operands, which is
//! enough to show that provers and verifiers compute the same points
//! from the same data.
use ark_bn254::{Bn254, Fq, Fq2, Fr, G1Affine, G1Projective, G2Affine, G2Projective};
use ark_ec::pairing::Pairing;
use ark_ec::{AffineRepr, CurveGroup, PrimeGroup, ScalarMul, VariableBaseMSM};
use ark_std::One;
use ark_ff::{BigInteger, Field, PrimeField};
use ark_poly::{EvaluationDomain, GeneralEvaluationDomain};
use crate::bytes::be_val;
use crate::field::{fr_mod, Scalar};
use crate::poly::{all_wf, vals_of};
use vstd::prelude::*;

verus! {

/// The order of the BN254 base field `Fq`.
pub open spec fn fq_mod() -> nat {
    21888242871839275222246405745257275088696311157297823662689037894645226208583nat
}

/// An affine point of the group `G1`, coordinates in canonical
/// big-endian form; the identity carries zero coordinates and the
/// `inf` flag.
#[derive(Clone, Copy, Debug, PartialEq, Eq)]
pub struct G1Pt {
    pub x: [u8; 32],
    pub y: [u8; 32],
    pub inf: bool,
}

impl G1Pt {
    /// Canonical coordinates: both lie below the base field order.
    pub open spec fn wf(&self) -> bool {
        be_val(self.x@) < fq_mod() && be_val(self.y@) < fq_mod()
    }

    /// The identity element.
    pub fn zero() -> (r: G1Pt)
        ensures
            r.wf(),
            r.inf,
            be_val(r.x@) == 0,
            be_val(r.y@) == 0,
    {
        let r = G1Pt { x: [0u8; 32], y: [0u8; 32], inf: true };
        proof {
            crate::bytes::lemma_all_zero_val(r.x@);
            crate::bytes::lemma_all_zero_val(r.y@);
        }
        r
    }
}

/// An affine point of the group `G2`; each coordinate is a quadratic
/// extension element with parts `c0`, `c1`.
#[derive(Clone, Copy, Debug, PartialEq, Eq)]
pub struct G2Pt {
    pub x0: [u8; 32],
    pub x1: [u8; 32],
    pub y0: [u8; 32],
    pub y1: [u8; 32],
    pub inf: bool,
}

/// The multiple `s` of the `G1` generator.
pub uninterp spec fn g1_gen_mul_of(s: nat) -> G1Pt;

/// The sum of two `G1` points.
pub uninterp spec fn g1_add_of(a: G1Pt, b: G1Pt) -> G1Pt;

/// The multiple `s` of a `G1` point.
pub uninterp spec fn g1_mul_of(p: G1Pt, s: nat) -> G1Pt;

/// The negation of a `G1` point.
pub uninterp spec fn g1_neg_of(p: G1Pt) -> G1Pt;

/// The multi-scalar multiplication of points and scalars.
pub uninterp spec fn msm_of(points: Seq<G1Pt>, scalars: Seq<nat>) -> G1Pt;

/// Whether the product of the two pairings is the identity.
pub uninterp spec fn pairing_one_of(a1: G1Pt, b1: G2Pt, a2: G1Pt, b2: G2Pt) -> bool;

/// The multiple `s` of the `G2` generator.
pub uninterp spec fn g2_gen_mul_of(s: nat) -> G2Pt;

/// The `i`-th element of the size-`w` evaluation domain: `w_root^i`
/// for the domain's root of unity.
pub uninterp spec fn domain_element_of(w: nat, i: nat) -> nat;

/// The coefficients of the inverse FFT of the given evaluations over
/// the size-`w` domain, zero-padded to the domain size.
pub uninterp spec fn ifft_of(w: nat, evals: Seq<nat>) -> Seq<nat>;

/// The least power of two at or above `n` (and at least one): the
/// size of the evaluation domain the adapter builds for `n` points.
pub open spec fn next_pow2(n: nat) -> nat
    decreases n,
{
    if n <= 1 {
        1
    } else {
        2 * next_pow2(((n + 1) / 2) as nat)
    }
}

/// Every count is at most its domain size.
pub proof fn lemma_next_pow2_ge(n: nat)
    ensures
        next_pow2(n) >= n,
        next_pow2(n) >= 1,
    decreases n,
{
    if n > 1 {
        lemma_next_pow2_ge(((n + 1) / 2) as nat);
        assert(2 * ((n + 1) / 2) >= n) by (nonlinear_arith);
    }
}

/// Relies on `ark_ec::scalar_mul::ScalarMul::batch_mul` on the `G1`
/// generator: element `i` is `scalars[i]` times the generator.
#[verifier::external_body]
pub(crate) fn g1_batch_mul_gen(scalars: &Vec<Scalar>) -> (r: Vec<G1Pt>)
    ensures
        r@.len() == scalars@.len(),
        forall|i: int|
            0 <= i < r@.len() ==> #[trigger] r@[i] == g1_gen_mul_of(scalars@[i].val())
                && r@[i].wf(),
{
    let be = |f: Fq| -> [u8; 32] { f.into_bigint().to_bytes_be().try_into().unwrap() };
    let s: Vec<Fr> = scalars.iter().map(|c| Fr::from_be_bytes_mod_order(&c.bytes)).collect();
    let pts = G1Projective::generator().batch_mul(&s);
    pts.iter().map(|q| G1Pt { x: be(q.x), y: be(q.y), inf: q.infinity }).collect()
}

/// Relies on `ark_ec` affine point addition in `G1`.
#[verifier::external_body]
pub(crate) fn g1_add(a: &G1Pt, b: &G1Pt) -> (r: G1Pt)
    ensures
        r == g1_add_of(*a, *b),
        r.wf(),
{
    let fq = |b: &[u8; 32]| Fq::from_be_bytes_mod_order(b);
    let aff = |p: &G1Pt| if p.inf {
        G1Affine::identity()
    } else {
        G1Affine::new_unchecked(fq(&p.x), fq(&p.y))
    };
    let q = (aff(a) + aff(b)).into_affine();
    let be = |f: Fq| -> [u8; 32] { f.into_bigint().to_bytes_be().try_into().unwrap() };
    G1Pt { x: be(q.x), y: be(q.y), inf: q.infinity }
}

/// Relies on `ark_ec` scalar multiplication in `G1`.
#[verifier::external_body]
pub(crate) fn g1_mul(p: &G1Pt, s: &Scalar) -> (r: G1Pt)
    ensures
        r == g1_mul_of(*p, s.val()),
        r.wf(),
{
    let fq = |b: &[u8; 32]| Fq::from_be_bytes_mod_order(b);
    let aff = |p: &G1Pt| if p.inf {
        G1Affine::identity()
    } else {
        G1Affine::new_unchecked(fq(&p.x), fq(&p.y))
    };
    let q = (aff(p) * Fr::from_be_bytes_mod_order(&s.bytes)).into_affine();
    let be = |f: Fq| -> [u8; 32] { f.into_bigint().to_bytes_be().try_into().unwrap() };
    G1Pt { x: be(q.x), y: be(q.y), inf: q.infinity }
}

/// Relies on `ark_ec` affine negation in `G1`.
#[verifier::external_body]
pub(crate) fn g1_neg(p: &G1Pt) -> (r: G1Pt)
    ensures
        r == g1_neg_of(*p),
        r.wf(),
{
    let fq = |b: &[u8; 32]| Fq::from_be_bytes_mod_order(b);
    let aff = |p: &G1Pt| if p.inf {
        G1Affine::identity()
    } else {
        G1Affine::new_unchecked(fq(&p.x), fq(&p.y))
    };
    let q = -aff(p);
    let be = |f: Fq| -> [u8; 32] { f.into_bigint().to_bytes_be().try_into().unwrap() };
    G1Pt { x: be(q.x), y: be(q.y), inf: q.infinity }
}

/// Relies on `ark_ec::VariableBaseMSM::msm_bigint`: the sum of each
/// point times its scalar.
#[verifier::external_body]
pub(crate) fn g1_msm(points: &Vec<G1Pt>, scalars: &Vec<Scalar>) -> (r: G1Pt)
    requires
        points@.len() == scalars@.len(),
    ensures
        r == msm_of(points@, vals_of(scalars@)),
        r.wf(),
{
    let fq = |b: &[u8; 32]| Fq::from_be_bytes_mod_order(b);
    let aff = |p: &G1Pt| if p.inf {
        G1Affine::identity()
    } else {
        G1Affine::new_unchecked(fq(&p.x), fq(&p.y))
    };
    let ss: Vec<_> = scalars.iter().map(|c| Fr::from_be_bytes_mod_order(&c.bytes).into_bigint()).collect();
    let q = G1Projective::msm_bigint(&points.iter().map(aff).collect::<Vec<_>>(), &ss).into_affine();
    let be = |f: Fq| -> [u8; 32] { f.into_bigint().to_bytes_be().try_into().unwrap() };
    G1Pt { x: be(q.x), y: be(q.y), inf: q.infinity }
}

/// Relies on `ark_ec::pairing::Pairing::multi_miller_loop` and
/// `final_exponentiation` on BN254: whether `e(a1, b1) * e(a2, b2)`
/// is the identity of the target group. A degenerate input whose
/// Miller loop output has no final exponentiation counts as a
/// rejection, never a panic.
#[verifier::external_body]
pub(crate) fn pairing_is_one(a1: &G1Pt, b1: &G2Pt, a2: &G1Pt, b2: &G2Pt) -> (r: bool)
    ensures
        r == pairing_one_of(*a1, *b1, *a2, *b2),
{
    let fq = |b: &[u8; 32]| Fq::from_be_bytes_mod_order(b);
    let aff = |p: &G1Pt| if p.inf {
        G1Affine::identity()
    } else {
        G1Affine::new_unchecked(fq(&p.x), fq(&p.y))
    };
    let aff2 = |p: &G2Pt| if p.inf {
        G2Affine::identity()
    } else {
        G2Affine::new_unchecked(Fq2::new(fq(&p.x0), fq(&p.x1)), Fq2::new(fq(&p.y0), fq(&p.y1)))
    };
    let f = Bn254::multi_miller_loop([aff(a1), aff(a2)], [aff2(b1), aff2(b2)]);
    Bn254::final_exponentiation(f).is_some_and(|o| o.0.is_one())
}

/// Relies on `ark_ec` scalar multiplication of the `G2` generator.
#[verifier::external_body]
pub(crate) fn g2_mul_gen(s: &Scalar) -> (r: G2Pt)
    ensures
        r == g2_gen_mul_of(s.val()),
{
    let be = |f: Fq| -> [u8; 32] { f.into_bigint().to_bytes_be().try_into().unwrap() };
    let q = (G2Projective::generator() * Fr::from_be_bytes_mod_order(&s.bytes)).into_affine();
    G2Pt { x0: be(q.x.c0), x1: be(q.x.c1), y0: be(q.y.c0), y1: be(q.y.c1), inf: q.infinity }
}

/// Relies on `ark_poly::GeneralEvaluationDomain::element`: the power
/// `i` of the domain's root of unity. For BN254 a domain exists for
/// any size up to `2^28`.
#[verifier::external_body]
pub(crate) fn domain_element(w: usize, i: usize) -> (r: Scalar)
    requires
        1 <= w <= 0x10000000,
    ensures
        r.wf(),
        r.val() == domain_element_of(w as nat, i as nat),
{
    let domain = GeneralEvaluationDomain::<Fr>::new(w).unwrap();
    let e = domain.element(i);
    let mut bytes = [0u8; 32];
    bytes.copy_from_slice(&e.into_bigint().to_bytes_be());
    Scalar { bytes }
}

/// Relies on `ark_poly::GeneralEvaluationDomain::ifft`: interpolation
/// over the size-`w` domain. The evaluations are zero-padded to the
/// domain size `next_pow2(w)`, which is also the result's length, and
/// the recovered polynomial takes each evaluation back at the
/// matching domain element — the documented inverse of the FFT.
#[verifier::external_body]
pub(crate) fn domain_ifft(w: usize, evals: &Vec<Scalar>) -> (r: Vec<Scalar>)
    requires
        1 <= w <= 0x10000000,
        evals@.len() <= next_pow2(w as nat),
        all_wf(evals@),
    ensures
        r@.len() == next_pow2(w as nat),
        all_wf(r@),
        vals_of(r@) == ifft_of(w as nat, vals_of(evals@)),
        forall|i: int|
            0 <= i < evals@.len() ==> crate::poly::peval_spec(
                vals_of(r@),
                domain_element_of(w as nat, i as nat),
            ) == (#[trigger] evals@[i]).val(),
{
    let domain = GeneralEvaluationDomain::<Fr>::new(w).unwrap();
    let es: Vec<Fr> = evals
        .iter()
        .map(|c| Fr::from_be_bytes_mod_order(&c.bytes))
        .collect();
    let coeffs = domain.ifft(&es);
    coeffs
        .iter()
        .map(|c| {
            let mut bytes = [0u8; 32];
            bytes.copy_from_slice(&c.into_bigint().to_bytes_be());
            Scalar { bytes }
        })
        .collect()
}

} // verus!
