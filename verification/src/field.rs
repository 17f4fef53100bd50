//! The BN254 scalar field.
//!
//! A `Scalar` holds the canonical 32-byte big-endian encoding of an
//! element of `Fr`, the prime field of order `fr_mod()`. Arithmetic is
//! performed by `ark_bn254`, reached through trusted wrappers whose
//! contracts state the result as modular arithmetic on `val()`.
use ark_ff::{BigInteger, Field, PrimeField, UniformRand};
use ark_std::rand::SeedableRng;
use crate::bytes::{be_val, lemma_all_zero_val, lemma_nonzero_byte_nonzero_val};
use vstd::prelude::*;

verus! {

/// The order of the BN254 scalar field `Fr`.
pub open spec fn fr_mod() -> nat {
    21888242871839275222246405745257275088548364400416034343698204186575808495617nat
}

/// `b^e` modulo `fr_mod()`.
pub open spec fn fr_pow_spec(b: nat, e: nat) -> nat
    decreases e,
{
    if e == 0 {
        1nat
    } else {
        (b * fr_pow_spec(b, (e - 1) as nat)) % fr_mod()
    }
}

/// `a / b` in `Fr`, written through Fermat's little theorem so that the
/// quotient is a function of `a` and `b`.
pub open spec fn fr_div_spec(a: nat, b: nat) -> nat {
    (a * fr_pow_spec(b, (fr_mod() - 2) as nat)) % fr_mod()
}

/// An element of `Fr` in canonical big-endian form.
#[verifier::ext_equal]
#[derive(Clone, Copy, Debug, PartialEq, Eq)]
pub struct Scalar {
    pub bytes: [u8; 32],
}

impl Scalar {
    /// The integer this scalar denotes.
    pub open spec fn val(&self) -> nat {
        be_val(self.bytes@)
    }

    /// Canonical form: the encoded integer lies below the field order.
    pub open spec fn wf(&self) -> bool {
        self.val() < fr_mod()
    }

    /// The zero element.
    pub fn zero() -> (r: Scalar)
        ensures
            r.wf(),
            r.val() == 0,
    {
        let r = Scalar { bytes: [0u8; 32] };
        proof {
            lemma_all_zero_val(r.bytes@);
        }
        r
    }

    /// The scalar with value `x`.
    pub fn from_u64(x: u64) -> (r: Scalar)
        ensures
            r.wf(),
            r.val() == x as nat,
    {
        fr_from_u64(x)
    }

    /// The scalar that a big-endian byte string denotes, reduced
    /// modulo the field order.
    pub fn from_be_bytes_mod_order(bytes: &Vec<u8>) -> (r: Scalar)
        ensures
            r.wf(),
            r.val() == be_val(bytes@) % fr_mod(),
    {
        fr_from_be_bytes(bytes)
    }

    /// Whether this scalar is the zero element.
    pub fn is_zero(&self) -> (r: bool)
        requires
            self.wf(),
        ensures
            r == (self.val() == 0),
    {
        let mut i: usize = 0;
        while i < 32
            invariant
                i <= 32,
                forall|j: int| 0 <= j < i ==> self.bytes@[j] == 0,
            decreases 32 - i,
        {
            if self.bytes[i] != 0 {
                proof {
                    lemma_nonzero_byte_nonzero_val(self.bytes@, i as int);
                }
                return false;
            }
            i = i + 1;
        }
        proof {
            lemma_all_zero_val(self.bytes@);
        }
        true
    }
}

/// The canonical scalar of a given value: since encodings are
/// 32-byte big-endian, two canonical scalars of one value are equal.
pub open spec fn canon_scalar(v: nat) -> Scalar {
    choose|s: Scalar| s.wf() && s.val() == v
}

/// Every canonical scalar is `canon_scalar` of its value.
pub proof fn lemma_canon_scalar(s: Scalar)
    requires
        s.wf(),
    ensures
        canon_scalar(s.val()) == s,
{
    assert(exists|t: Scalar| t.wf() && t.val() == s.val()) by {
        assert(s.wf() && s.val() == s.val());
    }
    let t = canon_scalar(s.val());
    assert(t.wf() && t.val() == s.val());
    crate::bytes::lemma_be_val_injective(t.bytes@, s.bytes@);
    assert(t.bytes@ =~= s.bytes@);
    assert(t =~= s);
}

/// Relies on `ark_bn254::Fr` addition: `Fr` is the integers modulo
/// `fr_mod()`, and `into_bigint().to_bytes_be()` is the canonical
/// 32-byte big-endian encoding.
#[verifier::external_body]
pub(crate) fn fr_add(a: &Scalar, b: &Scalar) -> (r: Scalar)
    requires
        a.wf(),
        b.wf(),
    ensures
        r.wf(),
        r.val() == (a.val() + b.val()) % fr_mod(),
{
    let x = ark_bn254::Fr::from_be_bytes_mod_order(&a.bytes)
        + ark_bn254::Fr::from_be_bytes_mod_order(&b.bytes);
    let mut bytes = [0u8; 32];
    bytes.copy_from_slice(&x.into_bigint().to_bytes_be());
    Scalar { bytes }
}

/// Relies on `ark_bn254::Fr` subtraction.
#[verifier::external_body]
pub(crate) fn fr_sub(a: &Scalar, b: &Scalar) -> (r: Scalar)
    requires
        a.wf(),
        b.wf(),
    ensures
        r.wf(),
        r.val() == ((a.val() + fr_mod() - b.val()) as nat) % fr_mod(),
{
    let x = ark_bn254::Fr::from_be_bytes_mod_order(&a.bytes)
        - ark_bn254::Fr::from_be_bytes_mod_order(&b.bytes);
    let mut bytes = [0u8; 32];
    bytes.copy_from_slice(&x.into_bigint().to_bytes_be());
    Scalar { bytes }
}

/// Relies on `ark_bn254::Fr` multiplication.
#[verifier::external_body]
pub(crate) fn fr_mul(a: &Scalar, b: &Scalar) -> (r: Scalar)
    requires
        a.wf(),
        b.wf(),
    ensures
        r.wf(),
        r.val() == (a.val() * b.val()) % fr_mod(),
{
    let x = ark_bn254::Fr::from_be_bytes_mod_order(&a.bytes)
        * ark_bn254::Fr::from_be_bytes_mod_order(&b.bytes);
    let mut bytes = [0u8; 32];
    bytes.copy_from_slice(&x.into_bigint().to_bytes_be());
    Scalar { bytes }
}

/// Relies on `ark_ff::Field::inverse`: for nonzero `b` it returns the
/// unique multiplicative inverse, which by Fermat's little theorem is
/// `b^(fr_mod()-2)`; the product clause restates the defining property.
#[verifier::external_body]
pub(crate) fn fr_div(a: &Scalar, b: &Scalar) -> (r: Scalar)
    requires
        a.wf(),
        b.wf(),
        b.val() != 0,
    ensures
        r.wf(),
        r.val() == fr_div_spec(a.val(), b.val()),
        (r.val() * b.val()) % fr_mod() == a.val() % fr_mod(),
{
    let bf = ark_bn254::Fr::from_be_bytes_mod_order(&b.bytes);
    let x = ark_bn254::Fr::from_be_bytes_mod_order(&a.bytes) * bf.inverse().unwrap();
    let mut bytes = [0u8; 32];
    bytes.copy_from_slice(&x.into_bigint().to_bytes_be());
    Scalar { bytes }
}

/// Relies on `ark_ff::Field::pow` with a one-limb exponent.
#[verifier::external_body]
pub(crate) fn fr_pow(a: &Scalar, e: u64) -> (r: Scalar)
    requires
        a.wf(),
    ensures
        r.wf(),
        r.val() == fr_pow_spec(a.val(), e as nat),
{
    let x = ark_bn254::Fr::from_be_bytes_mod_order(&a.bytes).pow([e]);
    let mut bytes = [0u8; 32];
    bytes.copy_from_slice(&x.into_bigint().to_bytes_be());
    Scalar { bytes }
}

/// Relies on `ark_bn254::Fr::from(u64)`: `x` is below the field order,
/// so the embedding is the identity on its value.
#[verifier::external_body]
pub(crate) fn fr_from_u64(x: u64) -> (r: Scalar)
    ensures
        r.wf(),
        r.val() == x as nat,
{
    let f = ark_bn254::Fr::from(x);
    let mut bytes = [0u8; 32];
    bytes.copy_from_slice(&f.into_bigint().to_bytes_be());
    Scalar { bytes }
}

/// Relies on `ark_ff::PrimeField::from_be_bytes_mod_order`: the input
/// read as a big-endian integer, reduced modulo the field order.
#[verifier::external_body]
pub(crate) fn fr_from_be_bytes(bytes: &Vec<u8>) -> (r: Scalar)
    ensures
        r.wf(),
        r.val() == be_val(bytes@) % fr_mod(),
{
    let f = ark_bn254::Fr::from_be_bytes_mod_order(bytes.as_slice());
    let mut out = [0u8; 32];
    out.copy_from_slice(&f.into_bigint().to_bytes_be());
    Scalar { bytes: out }
}

/// Relies on `ark_ff::UniformRand`: a scalar sampled from a standard
/// random number generator seeded with `seed`. Nothing is promised of
/// its value.
#[verifier::external_body]
pub(crate) fn fr_random(seed: u64) -> (r: Scalar)
    ensures
        r.wf(),
{
    let mut rng = ark_std::rand::rngs::StdRng::seed_from_u64(seed);
    let f = <ark_bn254::Fr as UniformRand>::rand(&mut rng);
    let mut bytes = [0u8; 32];
    bytes.copy_from_slice(&f.into_bigint().to_bytes_be());
    Scalar { bytes }
}

} // verus!
