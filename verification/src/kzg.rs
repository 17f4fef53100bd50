//! The KZG polynomial commitment engine: trusted setup, trimming,
//! commitment, single-point opening and pairing check.
use crate::curve::{
    g1_add, g1_add_of, g1_batch_mul_gen, g1_gen_mul_of, g1_msm, g1_mul, g1_mul_of, g1_neg,
    g1_neg_of, g2_gen_mul_of, g2_mul_gen, msm_of, pairing_is_one, pairing_one_of, G1Pt, G2Pt,
};
use crate::field::{fr_div, fr_div_spec, fr_mod, fr_mul, fr_pow_spec, fr_random, Scalar};
use crate::poly::{
    all_wf, lin_quot_spec, peval_spec, poly_div_linear, poly_eval, poly_sub, psub_spec, vals_of,
};
use crate::Error;
use vstd::prelude::*;

verus! {

/// The raw output of the trusted setup: powers of the secret in `G1`,
/// the blinding powers pinned to the identity (no hiding), and the
/// `G2` elements for verification.
#[derive(Debug)]
pub struct UniversalParams {
    pub powers_of_g: Vec<G1Pt>,
    pub powers_of_gamma_g: Vec<G1Pt>,
    pub h: G2Pt,
    pub beta_h: G2Pt,
    pub neg_powers_of_h: Vec<G2Pt>,
}

/// The prover key: the prefix of the `G1` powers.
#[derive(Debug)]
pub struct CommitKey {
    pub powers_of_g: Vec<G1Pt>,
    pub powers_of_gamma_g: Vec<G1Pt>,
}

/// The verifier key.
#[derive(Debug)]
pub struct VerifyKey {
    pub g: G1Pt,
    pub gamma_g: G1Pt,
    pub h: G2Pt,
    pub beta_h: G2Pt,
}

impl UniversalParams {
    /// The parameters are the powers of one secret `b`.
    pub open spec fn matches_secret(&self, b: nat) -> bool {
        &&& forall|i: int|
            0 <= i < self.powers_of_g@.len() ==> #[trigger] self.powers_of_g@[i]
                == g1_gen_mul_of(fr_pow_spec(b, i as nat))
        &&& self.h == g2_gen_mul_of(1)
        &&& self.beta_h == g2_gen_mul_of(b)
        &&& forall|i: int|
            0 <= i < self.neg_powers_of_h@.len() ==> #[trigger] self.neg_powers_of_h@[i]
                == g2_gen_mul_of(fr_pow_spec(fr_div_spec(1, b), i as nat))
    }

    /// Every blinding power is the identity: the scheme is binding
    /// only, with no hiding.
    pub open spec fn gamma_zero(&self) -> bool {
        forall|i: int|
            0 <= i < self.powers_of_gamma_g@.len() ==> (#[trigger] self.powers_of_gamma_g@[i]).inf
                && crate::bytes::be_val(self.powers_of_gamma_g@[i].x@) == 0
                && crate::bytes::be_val(self.powers_of_gamma_g@[i].y@) == 0
    }
}

/// What a successful setup returns: the right number of powers, the
/// blinding powers pinned to the identity, and all the elements the
/// powers of one nonzero secret.
pub open spec fn setup_ok(pp: UniversalParams, max_degree: int, produce_g2_powers: bool) -> bool {
    &&& max_degree >= 1
    &&& pp.powers_of_g@.len() == max_degree + 1
    &&& pp.powers_of_gamma_g@.len() == max_degree + 2
    &&& pp.neg_powers_of_h@.len() == if produce_g2_powers {
        max_degree + 1
    } else {
        0int
    }
    &&& pp.gamma_zero()
    &&& exists|b: nat| b != 0 && b < fr_mod() && pp.matches_secret(b)
}

/// The KZG commitment scheme.
pub struct KZG {}

impl KZG {
    /// Samples a secret `b` and produces the powers `[g, b g, ...,
    /// b^max_degree g]`, the blinding powers pinned to the identity,
    /// and `h, b h` in `G2`. The secret exists only inside this call.
    #[verifier::rlimit(30)]
    pub fn setup(max_degree: usize, produce_g2_powers: bool, seed: u64) -> (r: Result<
        UniversalParams,
        Error,
    >)
        requires
            max_degree < usize::MAX - 1,
        ensures
            match r {
                Ok(pp) => setup_ok(pp, max_degree as int, produce_g2_powers),
                Err(e) => e == Error::DegreeIsZero && max_degree < 1,
            },
    {
        if max_degree < 1 {
            return Err(Error::DegreeIsZero);
        }
        let sampled = fr_random(seed);
        // A zero sample would have no inverse; the field has no
        // element that is sampled with any practical probability, so
        // one is as arbitrary a replacement as resampling.
        let beta = if sampled.is_zero() {
            Scalar::from_u64(1)
        } else {
            sampled
        };
        let ghost b = beta.val();
        let one = Scalar::from_u64(1);
        let mut powers_of_beta: Vec<Scalar> = Vec::new();
        powers_of_beta.push(one);
        let mut cur = beta;
        let mut i: usize = 0;
        proof {
            assert(fr_pow_spec(b, 0) == 1);
            assert(fr_pow_spec(b, 1) == (b * 1) % fr_mod());
            assert(b * 1 == b) by (nonlinear_arith);
            vstd::arithmetic::div_mod::lemma_small_mod(b, fr_mod());
        }
        while i < max_degree + 1
            invariant
                i <= max_degree + 1,
                max_degree < usize::MAX - 1,
                beta.wf(),
                b == beta.val(),
                b != 0,
                b < fr_mod(),
                cur.wf(),
                cur.val() == fr_pow_spec(b, (i + 1) as nat),
                powers_of_beta@.len() == i + 1,
                all_wf(powers_of_beta@),
                forall|j: int|
                    0 <= j <= i ==> (#[trigger] powers_of_beta@[j]).val() == fr_pow_spec(
                        b,
                        j as nat,
                    ),
            decreases max_degree + 1 - i,
        {
            powers_of_beta.push(cur);
            let next = fr_mul(&cur, &beta);
            proof {
                assert(fr_pow_spec(b, (i + 2) as nat) == (b * fr_pow_spec(b, (i + 1) as nat))
                    % fr_mod());
                assert(cur.val() * b == b * cur.val()) by (nonlinear_arith);
            }
            cur = next;
            i = i + 1;
        }
        let mut prefix: Vec<Scalar> = Vec::new();
        let mut j: usize = 0;
        while j < max_degree + 1
            invariant
                j <= max_degree + 1,
                max_degree < usize::MAX - 1,
                powers_of_beta@.len() == max_degree + 2,
                prefix@.len() == j,
                forall|t: int| 0 <= t < j ==> prefix@[t] == powers_of_beta@[t],
            decreases max_degree + 1 - j,
        {
            prefix.push(powers_of_beta[j]);
            j = j + 1;
        }
        let powers_of_g = g1_batch_mul_gen(&prefix);
        let mut powers_of_gamma_g: Vec<G1Pt> = Vec::new();
        let zero_pt = G1Pt::zero();
        let mut t: usize = 0;
        while t < max_degree + 2
            invariant
                t <= max_degree + 2,
                max_degree < usize::MAX - 1,
                zero_pt.inf,
                crate::bytes::be_val(zero_pt.x@) == 0,
                crate::bytes::be_val(zero_pt.y@) == 0,
                powers_of_gamma_g@.len() == t,
                forall|u: int| 0 <= u < t ==> #[trigger] powers_of_gamma_g@[u] == zero_pt,
            decreases max_degree + 2 - t,
        {
            powers_of_gamma_g.push(zero_pt);
            t = t + 1;
        }
        let h = g2_mul_gen(&one);
        let beta_h = g2_mul_gen(&beta);
        let mut neg_powers_of_h: Vec<G2Pt> = Vec::new();
        if produce_g2_powers {
            let ghost binv = fr_div_spec(1, b);
            let mut neg_cur = fr_div(&one, &beta);
            proof {
                assert(fr_pow_spec(binv, 0) == 1);
                assert(fr_pow_spec(binv, 1) == (binv * 1) % fr_mod());
                assert(binv * 1 == binv) by (nonlinear_arith);
                assert(binv < fr_mod());
                vstd::arithmetic::div_mod::lemma_small_mod(binv, fr_mod());
            }
            neg_powers_of_h.push(g2_mul_gen(&one));
            let mut u: usize = 0;
            while u < max_degree
                invariant
                    u <= max_degree,
                    max_degree < usize::MAX - 1,
                    binv == fr_div_spec(1, b),
                    binv < fr_mod(),
                    b != 0,
                    b < fr_mod(),
                    beta.wf(),
                    b == beta.val(),
                    one.wf(),
                    one.val() == 1,
                    neg_cur.wf(),
                    neg_cur.val() == fr_pow_spec(binv, (u + 1) as nat),
                    neg_powers_of_h@.len() == u + 1,
                    forall|v: int|
                        0 <= v <= u ==> #[trigger] neg_powers_of_h@[v] == g2_gen_mul_of(
                            fr_pow_spec(binv, v as nat),
                        ),
                decreases max_degree - u,
            {
                neg_powers_of_h.push(g2_mul_gen(&neg_cur));
                let next = fr_div(&neg_cur, &beta);
                proof {
                    lemma_div_step(neg_cur.val(), b, (u + 1) as nat);
                }
                neg_cur = next;
                u = u + 1;
            }
        }
        let pp = UniversalParams { powers_of_g, powers_of_gamma_g, h, beta_h, neg_powers_of_h };
        proof {
            assert(pp.matches_secret(b)) by {
                assert(fr_pow_spec(b, 0) == 1);
            }
            assert(exists|bb: nat| bb != 0 && bb < fr_mod() && pp.matches_secret(bb)) by {
                assert(b != 0 && b < fr_mod() && pp.matches_secret(b));
            }
            assert(setup_ok(pp, max_degree as int, produce_g2_powers));
        }
        Ok(pp)
    }

    /// Keeps the first `d + 1` powers as the prover key and the
    /// degree-zero elements as the verifier key. A supported degree
    /// of one is bumped to two so that the linear case keeps a
    /// quadratic power available.
    pub fn trim(pp: UniversalParams, supported_degree: usize) -> (r: Result<
        (CommitKey, VerifyKey),
        Error,
    >)
        requires
            supported_degree < usize::MAX,
        ensures
            ({
                let d = if supported_degree == 1 {
                    2int
                } else {
                    supported_degree as int
                };
                match r {
                    Ok((ck, vk)) => {
                        &&& d + 1 <= pp.powers_of_g@.len()
                        &&& d + 1 <= pp.powers_of_gamma_g@.len()
                        &&& ck.powers_of_g@ == pp.powers_of_g@.take(d + 1)
                        &&& ck.powers_of_gamma_g@ == pp.powers_of_gamma_g@.take(d + 1)
                        &&& vk.g == pp.powers_of_g@[0]
                        &&& vk.gamma_g == pp.powers_of_gamma_g@[0]
                        &&& vk.h == pp.h
                        &&& vk.beta_h == pp.beta_h
                    },
                    Err(e) => e == Error::TrimExceedsSetup && (d + 1 > pp.powers_of_g@.len() || d
                        + 1 > pp.powers_of_gamma_g@.len()),
                }
            }),
    {
        let d = if supported_degree == 1 {
            2
        } else {
            supported_degree
        };
        if d + 1 > pp.powers_of_g.len() || d + 1 > pp.powers_of_gamma_g.len() {
            return Err(Error::TrimExceedsSetup);
        }
        let mut powers_of_g: Vec<G1Pt> = Vec::new();
        let mut i: usize = 0;
        while i < d + 1
            invariant
                i <= d + 1,
                d < usize::MAX,
                d + 1 <= pp.powers_of_g@.len(),
                powers_of_g@.len() == i,
                forall|t: int| 0 <= t < i ==> powers_of_g@[t] == pp.powers_of_g@[t],
            decreases d + 1 - i,
        {
            powers_of_g.push(pp.powers_of_g[i]);
            i = i + 1;
        }
        let mut powers_of_gamma_g: Vec<G1Pt> = Vec::new();
        let mut j: usize = 0;
        while j < d + 1
            invariant
                j <= d + 1,
                d < usize::MAX,
                d + 1 <= pp.powers_of_gamma_g@.len(),
                powers_of_gamma_g@.len() == j,
                forall|t: int| 0 <= t < j ==> powers_of_gamma_g@[t] == pp.powers_of_gamma_g@[t],
            decreases d + 1 - j,
        {
            powers_of_gamma_g.push(pp.powers_of_gamma_g[j]);
            j = j + 1;
        }
        let vk = VerifyKey {
            g: pp.powers_of_g[0],
            gamma_g: pp.powers_of_gamma_g[0],
            h: pp.h,
            beta_h: pp.beta_h,
        };
        proof {
            assert(powers_of_g@ =~= pp.powers_of_g@.take(d + 1));
            assert(powers_of_gamma_g@ =~= pp.powers_of_gamma_g@.take(d + 1));
        }
        Ok((CommitKey { powers_of_g, powers_of_gamma_g }, vk))
    }

    /// Commits to a polynomial: the multi-scalar multiplication of
    /// the key's powers with the coefficients.
    pub fn commit(ck: &CommitKey, p: &Vec<Scalar>) -> (r: G1Pt)
        requires
            all_wf(p@),
            p@.len() <= ck.powers_of_g@.len(),
        ensures
            r == msm_of(ck.powers_of_g@.take(p@.len() as int), vals_of(p@)),
            r.wf(),
    {
        let mut prefix: Vec<G1Pt> = Vec::new();
        let mut i: usize = 0;
        while i < p.len()
            invariant
                i <= p@.len(),
                p@.len() <= ck.powers_of_g@.len(),
                prefix@.len() == i,
                forall|t: int| 0 <= t < i ==> prefix@[t] == ck.powers_of_g@[t],
            decreases p@.len() - i,
        {
            prefix.push(ck.powers_of_g[i]);
            i = i + 1;
        }
        proof {
            assert(prefix@ =~= ck.powers_of_g@.take(p@.len() as int));
        }
        g1_msm(&prefix, p)
    }

    /// The commitment the verifier expects for an opening of `p` at
    /// `z`: the quotient `(p - p(z)) / (X - z)` committed under the
    /// key's powers.
    pub open spec fn open_spec(powers: Seq<G1Pt>, p: Seq<nat>, z: nat) -> G1Pt {
        let q = lin_quot_spec(psub_spec(p, seq![peval_spec(p, z)]), z);
        msm_of(powers.take(q.len() as int), q)
    }

    /// Opens `p` at `z`: commits to the witness quotient
    /// `(p - p(z)) / (X - z)`.
    pub fn open(ck: &CommitKey, p: &Vec<Scalar>, point: &Scalar) -> (r: Result<G1Pt, Error>)
        requires
            all_wf(p@),
            point.wf(),
            p@.len() <= ck.powers_of_g@.len(),
        ensures
            r matches Ok(pi) && pi == Self::open_spec(ck.powers_of_g@, vals_of(p@), point.val()),
    {
        let y = poly_eval(p, point);
        let mut ypoly: Vec<Scalar> = Vec::new();
        ypoly.push(y);
        let shifted = poly_sub(p, &ypoly);
        let (q, _rem) = poly_div_linear(&shifted, point);
        proof {
            assert(vals_of(ypoly@) =~= seq![peval_spec(vals_of(p@), point.val())]);
            assert(shifted@.len() == if p@.len() >= 1 {
                p@.len() as int
            } else {
                1int
            });
            assert(q@.len() == lin_quot_spec(vals_of(shifted@), point.val()).len());
            assert(q@.len() <= ck.powers_of_g@.len());
        }
        Ok(Self::commit(ck, &q))
    }

    /// Whether the pairing equation of an opening claim holds:
    /// `e(C - y g + z pi, h) * e(-pi, beta_h) == 1`.
    pub open spec fn check_spec(vk: VerifyKey, c: G1Pt, z: nat, y: nat, pi: G1Pt) -> bool {
        pairing_one_of(
            g1_add_of(g1_add_of(c, g1_neg_of(g1_mul_of(vk.g, y))), g1_mul_of(pi, z)),
            vk.h,
            g1_neg_of(pi),
            vk.beta_h,
        )
    }

    /// Verifies an opening: accepts exactly when the pairing equation
    /// holds for the claimed point and value.
    pub fn check(vk: &VerifyKey, comm: &G1Pt, point: &Scalar, value: &Scalar, proof: &G1Pt) -> (r:
        Result<bool, Error>)
        requires
            point.wf(),
            value.wf(),
        ensures
            r == Ok::<bool, Error>(Self::check_spec(*vk, *comm, point.val(), value.val(), *proof)),
    {
        let yg = g1_mul(&vk.g, value);
        let zpi = g1_mul(proof, point);
        let lhs = g1_add(&g1_add(comm, &g1_neg(&yg)), &zpi);
        let rhs = g1_neg(proof);
        Ok(pairing_is_one(&lhs, &vk.h, &rhs, &vk.beta_h))
    }
}

/// Dividing `binv^(e)` by `b` once more gives `binv^(e+1)`, for
/// `binv` the inverse power of `b`.
proof fn lemma_div_step(v: nat, b: nat, e: nat)
    requires
        b != 0,
        b < fr_mod(),
        v == fr_pow_spec(fr_div_spec(1, b), e),
        e >= 1,
    ensures
        fr_div_spec(v, b) == fr_pow_spec(fr_div_spec(1, b), (e + 1) as nat),
{
    let m = fr_mod();
    let binv = fr_div_spec(1, b);
    let pw = fr_pow_spec(b, (m - 2) as nat);
    assert(pw < m) by {
        assert((m - 2) as nat >= 1);
    }
    assert(binv == (1 * pw) % m);
    assert(1 * pw == pw) by (nonlinear_arith);
    vstd::arithmetic::div_mod::lemma_small_mod(pw, m);
    assert(binv == pw);
    assert(fr_div_spec(v, b) == (v * pw) % m);
    assert(fr_pow_spec(binv, (e + 1) as nat) == (binv * fr_pow_spec(binv, e)) % m);
    assert((binv * v) % m == (v * pw) % m) by (nonlinear_arith)
        requires
            binv == pw,
    ;
}

} // verus!
