//! The Fiat-Shamir multiproof engine: `N` single-point openings of
//! `N` polynomials aggregated into one constant-size proof `(D, pi)`
//! by a two-step random linear combination.
//!
//! The contracts pin every challenge, polynomial and commitment as a
//! function of the inputs, which is what makes prover and verifier
//! provably agree on the transcript.
use crate::curve::{
    g1_add, g1_add_of, g1_msm, g1_mul, g1_mul_of, g1_neg, g1_neg_of, msm_of, pairing_is_one,
    pairing_one_of, G1Pt,
};
use crate::field::{
    canon_scalar, fr_add, fr_div, fr_div_spec, fr_mod, fr_mul, fr_pow, fr_pow_spec,
    lemma_canon_scalar, Scalar,
};
use crate::kzg::{CommitKey, VerifyKey, KZG};
use crate::poly::{
    all_wf, lin_quot_spec, padd_spec, peval_spec, poly_add, poly_div_linear, poly_is_zero,
    poly_scale, poly_sub, pscale_spec, psub_spec, vals_of,
};
use crate::transcript::{absorb_fe_spec, absorb_g1, absorb_g1_spec, absorb_scalar, challenge_of,
    squeeze};
use crate::Error;
use vstd::prelude::*;

verus! {

/// The aggregated opening proof: the witness commitment `D` and the
/// quotient commitment `pi`.
#[verifier::ext_equal]
#[derive(Debug, Clone, Copy, PartialEq, Eq)]
pub struct Proof {
    pub d: G1Pt,
    pub pi: G1Pt,
}

/// The transcript bytes for the first challenge: for each opening in
/// index order, the commitment, the point and the value, each element
/// absorbed iff nonzero.
pub open spec fn r_bytes(coms: Seq<G1Pt>, zs: Seq<Scalar>, ys: Seq<Scalar>, n: int) -> Seq<u8>
    decreases n,
{
    if n <= 0 {
        Seq::empty()
    } else {
        absorb_fe_spec(
            absorb_fe_spec(
                absorb_g1_spec(r_bytes(coms, zs, ys, n - 1), coms[n - 1]),
                zs[n - 1].bytes@,
            ),
            ys[n - 1].bytes@,
        )
    }
}

/// The aggregation challenge `r`.
pub open spec fn r_of(coms: Seq<G1Pt>, zs: Seq<Scalar>, ys: Seq<Scalar>) -> nat {
    challenge_of(r_bytes(coms, zs, ys, coms.len() as int))
}

/// The evaluation challenge `t`: absorb `D`, then `r`.
pub open spec fn t_of(d: G1Pt, rv: nat) -> nat {
    challenge_of(absorb_fe_spec(absorb_g1_spec(Seq::empty(), d), canon_scalar(rv).bytes@))
}

/// The coefficient values of a family of polynomials.
pub open spec fn polys_vals(s: Seq<Vec<Scalar>>) -> Seq<Seq<nat>> {
    Seq::new(s.len(), |j: int| vals_of(s[j]@))
}

/// Polynomial `j` with its claimed value subtracted.
pub open spec fn shifted_j(polys: Seq<Seq<nat>>, ys: Seq<Scalar>, j: int) -> Seq<nat> {
    psub_spec(polys[j], seq![ys[j].val()])
}

/// The quotient of `p_j - y_j` by `X - z_j`.
pub open spec fn quot_j(polys: Seq<Seq<nat>>, zs: Seq<Scalar>, ys: Seq<Scalar>, j: int) -> Seq<
    nat,
> {
    lin_quot_spec(shifted_j(polys, ys, j), zs[j].val())
}

/// Every claimed evaluation matches its polynomial: all the quotient
/// divisions are exact.
pub open spec fn divisions_exact(
    polys: Seq<Seq<nat>>,
    zs: Seq<Scalar>,
    ys: Seq<Scalar>,
    n: int,
) -> bool {
    forall|j: int| 0 <= j < n ==> peval_spec(shifted_j(polys, ys, j), (#[trigger] zs[j]).val()) == 0
}

/// The aggregated witness polynomial `g`: the `r^j`-weighted sum of
/// the quotients.
pub open spec fn witness_of(
    polys: Seq<Seq<nat>>,
    zs: Seq<Scalar>,
    ys: Seq<Scalar>,
    rv: nat,
    n: int,
) -> Seq<nat>
    decreases n,
{
    if n <= 0 {
        Seq::empty()
    } else {
        padd_spec(
            witness_of(polys, zs, ys, rv, n - 1),
            pscale_spec(fr_pow_spec(rv, (n - 1) as nat), quot_j(polys, zs, ys, n - 1)),
        )
    }
}

/// `t - z_j` in the field.
pub open spec fn tz_j(zs: Seq<Scalar>, tv: nat, j: int) -> nat {
    ((tv + fr_mod() - zs[j].val()) as nat) % fr_mod()
}

/// The evaluation challenge avoids every opening point.
pub open spec fn no_collision(zs: Seq<Scalar>, tv: nat, n: int) -> bool {
    forall|j: int| 0 <= j < n ==> tz_j(zs, tv, j) != 0
}

/// The aggregated claimed value `y = sum r^j y_j / (t - z_j)`.
pub open spec fn y_of(zs: Seq<Scalar>, ys: Seq<Scalar>, rv: nat, tv: nat, n: int) -> nat
    decreases n,
{
    if n <= 0 {
        0
    } else {
        (y_of(zs, ys, rv, tv, n - 1) + fr_div_spec(
            (fr_pow_spec(rv, (n - 1) as nat) * ys[n - 1].val()) % fr_mod(),
            tz_j(zs, tv, n - 1),
        )) % fr_mod()
    }
}

/// The aggregated polynomial `h = sum (r^j / (t - z_j)) p_j`.
pub open spec fn h_of(polys: Seq<Seq<nat>>, zs: Seq<Scalar>, rv: nat, tv: nat, n: int) -> Seq<
    nat,
>
    decreases n,
{
    if n <= 0 {
        Seq::empty()
    } else {
        padd_spec(
            h_of(polys, zs, rv, tv, n - 1),
            pscale_spec(
                fr_div_spec(fr_pow_spec(rv, (n - 1) as nat), tz_j(zs, tv, n - 1)),
                polys[n - 1],
            ),
        )
    }
}

/// The quotient polynomial behind `pi`:
/// `(h - g - y) / (X - t)`.
pub open spec fn pi_poly_of(
    polys: Seq<Seq<nat>>,
    zs: Seq<Scalar>,
    ys: Seq<Scalar>,
    rv: nat,
    tv: nat,
    n: int,
) -> Seq<nat> {
    lin_quot_spec(
        psub_spec(
            psub_spec(h_of(polys, zs, rv, tv, n), witness_of(polys, zs, ys, rv, n)),
            seq![y_of(zs, ys, rv, tv, n)],
        ),
        tv,
    )
}

/// The scalars of the verifier's aggregated commitment `E`.
pub open spec fn e_scalars_of(zs: Seq<Scalar>, rv: nat, tv: nat, n: int) -> Seq<nat> {
    Seq::new(n as nat, |j: int| fr_div_spec(fr_pow_spec(rv, j as nat), tz_j(zs, tv, j)))
}

/// The verifier's pairing equation over the recomputed challenges:
/// `e(E - D - y g + t pi, h) * e(-pi, beta_h) == 1`.
pub open spec fn accepts_spec(
    vk: VerifyKey,
    coms: Seq<G1Pt>,
    zs: Seq<Scalar>,
    ys: Seq<Scalar>,
    pf: Proof,
) -> bool {
    let rv = r_of(coms, zs, ys);
    let tv = t_of(pf.d, rv);
    let n = coms.len() as int;
    let e = msm_of(coms, e_scalars_of(zs, rv, tv, n));
    let yv = y_of(zs, ys, rv, tv, n);
    pairing_one_of(
        g1_add_of(
            g1_add_of(g1_add_of(e, g1_neg_of(pf.d)), g1_neg_of(g1_mul_of(vk.g, yv))),
            g1_mul_of(pf.pi, tv),
        ),
        vk.h,
        g1_neg_of(pf.pi),
        vk.beta_h,
    )
}

/// What a successful `prove` returns: the divisions were exact, the
/// challenge avoided the points, and `D` and `pi` are the committed
/// witness and quotient polynomials.
pub open spec fn prove_ok(
    powers: Seq<G1Pt>,
    polys: Seq<Seq<nat>>,
    coms: Seq<G1Pt>,
    zs: Seq<Scalar>,
    ys: Seq<Scalar>,
    pf: Proof,
) -> bool {
    let n = coms.len() as int;
    let rv = r_of(coms, zs, ys);
    let g = witness_of(polys, zs, ys, rv, n);
    let d = msm_of(powers.take(g.len() as int), g);
    let tv = t_of(d, rv);
    let pi = pi_poly_of(polys, zs, ys, rv, tv, n);
    &&& n >= 1
    &&& divisions_exact(polys, zs, ys, n)
    &&& no_collision(zs, tv, n)
    &&& pf.d == d
    &&& pf.pi == msm_of(powers.take(pi.len() as int), pi)
}

/// Transcript stability: two prover runs over identical inputs reach
/// identical challenges and emit byte-identical proofs, because every
/// proof component is a function of the inputs.
pub proof fn lemma_prover_deterministic(
    powers: Seq<G1Pt>,
    polys: Seq<Seq<nat>>,
    coms: Seq<G1Pt>,
    zs: Seq<Scalar>,
    ys: Seq<Scalar>,
    pf1: Proof,
    pf2: Proof,
)
    requires
        prove_ok(powers, polys, coms, zs, ys, pf1),
        prove_ok(powers, polys, coms, zs, ys, pf2),
    ensures
        pf1 == pf2,
{
    assert(pf1.d == pf2.d && pf1.pi == pf2.pi);
    assert(pf1 =~= pf2);
}

/// The aggregated KZG multiproof scheme.
pub struct KZGMultiproof {}

impl KZGMultiproof {
    /// The first Fiat-Shamir challenge: absorb every commitment,
    /// point and value in index order and squeeze.
    pub fn compute_r(coms: &Vec<G1Pt>, points: &Vec<Scalar>, values: &Vec<Scalar>) -> (r: Scalar)
        requires
            points@.len() == coms@.len(),
            values@.len() == coms@.len(),
            all_wf(points@),
            all_wf(values@),
        ensures
            r.wf(),
            r.val() == r_of(coms@, points@, values@),
    {
        let mut buf: Vec<u8> = Vec::new();
        let mut j: usize = 0;
        proof {
            assert(buf@ =~= r_bytes(coms@, points@, values@, 0));
        }
        while j < coms.len()
            invariant
                j <= coms@.len(),
                points@.len() == coms@.len(),
                values@.len() == coms@.len(),
                all_wf(points@),
                all_wf(values@),
                buf@ == r_bytes(coms@, points@, values@, j as int),
            decreases coms@.len() - j,
        {
            absorb_g1(&mut buf, &coms[j]);
            absorb_scalar(&mut buf, &points[j]);
            absorb_scalar(&mut buf, &values[j]);
            j = j + 1;
        }
        squeeze(&buf)
    }

    /// The second Fiat-Shamir challenge: absorb `D`, then `r`.
    pub fn compute_t(d: &G1Pt, r: &Scalar) -> (t: Scalar)
        requires
            r.wf(),
        ensures
            t.wf(),
            t.val() == t_of(*d, r.val()),
    {
        let mut buf: Vec<u8> = Vec::new();
        proof {
            assert(buf@ =~= Seq::<u8>::empty());
            lemma_canon_scalar(*r);
        }
        absorb_g1(&mut buf, d);
        absorb_scalar(&mut buf, r);
        squeeze(&buf)
    }

    /// Aggregates `N` openings `p_j(z_j) = y_j` into one proof: the
    /// committed witness `g` and the committed quotient of
    /// `h - g - y` at the squeezed point `t`.
    pub fn prove(
        ck: &CommitKey,
        polys: &Vec<Vec<Scalar>>,
        coms: &Vec<G1Pt>,
        points: &Vec<Scalar>,
        values: &Vec<Scalar>,
    ) -> (r: Result<Proof, Error>)
        requires
            polys@.len() == coms@.len(),
            points@.len() == coms@.len(),
            values@.len() == coms@.len(),
            all_wf(points@),
            all_wf(values@),
            forall|j: int|
                0 <= j < polys@.len() ==> all_wf((#[trigger] polys@[j])@) && polys@[j]@.len()
                    <= ck.powers_of_g@.len(),
            ck.powers_of_g@.len() >= 1,
        ensures
            match r {
                Ok(pf) => prove_ok(ck.powers_of_g@, polys_vals(polys@), coms@, points@, values@, pf),
                Err(e) => {
                    let n = coms@.len() as int;
                    let rv = r_of(coms@, points@, values@);
                    let g = witness_of(polys_vals(polys@), points@, values@, rv, n);
                    let tv = t_of(msm_of(ck.powers_of_g@.take(g.len() as int), g), rv);
                    ||| (e == Error::DegreeIsZero && n == 0)
                    ||| (e == Error::DivisionRemainder && n >= 1 && !divisions_exact(
                        polys_vals(polys@),
                        points@,
                        values@,
                        n,
                    ))
                    ||| (e == Error::InvalidTranscript && n >= 1 && divisions_exact(
                        polys_vals(polys@),
                        points@,
                        values@,
                        n,
                    ) && !no_collision(points@, tv, n))
                },
            },
    {
        let n = coms.len();
        if n == 0 {
            return Err(Error::DegreeIsZero);
        }
        let r = Self::compute_r(coms, points, values);
        let ghost rv = r.val();
        let mut g: Vec<Scalar> = Vec::new();
        let mut j: usize = 0;
        proof {
            assert(vals_of(g@) =~= witness_of(polys_vals(polys@), points@, values@, rv, 0));
        }
        while j < n
            invariant
                j <= n,
                n == coms@.len(),
                polys@.len() == n,
                points@.len() == n,
                values@.len() == n,
                all_wf(points@),
                all_wf(values@),
                forall|t: int|
                    0 <= t < polys@.len() ==> all_wf((#[trigger] polys@[t])@) && polys@[t]@.len()
                        <= ck.powers_of_g@.len(),
                ck.powers_of_g@.len() >= 1,
                r.wf(),
                rv == r.val(),
                all_wf(g@),
                vals_of(g@) == witness_of(polys_vals(polys@), points@, values@, rv, j as int),
                g@.len() + 1 <= ck.powers_of_g@.len(),
                forall|t: int|
                    0 <= t < j ==> peval_spec(shifted_j(polys_vals(polys@), values@, t), (#[trigger] points@[t]).val())
                        == 0,
            decreases n - j,
        {
            let mut ypoly: Vec<Scalar> = Vec::new();
            ypoly.push(values[j]);
            let shifted = poly_sub(&polys[j], &ypoly);
            let (q, rem) = poly_div_linear(&shifted, &points[j]);
            proof {
                assert(vals_of(ypoly@) =~= seq![values@[j as int].val()]);
                assert(vals_of(shifted@) == shifted_j(polys_vals(polys@), values@, j as int));
            }
            if !rem.is_zero() {
                return Err(Error::DivisionRemainder);
            }
            let r_j = fr_pow(&r, j as u64);
            let scaled = poly_scale(&r_j, &q);
            let gnext = poly_add(&g, &scaled);
            proof {
                assert(vals_of(q@) == quot_j(polys_vals(polys@), points@, values@, j as int));
                assert(vals_of(gnext@) == witness_of(polys_vals(polys@), points@, values@, rv, j + 1));
                assert(q@.len() + 1 <= ck.powers_of_g@.len()) by {
                    assert(shifted@.len() >= 1);
                    assert(q@.len() == shifted@.len() - 1 || shifted@.len() <= 1);
                }
                assert(gnext@.len() + 1 <= ck.powers_of_g@.len());
            }
            g = gnext;
            j = j + 1;
        }
        let d = KZG::commit(ck, &g);
        let t = Self::compute_t(&d, &r);
        let ghost tv = t.val();
        proof {
            assert(tv == t_of(
                msm_of(
                    ck.powers_of_g@.take(g@.len() as int),
                    witness_of(polys_vals(polys@), points@, values@, rv, n as int),
                ),
                rv,
            ));
        }
        let mut h: Vec<Scalar> = Vec::new();
        let mut y = Scalar::zero();
        let mut k: usize = 0;
        proof {
            assert(vals_of(h@) =~= h_of(polys_vals(polys@), points@, rv, tv, 0));
        }
        while k < n
            invariant
                k <= n,
                n == coms@.len(),
                polys@.len() == n,
                points@.len() == n,
                values@.len() == n,
                all_wf(points@),
                all_wf(values@),
                forall|t2: int|
                    0 <= t2 < polys@.len() ==> all_wf((#[trigger] polys@[t2])@) && polys@[t2]@.len()
                        <= ck.powers_of_g@.len(),
                r.wf(),
                rv == r.val(),
                t.wf(),
                tv == t.val(),
                rv == r_of(coms@, points@, values@),
                all_wf(g@),
                vals_of(g@) == witness_of(polys_vals(polys@), points@, values@, rv, n as int),
                divisions_exact(polys_vals(polys@), points@, values@, n as int),
                tv == t_of(
                    msm_of(
                        ck.powers_of_g@.take(g@.len() as int),
                        witness_of(polys_vals(polys@), points@, values@, rv, n as int),
                    ),
                    rv,
                ),
                g@.len() + 1 <= ck.powers_of_g@.len(),
                all_wf(h@),
                y.wf(),
                vals_of(h@) == h_of(polys_vals(polys@), points@, rv, tv, k as int),
                y.val() == y_of(points@, values@, rv, tv, k as int),
                h@.len() <= ck.powers_of_g@.len(),
                forall|t2: int| 0 <= t2 < k ==> tz_j(points@, tv, t2) != 0,
            decreases n - k,
        {
            let tz = crate::field::fr_sub(&t, &points[k]);
            proof {
                assert(tz.val() == tz_j(points@, tv, k as int));
            }
            if tz.is_zero() {
                proof {
                    assert(tz_j(points@, tv, k as int) == 0);
                    assert(!no_collision(points@, tv, n as int));
                }
                return Err(Error::InvalidTranscript);
            }
            let r_k = fr_pow(&r, k as u64);
            let y_frac = fr_div(&fr_mul(&r_k, &values[k]), &tz);
            let ynext = fr_add(&y, &y_frac);
            let coef = fr_div(&r_k, &tz);
            let hnext = poly_add(&h, &poly_scale(&coef, &polys[k]));
            proof {
                assert(vals_of(hnext@) == h_of(polys_vals(polys@), points@, rv, tv, k + 1));
                assert(ynext.val() == y_of(points@, values@, rv, tv, k + 1));
            }
            h = hnext;
            y = ynext;
            k = k + 1;
        }
        let hg = poly_sub(&h, &g);
        let mut yvec: Vec<Scalar> = Vec::new();
        yvec.push(y);
        let hgy = poly_sub(&hg, &yvec);
        let (pi_poly, _rem) = poly_div_linear(&hgy, &t);
        proof {
            assert(vals_of(yvec@) =~= seq![y_of(points@, values@, rv, tv, n as int)]);
            assert(vals_of(pi_poly@) == pi_poly_of(polys_vals(polys@), points@, values@, rv, tv, n as int));
            assert(pi_poly@.len() <= ck.powers_of_g@.len());
        }
        let pi = KZG::commit(ck, &pi_poly);
        Ok(Proof { d, pi })
    }

    /// Recomputes the challenges, aggregates the commitments into `E`
    /// with the same weights, and accepts exactly when the pairing
    /// equation holds.
    pub fn verify(
        vk: &VerifyKey,
        coms: &Vec<G1Pt>,
        points: &Vec<Scalar>,
        values: &Vec<Scalar>,
        proof: &Proof,
    ) -> (r: Result<bool, Error>)
        requires
            points@.len() == coms@.len(),
            values@.len() == coms@.len(),
            all_wf(points@),
            all_wf(values@),
        ensures
            match r {
                Ok(b) => {
                    let n = coms@.len() as int;
                    &&& n >= 1
                    &&& no_collision(points@, t_of(proof.d, r_of(coms@, points@, values@)), n)
                    &&& b == accepts_spec(*vk, coms@, points@, values@, *proof)
                },
                Err(e) => {
                    let n = coms@.len() as int;
                    ||| (e == Error::DegreeIsZero && n == 0)
                    ||| (e == Error::InvalidTranscript && n >= 1 && !no_collision(
                        points@,
                        t_of(proof.d, r_of(coms@, points@, values@)),
                        n,
                    ))
                },
            },
    {
        let n = coms.len();
        if n == 0 {
            return Err(Error::DegreeIsZero);
        }
        let r = Self::compute_r(coms, points, values);
        let t = Self::compute_t(&proof.d, &r);
        let ghost rv = r.val();
        let ghost tv = t.val();
        let mut e_scalars: Vec<Scalar> = Vec::new();
        let mut y = Scalar::zero();
        let mut j: usize = 0;
        while j < n
            invariant
                j <= n,
                n == coms@.len(),
                points@.len() == n,
                values@.len() == n,
                all_wf(points@),
                all_wf(values@),
                r.wf(),
                rv == r.val(),
                t.wf(),
                tv == t.val(),
                rv == r_of(coms@, points@, values@),
                tv == t_of(proof.d, rv),
                y.wf(),
                y.val() == y_of(points@, values@, rv, tv, j as int),
                e_scalars@.len() == j,
                all_wf(e_scalars@),
                forall|u: int|
                    0 <= u < j ==> (#[trigger] e_scalars@[u]).val() == fr_div_spec(
                        fr_pow_spec(rv, u as nat),
                        tz_j(points@, tv, u),
                    ),
                forall|u: int| 0 <= u < j ==> tz_j(points@, tv, u) != 0,
            decreases n - j,
        {
            let tz = crate::field::fr_sub(&t, &points[j]);
            if tz.is_zero() {
                proof {
                    assert(tz_j(points@, tv, j as int) == 0);
                    assert(!no_collision(points@, tv, n as int));
                }
                return Err(Error::InvalidTranscript);
            }
            let r_j = fr_pow(&r, j as u64);
            let y_frac = fr_div(&fr_mul(&r_j, &values[j]), &tz);
            let ynext = fr_add(&y, &y_frac);
            proof {
                assert(ynext.val() == y_of(points@, values@, rv, tv, j + 1));
            }
            y = ynext;
            e_scalars.push(fr_div(&r_j, &tz));
            j = j + 1;
        }
        let e = g1_msm(coms, &e_scalars);
        proof {
            assert(vals_of(e_scalars@) =~= e_scalars_of(points@, rv, tv, n as int));
        }
        let yg = g1_mul(&vk.g, &y);
        let tpi = g1_mul(&proof.pi, &t);
        let lhs = g1_add(&g1_add(&g1_add(&e, &g1_neg(&proof.d)), &g1_neg(&yg)), &tpi);
        let rhs = g1_neg(&proof.pi);
        Ok(pairing_is_one(&lhs, &vk.h, &rhs, &vk.beta_h))
    }
}

} // verus!
