//! The batched-set multiproof: each polynomial is opened on its own
//! set of points. The claimed values are folded into Lagrange
//! interpolants, the linear divisors into vanishing polynomials, and
//! the transcript absorbs only the commitments.
use crate::curve::{
    g1_add, g1_add_of, g1_msm, g1_mul, g1_mul_of, g1_neg, g1_neg_of, msm_of, pairing_is_one,
    pairing_one_of, G1Pt,
};
use crate::field::{
    fr_add, fr_div, fr_div_spec, fr_mod, fr_mul, fr_pow, fr_pow_spec, fr_sub, Scalar,
};
use crate::kzg::{CommitKey, VerifyKey, KZG};
use crate::multiproof::{polys_vals, t_of, Proof};
use crate::poly::{
    all_wf, lin_mul_spec, lin_quot_spec, monic_divmod_spec, padd_spec, peval_spec, poly_add,
    poly_div_linear, poly_divmod_monic, poly_eval, poly_is_zero, poly_mul_linear, poly_scale,
    poly_sub, pscale_spec, psub_spec, vals_of,
};
use crate::transcript::{absorb_g1, absorb_g1_spec, challenge_of, squeeze};
use crate::Error;
use vstd::prelude::*;

verus! {

/// The transcript bytes for the first challenge: the commitments
/// alone, in index order.
pub open spec fn mp_r_bytes(coms: Seq<G1Pt>, n: int) -> Seq<u8>
    decreases n,
{
    if n <= 0 {
        Seq::empty()
    } else {
        absorb_g1_spec(mp_r_bytes(coms, n - 1), coms[n - 1])
    }
}

/// The aggregation challenge `r` of the batched-set variant.
pub open spec fn mp_r_of(coms: Seq<G1Pt>) -> nat {
    challenge_of(mp_r_bytes(coms, coms.len() as int))
}

/// The Lagrange numerator through the first `m` points, skipping
/// point `i`: the partial product of `(X - x_j) / (x_i - x_j)`.
pub open spec fn lag_basis(points: Seq<Scalar>, i: int, m: int) -> Seq<nat>
    decreases m,
{
    if m <= 0 {
        seq![1nat]
    } else if m - 1 == i {
        lag_basis(points, i, m - 1)
    } else {
        pscale_spec(
            fr_div_spec(1, diff_of(points, i, m - 1)),
            lin_mul_spec(lag_basis(points, i, m - 1), points[m - 1].val()),
        )
    }
}

/// `x_i - x_j` in the field.
pub open spec fn diff_of(points: Seq<Scalar>, i: int, j: int) -> nat {
    ((points[i].val() + fr_mod() - points[j].val()) as nat) % fr_mod()
}

/// All points in a set are pairwise distinct field elements.
pub open spec fn all_distinct(points: Seq<Scalar>) -> bool {
    forall|i: int, j: int|
        0 <= i < points.len() && 0 <= j < points.len() && i != j ==> diff_of(points, i, j) != 0
}

/// The Lagrange interpolant through the first `m` point-value pairs.
pub open spec fn eval_poly_of(points: Seq<Scalar>, values: Seq<Scalar>, m: int) -> Seq<nat>
    decreases m,
{
    if m <= 0 {
        Seq::empty()
    } else {
        padd_spec(
            eval_poly_of(points, values, m - 1),
            pscale_spec(values[m - 1].val(), lag_basis(points, m - 1, points.len() as int)),
        )
    }
}

/// The vanishing polynomial of the first `m` points.
pub open spec fn zero_poly_of(points: Seq<Scalar>, m: int) -> Seq<nat>
    decreases m,
{
    if m <= 0 {
        seq![1nat]
    } else {
        lin_mul_spec(zero_poly_of(points, m - 1), points[m - 1].val())
    }
}

/// The interpolant and vanishing polynomial of group `j`.
pub open spec fn ev_j(pts: Seq<Vec<Scalar>>, vls: Seq<Vec<Scalar>>, j: int) -> Seq<nat> {
    eval_poly_of(pts[j]@, vls[j]@, pts[j]@.len() as int)
}

/// The vanishing polynomial of group `j`.
pub open spec fn zp_j(pts: Seq<Vec<Scalar>>, j: int) -> Seq<nat> {
    zero_poly_of(pts[j]@, pts[j]@.len() as int)
}

/// Division `(p_j - L_j) / Z_j` leaves no remainder for any group.
pub open spec fn mp_divisions_exact(
    polys: Seq<Seq<nat>>,
    pts: Seq<Vec<Scalar>>,
    vls: Seq<Vec<Scalar>>,
    n: int,
) -> bool {
    forall|j: int|
        0 <= j < n ==> all_zero(
            monic_divmod_spec(
                psub_spec(#[trigger] polys[j], ev_j(pts, vls, j)),
                zp_j(pts, j),
            ).1,
        )
}

/// Every coefficient is zero.
pub open spec fn all_zero(a: Seq<nat>) -> bool {
    forall|i: int| 0 <= i < a.len() ==> #[trigger] a[i] == 0
}

/// The aggregated witness polynomial of the batched-set variant.
pub open spec fn mp_witness_of(
    polys: Seq<Seq<nat>>,
    pts: Seq<Vec<Scalar>>,
    vls: Seq<Vec<Scalar>>,
    rv: nat,
    n: int,
) -> Seq<nat>
    decreases n,
{
    if n <= 0 {
        Seq::empty()
    } else {
        padd_spec(
            mp_witness_of(polys, pts, vls, rv, n - 1),
            pscale_spec(
                fr_pow_spec(rv, (n - 1) as nat),
                monic_divmod_spec(psub_spec(polys[n - 1], ev_j(pts, vls, n - 1)), zp_j(pts, n - 1)).0,
            ),
        )
    }
}

/// `Z_j(t)`: the vanishing polynomial of group `j` at the challenge.
pub open spec fn ztv_j(pts: Seq<Vec<Scalar>>, tv: nat, j: int) -> nat {
    peval_spec(zp_j(pts, j), tv)
}

/// The challenge avoids the roots of every vanishing polynomial.
pub open spec fn mp_no_collision(pts: Seq<Vec<Scalar>>, tv: nat, n: int) -> bool {
    forall|j: int| 0 <= j < n ==> ztv_j(pts, tv, j) != 0
}

/// The aggregated claimed value `y = sum r^j L_j(t) / Z_j(t)`.
pub open spec fn mp_y_of(pts: Seq<Vec<Scalar>>, vls: Seq<Vec<Scalar>>, rv: nat, tv: nat, n: int) -> nat
    decreases n,
{
    if n <= 0 {
        0
    } else {
        (mp_y_of(pts, vls, rv, tv, n - 1) + fr_div_spec(
            (fr_pow_spec(rv, (n - 1) as nat) * peval_spec(ev_j(pts, vls, n - 1), tv)) % fr_mod(),
            ztv_j(pts, tv, n - 1),
        )) % fr_mod()
    }
}

/// The aggregated polynomial `h = sum (r^j / Z_j(t)) p_j`.
pub open spec fn mp_h_of(
    polys: Seq<Seq<nat>>,
    pts: Seq<Vec<Scalar>>,
    rv: nat,
    tv: nat,
    n: int,
) -> Seq<nat>
    decreases n,
{
    if n <= 0 {
        Seq::empty()
    } else {
        padd_spec(
            mp_h_of(polys, pts, rv, tv, n - 1),
            pscale_spec(
                fr_div_spec(fr_pow_spec(rv, (n - 1) as nat), ztv_j(pts, tv, n - 1)),
                polys[n - 1],
            ),
        )
    }
}

/// The quotient polynomial behind `pi`.
pub open spec fn mp_pi_poly_of(
    polys: Seq<Seq<nat>>,
    pts: Seq<Vec<Scalar>>,
    vls: Seq<Vec<Scalar>>,
    rv: nat,
    tv: nat,
    n: int,
) -> Seq<nat> {
    lin_quot_spec(
        psub_spec(
            psub_spec(mp_h_of(polys, pts, rv, tv, n), mp_witness_of(polys, pts, vls, rv, n)),
            seq![mp_y_of(pts, vls, rv, tv, n)],
        ),
        tv,
    )
}

/// The scalars of the verifier's aggregated commitment.
pub open spec fn mp_e_scalars_of(pts: Seq<Vec<Scalar>>, rv: nat, tv: nat, n: int) -> Seq<nat> {
    Seq::new(n as nat, |j: int| fr_div_spec(fr_pow_spec(rv, j as nat), ztv_j(pts, tv, j)))
}

/// The verifier's pairing equation for the batched-set variant.
pub open spec fn mp_accepts_spec(
    vk: VerifyKey,
    coms: Seq<G1Pt>,
    pts: Seq<Vec<Scalar>>,
    vls: Seq<Vec<Scalar>>,
    pf: Proof,
) -> bool {
    let rv = mp_r_of(coms);
    let tv = t_of(pf.d, rv);
    let n = coms.len() as int;
    let e = msm_of(coms, mp_e_scalars_of(pts, rv, tv, n));
    let yv = mp_y_of(pts, vls, rv, tv, n);
    pairing_one_of(
        g1_add_of(
            g1_add_of(g1_add_of(e, g1_neg_of(pf.d)), g1_neg_of(g1_mul_of(vk.g, yv))),
            g1_mul_of(pf.pi, tv),
        ),
        vk.h,
        g1_neg_of(pf.pi),
        vk.beta_h,
    )
}

/// The shape every input group must have for proving: canonical
/// scalars, matching lengths, distinct points, degrees under the key.
pub open spec fn group_ok(
    polys: Seq<Vec<Scalar>>,
    pts: Seq<Vec<Scalar>>,
    vls: Seq<Vec<Scalar>>,
    cap: int,
    j: int,
) -> bool {
    &&& all_wf(polys[j]@)
    &&& all_wf(pts[j]@)
    &&& all_wf(vls[j]@)
    &&& pts[j]@.len() == vls[j]@.len()
    &&& pts[j]@.len() < usize::MAX
    &&& all_distinct(pts[j]@)
    &&& polys[j]@.len() <= cap
    &&& pts[j]@.len() + 1 <= cap
}

/// The shape every input group must have for verifying.
pub open spec fn vgroup_ok(pts: Seq<Vec<Scalar>>, vls: Seq<Vec<Scalar>>, j: int) -> bool {
    &&& all_wf(pts[j]@)
    &&& all_wf(vls[j]@)
    &&& pts[j]@.len() == vls[j]@.len()
    &&& pts[j]@.len() < usize::MAX
    &&& all_distinct(pts[j]@)
}

/// What a successful batched-set `prove` returns.
pub open spec fn mp_prove_ok(
    powers: Seq<G1Pt>,
    polys: Seq<Seq<nat>>,
    coms: Seq<G1Pt>,
    pts: Seq<Vec<Scalar>>,
    vls: Seq<Vec<Scalar>>,
    pf: Proof,
) -> bool {
    let n = coms.len() as int;
    let rv = mp_r_of(coms);
    let g = mp_witness_of(polys, pts, vls, rv, n);
    let d = msm_of(powers.take(g.len() as int), g);
    let tv = t_of(d, rv);
    let pi = mp_pi_poly_of(polys, pts, vls, rv, tv, n);
    &&& n >= 1
    &&& mp_divisions_exact(polys, pts, vls, n)
    &&& mp_no_collision(pts, tv, n)
    &&& pf.d == d
    &&& pf.pi == msm_of(powers.take(pi.len() as int), pi)
}

/// Transcript stability for the batched-set variant: two prover runs
/// over identical inputs emit identical proofs.
pub proof fn lemma_mp_prover_deterministic(
    powers: Seq<G1Pt>,
    polys: Seq<Seq<nat>>,
    coms: Seq<G1Pt>,
    pts: Seq<Vec<Scalar>>,
    vls: Seq<Vec<Scalar>>,
    pf1: Proof,
    pf2: Proof,
)
    requires
        mp_prove_ok(powers, polys, coms, pts, vls, pf1),
        mp_prove_ok(powers, polys, coms, pts, vls, pf2),
    ensures
        pf1 == pf2,
{
    assert(pf1.d == pf2.d && pf1.pi == pf2.pi);
    assert(pf1 =~= pf2);
}

/// The batched-set KZG multiproof scheme.
pub struct KZGMultipoint {}

impl KZGMultipoint {
    /// The first Fiat-Shamir challenge: the commitments alone.
    pub fn compute_r(coms: &Vec<G1Pt>) -> (r: Scalar)
        ensures
            r.wf(),
            r.val() == mp_r_of(coms@),
    {
        let mut buf: Vec<u8> = Vec::new();
        let mut j: usize = 0;
        proof {
            assert(buf@ =~= mp_r_bytes(coms@, 0));
        }
        while j < coms.len()
            invariant
                j <= coms@.len(),
                buf@ == mp_r_bytes(coms@, j as int),
            decreases coms@.len() - j,
        {
            absorb_g1(&mut buf, &coms[j]);
            j = j + 1;
        }
        squeeze(&buf)
    }

    /// The Lagrange interpolant through one group's points and
    /// values.
    fn interpolate(points: &Vec<Scalar>, values: &Vec<Scalar>) -> (r: Vec<Scalar>)
        requires
            points@.len() == values@.len(),
            points@.len() < usize::MAX,
            all_wf(points@),
            all_wf(values@),
            all_distinct(points@),
        ensures
            all_wf(r@),
            vals_of(r@) == eval_poly_of(points@, values@, points@.len() as int),
            r@.len() <= points@.len(),
    {
        let m = points.len();
        let mut result: Vec<Scalar> = Vec::new();
        let mut i: usize = 0;
        proof {
            assert(vals_of(result@) =~= eval_poly_of(points@, values@, 0));
        }
        while i < m
            invariant
                i <= m,
                m == points@.len(),
                m < usize::MAX,
                values@.len() == m,
                all_wf(points@),
                all_wf(values@),
                all_distinct(points@),
                all_wf(result@),
                vals_of(result@) == eval_poly_of(points@, values@, i as int),
                result@.len() <= m,
            decreases m - i,
        {
            let one = Scalar::from_u64(1);
            let mut l_i: Vec<Scalar> = Vec::new();
            l_i.push(one);
            let mut j: usize = 0;
            proof {
                assert(vals_of(l_i@) =~= lag_basis(points@, i as int, 0));
            }
            while j < m
                invariant
                    j <= m,
                    i < m,
                    m == points@.len(),
                    m < usize::MAX,
                    all_wf(points@),
                    all_distinct(points@),
                    all_wf(l_i@),
                    vals_of(l_i@) == lag_basis(points@, i as int, j as int),
                    l_i@.len() == if i < j {
                        j as int
                    } else {
                        j + 1
                    },
                decreases m - j,
            {
                if j != i {
                    let diff = fr_sub(&points[i], &points[j]);
                    proof {
                        assert(diff.val() == diff_of(points@, i as int, j as int));
                    }
                    let inv = fr_div(&Scalar::from_u64(1), &diff);
                    let lifted = poly_mul_linear(&l_i, &points[j]);
                    l_i = poly_scale(&inv, &lifted);
                }
                j = j + 1;
            }
            let scaled = poly_scale(&values[i], &l_i);
            result = poly_add(&result, &scaled);
            i = i + 1;
        }
        result
    }

    /// The vanishing polynomial of one group's points.
    fn vanishing(points: &Vec<Scalar>) -> (r: Vec<Scalar>)
        requires
            points@.len() < usize::MAX,
            all_wf(points@),
        ensures
            all_wf(r@),
            vals_of(r@) == zero_poly_of(points@, points@.len() as int),
            r@.len() == points@.len() + 1,
    {
        let one = Scalar::from_u64(1);
        let mut z: Vec<Scalar> = Vec::new();
        z.push(one);
        let mut j: usize = 0;
        proof {
            assert(vals_of(z@) =~= zero_poly_of(points@, 0));
        }
        while j < points.len()
            invariant
                j <= points@.len(),
                points@.len() < usize::MAX,
                all_wf(points@),
                all_wf(z@),
                vals_of(z@) == zero_poly_of(points@, j as int),
                z@.len() == j + 1,
            decreases points@.len() - j,
        {
            z = poly_mul_linear(&z, &points[j]);
            j = j + 1;
        }
        z
    }

    /// Aggregates openings of `N` polynomials on their own point sets
    /// into one constant-size proof.
    pub fn prove(
        ck: &CommitKey,
        polys: &Vec<Vec<Scalar>>,
        coms: &Vec<G1Pt>,
        points: &Vec<Vec<Scalar>>,
        values: &Vec<Vec<Scalar>>,
    ) -> (r: Result<Proof, Error>)
        requires
            polys@.len() == coms@.len(),
            points@.len() == coms@.len(),
            values@.len() == coms@.len(),
            forall|j: int|
                0 <= j < coms@.len() ==> #[trigger] group_ok(
                    polys@,
                    points@,
                    values@,
                    ck.powers_of_g@.len() as int,
                    j,
                ),
            ck.powers_of_g@.len() >= 1,
        ensures
            match r {
                Ok(pf) => mp_prove_ok(
                    ck.powers_of_g@,
                    polys_vals(polys@),
                    coms@,
                    points@,
                    values@,
                    pf,
                ),
                Err(e) => {
                    let n = coms@.len() as int;
                    ||| (e == Error::DegreeIsZero && n == 0)
                    ||| (e == Error::DivisionRemainder && n >= 1 && !mp_divisions_exact(
                        polys_vals(polys@),
                        points@,
                        values@,
                        n,
                    ))
                    ||| (e == Error::InvalidTranscript && n >= 1 && {
                        let rv = mp_r_of(coms@);
                        let g = mp_witness_of(polys_vals(polys@), points@, values@, rv, n);
                        !mp_no_collision(
                            points@,
                            t_of(msm_of(ck.powers_of_g@.take(g.len() as int), g), rv),
                            n,
                        )
                    })
                },
            },
    {
        let n = coms.len();
        if n == 0 {
            return Err(Error::DegreeIsZero);
        }
        let r = Self::compute_r(coms);
        let ghost rv = r.val();
        let mut g: Vec<Scalar> = Vec::new();
        let mut j: usize = 0;
        proof {
            assert(vals_of(g@) =~= mp_witness_of(polys_vals(polys@), points@, values@, rv, 0));
        }
        while j < n
            invariant
                j <= n,
                n == coms@.len(),
                polys@.len() == n,
                points@.len() == n,
                values@.len() == n,
                forall|t: int|
                    0 <= t < n ==> #[trigger] group_ok(
                        polys@,
                        points@,
                        values@,
                        ck.powers_of_g@.len() as int,
                        t,
                    ),
                ck.powers_of_g@.len() >= 1,
                r.wf(),
                rv == r.val(),
                all_wf(g@),
                vals_of(g@) == mp_witness_of(polys_vals(polys@), points@, values@, rv, j as int),
                g@.len() <= ck.powers_of_g@.len(),
                forall|t: int|
                    0 <= t < j ==> all_zero(
                        monic_divmod_spec(
                            psub_spec(#[trigger] polys_vals(polys@)[t], ev_j(points@, values@, t)),
                            zp_j(points@, t),
                        ).1,
                    ),
            decreases n - j,
        {
            proof {
                assert(group_ok(polys@, points@, values@, ck.powers_of_g@.len() as int, j as int));
            }
            let lj = Self::interpolate(&points[j], &values[j]);
            let zj = Self::vanishing(&points[j]);
            let shifted = poly_sub(&polys[j], &lj);
            let (q, rem) = poly_divmod_monic(&shifted, &zj);
            if !poly_is_zero(&rem) {
                proof {
                    let rv2 = monic_divmod_spec(
                        psub_spec(polys_vals(polys@)[j as int], ev_j(points@, values@, j as int)),
                        zp_j(points@, j as int),
                    ).1;
                    assert(exists|i: int|
                        0 <= i < rem@.len() && (#[trigger] rem@[i]).val() != 0);
                    let iw = choose|i: int| 0 <= i < rem@.len() && (#[trigger] rem@[i]).val() != 0;
                    assert(rv2[iw] == vals_of(rem@)[iw]);
                    assert(!all_zero(rv2));
                }
                return Err(Error::DivisionRemainder);
            }
            let r_j = fr_pow(&r, j as u64);
            let scaled = poly_scale(&r_j, &q);
            let gnext = poly_add(&g, &scaled);
            proof {
                assert(vals_of(gnext@) == mp_witness_of(
                    polys_vals(polys@),
                    points@,
                    values@,
                    rv,
                    j + 1,
                ));
                assert(q@.len() <= ck.powers_of_g@.len()) by {
                    assert(shifted@.len() <= ck.powers_of_g@.len());
                }
            }
            g = gnext;
            j = j + 1;
        }
        let d = KZG::commit(ck, &g);
        let t = crate::multiproof::KZGMultiproof::compute_t(&d, &r);
        let ghost tv = t.val();
        let mut h: Vec<Scalar> = Vec::new();
        let mut y = Scalar::zero();
        let mut k: usize = 0;
        proof {
            assert(vals_of(h@) =~= mp_h_of(polys_vals(polys@), points@, rv, tv, 0));
        }
        while k < n
            invariant
                k <= n,
                n == coms@.len(),
                polys@.len() == n,
                points@.len() == n,
                values@.len() == n,
                forall|t2: int|
                    0 <= t2 < n ==> #[trigger] group_ok(
                        polys@,
                        points@,
                        values@,
                        ck.powers_of_g@.len() as int,
                        t2,
                    ),
                r.wf(),
                rv == r.val(),
                t.wf(),
                tv == t.val(),
                rv == mp_r_of(coms@),
                all_wf(g@),
                vals_of(g@) == mp_witness_of(polys_vals(polys@), points@, values@, rv, n as int),
                mp_divisions_exact(polys_vals(polys@), points@, values@, n as int),
                tv == t_of(
                    msm_of(
                        ck.powers_of_g@.take(g@.len() as int),
                        mp_witness_of(polys_vals(polys@), points@, values@, rv, n as int),
                    ),
                    rv,
                ),
                g@.len() <= ck.powers_of_g@.len(),
                all_wf(h@),
                y.wf(),
                vals_of(h@) == mp_h_of(polys_vals(polys@), points@, rv, tv, k as int),
                y.val() == mp_y_of(points@, values@, rv, tv, k as int),
                h@.len() <= ck.powers_of_g@.len(),
                forall|t2: int| 0 <= t2 < k ==> ztv_j(points@, tv, t2) != 0,
            decreases n - k,
        {
            proof {
                assert(group_ok(polys@, points@, values@, ck.powers_of_g@.len() as int, k as int));
            }
            let lj = Self::interpolate(&points[k], &values[k]);
            let zj = Self::vanishing(&points[k]);
            let ztv = poly_eval(&zj, &t);
            proof {
                assert(ztv.val() == ztv_j(points@, tv, k as int));
            }
            if ztv.is_zero() {
                proof {
                    assert(!mp_no_collision(points@, tv, n as int));
                }
                return Err(Error::InvalidTranscript);
            }
            let ltv = poly_eval(&lj, &t);
            let r_k = fr_pow(&r, k as u64);
            let y_frac = fr_div(&fr_mul(&r_k, &ltv), &ztv);
            let ynext = fr_add(&y, &y_frac);
            let coef = fr_div(&r_k, &ztv);
            let hnext = poly_add(&h, &poly_scale(&coef, &polys[k]));
            proof {
                assert(vals_of(hnext@) == mp_h_of(polys_vals(polys@), points@, rv, tv, k + 1));
                assert(ynext.val() == mp_y_of(points@, values@, rv, tv, k + 1));
            }
            h = hnext;
            y = ynext;
            k = k + 1;
        }
        let hg = poly_sub(&h, &g);
        let mut yvec: Vec<Scalar> = Vec::new();
        yvec.push(y);
        let hgy = poly_sub(&hg, &yvec);
        let (pi_poly, _rem) = poly_div_linear(&hgy, &t);
        proof {
            assert(vals_of(yvec@) =~= seq![mp_y_of(points@, values@, rv, tv, n as int)]);
            assert(vals_of(pi_poly@) == mp_pi_poly_of(
                polys_vals(polys@),
                points@,
                values@,
                rv,
                tv,
                n as int,
            ));
            assert(pi_poly@.len() <= ck.powers_of_g@.len());
        }
        let pi = KZG::commit(ck, &pi_poly);
        Ok(Proof { d, pi })
    }

    /// Verifies a batched-set proof: recompute the challenges, fold
    /// the interpolants and vanishing polynomials at `t`, and check
    /// the pairing equation.
    pub fn verify(
        vk: &VerifyKey,
        coms: &Vec<G1Pt>,
        points: &Vec<Vec<Scalar>>,
        values: &Vec<Vec<Scalar>>,
        proof: &Proof,
    ) -> (r: Result<bool, Error>)
        requires
            points@.len() == coms@.len(),
            values@.len() == coms@.len(),
            forall|j: int| 0 <= j < coms@.len() ==> #[trigger] vgroup_ok(points@, values@, j),
        ensures
            match r {
                Ok(b) => {
                    let n = coms@.len() as int;
                    &&& n >= 1
                    &&& mp_no_collision(points@, t_of(proof.d, mp_r_of(coms@)), n)
                    &&& b == mp_accepts_spec(*vk, coms@, points@, values@, *proof)
                },
                Err(e) => {
                    let n = coms@.len() as int;
                    ||| (e == Error::DegreeIsZero && n == 0)
                    ||| (e == Error::InvalidTranscript && n >= 1 && !mp_no_collision(
                        points@,
                        t_of(proof.d, mp_r_of(coms@)),
                        n,
                    ))
                },
            },
    {
        let n = coms.len();
        if n == 0 {
            return Err(Error::DegreeIsZero);
        }
        let r = Self::compute_r(coms);
        let t = crate::multiproof::KZGMultiproof::compute_t(&proof.d, &r);
        let ghost rv = r.val();
        let ghost tv = t.val();
        let mut e_scalars: Vec<Scalar> = Vec::new();
        let mut y = Scalar::zero();
        let mut j: usize = 0;
        while j < n
            invariant
                j <= n,
                n == coms@.len(),
                points@.len() == n,
                values@.len() == n,
                forall|t2: int| 0 <= t2 < n ==> #[trigger] vgroup_ok(points@, values@, t2),
                r.wf(),
                rv == r.val(),
                t.wf(),
                tv == t.val(),
                rv == mp_r_of(coms@),
                tv == t_of(proof.d, rv),
                y.wf(),
                y.val() == mp_y_of(points@, values@, rv, tv, j as int),
                e_scalars@.len() == j,
                all_wf(e_scalars@),
                forall|u: int|
                    0 <= u < j ==> (#[trigger] e_scalars@[u]).val() == fr_div_spec(
                        fr_pow_spec(rv, u as nat),
                        ztv_j(points@, tv, u),
                    ),
                forall|u: int| 0 <= u < j ==> ztv_j(points@, tv, u) != 0,
            decreases n - j,
        {
            proof {
                assert(vgroup_ok(points@, values@, j as int));
            }
            let lj = Self::interpolate(&points[j], &values[j]);
            let zj = Self::vanishing(&points[j]);
            let ztv = poly_eval(&zj, &t);
            if ztv.is_zero() {
                proof {
                    assert(ztv_j(points@, tv, j as int) == 0);
                    assert(!mp_no_collision(points@, tv, n as int));
                }
                return Err(Error::InvalidTranscript);
            }
            let ltv = poly_eval(&lj, &t);
            let r_j = fr_pow(&r, j as u64);
            let y_frac = fr_div(&fr_mul(&r_j, &ltv), &ztv);
            let ynext = fr_add(&y, &y_frac);
            proof {
                assert(ynext.val() == mp_y_of(points@, values@, rv, tv, j + 1));
            }
            y = ynext;
            e_scalars.push(fr_div(&r_j, &ztv));
            j = j + 1;
        }
        let e = g1_msm(coms, &e_scalars);
        proof {
            assert(vals_of(e_scalars@) =~= mp_e_scalars_of(points@, rv, tv, n as int));
        }
        let yg = g1_mul(&vk.g, &y);
        let tpi = g1_mul(&proof.pi, &t);
        let lhs = g1_add(&g1_add(&g1_add(&e, &g1_neg(&proof.d)), &g1_neg(&yg)), &tpi);
        let rhs = g1_neg(&proof.pi);
        Ok(pairing_is_one(&lhs, &vk.h, &rhs, &vk.beta_h))
    }
}

} // verus!
