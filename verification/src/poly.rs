//! Dense univariate polynomials over the BN254 scalar field.
//!
//! A polynomial is a coefficient vector, lowest degree first. The
//! functions here are verified against coefficient-level specs in
//! modular arithmetic; the field operations themselves come from the
//! trusted adapter in `field`.
use crate::field::{fr_add, fr_mul, fr_sub, fr_mod, Scalar};
use vstd::prelude::*;

verus! {

/// The coefficient values of a polynomial.
pub open spec fn vals_of(s: Seq<Scalar>) -> Seq<nat> {
    Seq::new(s.len(), |i: int| s[i].val())
}

/// All coefficients are canonical field elements.
pub open spec fn all_wf(s: Seq<Scalar>) -> bool {
    forall|i: int| 0 <= i < s.len() ==> (#[trigger] s[i]).wf()
}

/// The coefficient at `i`, or zero beyond the end.
pub open spec fn coeff_at(a: Seq<nat>, i: int) -> nat {
    if 0 <= i < a.len() {
        a[i]
    } else {
        0
    }
}

/// Coefficient-wise sum modulo the field order, at the longer length.
pub open spec fn padd_spec(a: Seq<nat>, b: Seq<nat>) -> Seq<nat> {
    Seq::new(
        if a.len() >= b.len() {
            a.len()
        } else {
            b.len()
        },
        |i: int| (coeff_at(a, i) + coeff_at(b, i)) % fr_mod(),
    )
}

/// Coefficient-wise difference modulo the field order.
pub open spec fn psub_spec(a: Seq<nat>, b: Seq<nat>) -> Seq<nat> {
    Seq::new(
        if a.len() >= b.len() {
            a.len()
        } else {
            b.len()
        },
        |i: int| ((coeff_at(a, i) + fr_mod() - (coeff_at(b, i) % fr_mod())) as nat) % fr_mod(),
    )
}

/// The polynomial scaled by a constant.
pub open spec fn pscale_spec(c: nat, a: Seq<nat>) -> Seq<nat> {
    Seq::new(a.len(), |i: int| (c * a[i]) % fr_mod())
}

/// Horner evaluation modulo the field order.
pub open spec fn peval_spec(a: Seq<nat>, x: nat) -> nat
    decreases a.len(),
{
    if a.len() == 0 {
        0
    } else {
        (a.first() + x * peval_spec(a.drop_first(), x)) % fr_mod()
    }
}

/// The quotient of `a` by the monic linear `X - z`: coefficient `j`
/// is the tail `a[j+1..]` evaluated at `z`. The matching remainder is
/// `peval_spec(a, z)`.
pub open spec fn lin_quot_spec(a: Seq<nat>, z: nat) -> Seq<nat> {
    Seq::new(
        if a.len() <= 1 {
            0nat
        } else {
            (a.len() - 1) as nat
        },
        |j: int| peval_spec(a.skip(j + 1), z),
    )
}

/// Coefficient-wise sum of two polynomials.
pub fn poly_add(a: &Vec<Scalar>, b: &Vec<Scalar>) -> (r: Vec<Scalar>)
    requires
        all_wf(a@),
        all_wf(b@),
    ensures
        all_wf(r@),
        vals_of(r@) == padd_spec(vals_of(a@), vals_of(b@)),
        r@.len() == if a@.len() >= b@.len() {
            a@.len()
        } else {
            b@.len()
        },
{
    let n = if a.len() >= b.len() {
        a.len()
    } else {
        b.len()
    };
    let zero = Scalar::zero();
    let mut out: Vec<Scalar> = Vec::new();
    let mut i: usize = 0;
    while i < n
        invariant
            i <= n,
            n == if a@.len() >= b@.len() {
                a@.len()
            } else {
                b@.len()
            },
            all_wf(a@),
            all_wf(b@),
            zero.wf() && zero.val() == 0,
            out@.len() == i,
            all_wf(out@),
            forall|j: int|
                0 <= j < i ==> (#[trigger] out@[j]).val() == (coeff_at(vals_of(a@), j) + coeff_at(
                    vals_of(b@),
                    j,
                )) % fr_mod(),
        decreases n - i,
    {
        let x = if i < a.len() {
            a[i]
        } else {
            zero
        };
        let y = if i < b.len() {
            b[i]
        } else {
            zero
        };
        out.push(fr_add(&x, &y));
        i = i + 1;
    }
    proof {
        assert(vals_of(out@) =~= padd_spec(vals_of(a@), vals_of(b@)));
    }
    out
}

/// Coefficient-wise difference of two polynomials.
pub fn poly_sub(a: &Vec<Scalar>, b: &Vec<Scalar>) -> (r: Vec<Scalar>)
    requires
        all_wf(a@),
        all_wf(b@),
    ensures
        all_wf(r@),
        vals_of(r@) == psub_spec(vals_of(a@), vals_of(b@)),
        r@.len() == if a@.len() >= b@.len() {
            a@.len()
        } else {
            b@.len()
        },
{
    let n = if a.len() >= b.len() {
        a.len()
    } else {
        b.len()
    };
    let zero = Scalar::zero();
    let mut out: Vec<Scalar> = Vec::new();
    let mut i: usize = 0;
    while i < n
        invariant
            i <= n,
            n == if a@.len() >= b@.len() {
                a@.len()
            } else {
                b@.len()
            },
            all_wf(a@),
            all_wf(b@),
            zero.wf() && zero.val() == 0,
            out@.len() == i,
            all_wf(out@),
            forall|j: int|
                0 <= j < i ==> (#[trigger] out@[j]).val() == ((coeff_at(vals_of(a@), j) + fr_mod()
                    - (coeff_at(vals_of(b@), j) % fr_mod())) as nat) % fr_mod(),
        decreases n - i,
    {
        let x = if i < a.len() {
            a[i]
        } else {
            zero
        };
        let y = if i < b.len() {
            b[i]
        } else {
            zero
        };
        out.push(fr_sub(&x, &y));
        i = i + 1;
    }
    proof {
        assert(vals_of(out@) =~= psub_spec(vals_of(a@), vals_of(b@)));
    }
    out
}

/// The polynomial scaled by a constant.
pub fn poly_scale(c: &Scalar, a: &Vec<Scalar>) -> (r: Vec<Scalar>)
    requires
        c.wf(),
        all_wf(a@),
    ensures
        all_wf(r@),
        vals_of(r@) == pscale_spec(c.val(), vals_of(a@)),
        r@.len() == a@.len(),
{
    let mut out: Vec<Scalar> = Vec::new();
    let mut i: usize = 0;
    while i < a.len()
        invariant
            i <= a@.len(),
            c.wf(),
            all_wf(a@),
            out@.len() == i,
            all_wf(out@),
            forall|j: int|
                0 <= j < i ==> (#[trigger] out@[j]).val() == (c.val() * a@[j].val()) % fr_mod(),
        decreases a@.len() - i,
    {
        out.push(fr_mul(c, &a[i]));
        i = i + 1;
    }
    proof {
        assert(vals_of(out@) =~= pscale_spec(c.val(), vals_of(a@)));
    }
    out
}

/// Evaluates the polynomial at `x` by Horner's rule.
#[verifier::rlimit(30)]
pub fn poly_eval(a: &Vec<Scalar>, x: &Scalar) -> (r: Scalar)
    requires
        all_wf(a@),
        x.wf(),
    ensures
        r.wf(),
        r.val() == peval_spec(vals_of(a@), x.val()),
{
    let mut acc = Scalar::zero();
    let mut j = a.len();
    proof {
        assert(vals_of(a@).skip(a@.len() as int) =~= Seq::<nat>::empty());
    }
    while j > 0
        invariant
            j <= a@.len(),
            all_wf(a@),
            x.wf(),
            acc.wf(),
            acc.val() == peval_spec(vals_of(a@).skip(j as int), x.val()),
        decreases j,
    {
        j = j - 1;
        let next = fr_add(&a[j], &fr_mul(x, &acc));
        proof {
            let av = vals_of(a@);
            assert(av.skip(j as int).first() == av[j as int]);
            assert(av.skip(j as int).drop_first() =~= av.skip(j + 1));
        }
        acc = next;
    }
    proof {
        assert(vals_of(a@).skip(0) =~= vals_of(a@));
    }
    acc
}

/// Divides `a` by the monic linear polynomial `X - z` by synthetic
/// division, returning the quotient and the remainder, which equals
/// `a` evaluated at `z`.
pub fn poly_div_linear(a: &Vec<Scalar>, z: &Scalar) -> (r: (Vec<Scalar>, Scalar))
    requires
        all_wf(a@),
        z.wf(),
    ensures
        all_wf(r.0@),
        vals_of(r.0@) == lin_quot_spec(vals_of(a@), z.val()),
        r.1.wf(),
        r.1.val() == peval_spec(vals_of(a@), z.val()),
{
    let mut q: Vec<Scalar> = Vec::new();
    let zero = Scalar::zero();
    let qlen = if a.len() <= 1 {
        0
    } else {
        a.len() - 1
    };
    let mut i: usize = 0;
    while i < qlen
        invariant
            i <= qlen,
            q@.len() == i,
            zero.wf() && zero.val() == 0,
            forall|j: int| 0 <= j < i ==> q@[j] == zero,
        decreases qlen - i,
    {
        q.push(zero);
        i = i + 1;
    }
    let mut acc = Scalar::zero();
    let mut j = a.len();
    proof {
        assert(vals_of(a@).skip(a@.len() as int) =~= Seq::<nat>::empty());
    }
    while j > 0
        invariant
            j <= a@.len(),
            all_wf(a@),
            z.wf(),
            acc.wf(),
            q@.len() == qlen,
            qlen == if a@.len() <= 1 {
                0int
            } else {
                a@.len() - 1
            },
            acc.val() == peval_spec(vals_of(a@).skip(j as int), z.val()),
            all_wf(q@),
            forall|t: int|
                j <= t < qlen ==> (#[trigger] q@[t]).val() == peval_spec(
                    vals_of(a@).skip(t + 1),
                    z.val(),
                ),
        decreases j,
    {
        j = j - 1;
        if j < q.len() {
            q.set(j, acc);
        }
        let next = fr_add(&a[j], &fr_mul(z, &acc));
        proof {
            let av = vals_of(a@);
            assert(av.skip(j as int).first() == av[j as int]);
            assert(av.skip(j as int).drop_first() =~= av.skip(j + 1));
        }
        acc = next;
    }
    proof {
        assert(vals_of(a@).skip(0) =~= vals_of(a@));
        assert(vals_of(q@) =~= lin_quot_spec(vals_of(a@), z.val()));
    }
    (q, acc)
}

/// Subtracting a polynomial's value at `x` as its constant term
/// makes `x` a root: the shifted polynomial evaluates to zero there.
pub proof fn lemma_shifted_root(a: Seq<nat>, y: nat, x: nat)
    requires
        forall|i: int| 0 <= i < a.len() ==> #[trigger] a[i] < fr_mod(),
        y < fr_mod(),
        peval_spec(a, x) == y,
    ensures
        peval_spec(psub_spec(a, seq![y]), x) == 0,
{
    let m = fr_mod();
    let s = psub_spec(a, seq![y]);
    if a.len() == 0 {
        assert(y == 0);
        assert(s.len() == 1);
        assert(s[0] == ((0 + m - 0) as nat) % m);
        vstd::arithmetic::div_mod::lemma_mod_self_0(m as int);
        assert(s.first() == 0);
        assert(s.drop_first() =~= Seq::<nat>::empty());
        vstd::arithmetic::div_mod::lemma_small_mod(0, m);
        assert(peval_spec(s.drop_first(), x) == 0);
        assert(peval_spec(s, x) == (0 + x * 0) % m);
        assert(x * 0 == 0) by (nonlinear_arith);
    } else {
        assert(s.len() == a.len());
        assert(s.drop_first() =~= a.drop_first()) by {
            assert forall|i: int| 0 <= i < a.len() - 1 implies s.drop_first()[i]
                == a.drop_first()[i] by {
                assert(s[i + 1] == ((a[i + 1] + m - (0int % (m as int))) as nat) % m);
                vstd::arithmetic::div_mod::lemma_mod_multiples_vanish(1, a[i + 1] as int, m as int);
                vstd::arithmetic::div_mod::lemma_small_mod(a[i + 1], m);
            }
        }
        let t = peval_spec(a.drop_first(), x);
        assert(peval_spec(a, x) == (a[0] + x * t) % m);
        assert(s.first() == ((a[0] + m - y) as nat) % m);
        assert(peval_spec(s, x) == (s.first() + x * t) % m);
        let q = (a[0] + x * t) as int / (m as int);
        vstd::arithmetic::div_mod::lemma_fundamental_div_mod((a[0] + x * t) as int, m as int);
        assert((a[0] + x * t) as int == (m as int) * q + y);
        assert(q >= 0) by (nonlinear_arith)
            requires
                (a[0] + x * t) as int == (m as int) * q + y,
                a[0] + x * t >= 0,
                0 <= y < m,
                m >= 2,
        ;
        assert((s.first() + x * t) % m == (((a[0] + m - y) + x * t) as nat) % m) by {
            vstd::arithmetic::div_mod::lemma_add_mod_noop(
                ((a[0] + m - y) as nat % m) as int,
                (x * t) as int,
                m as int,
            );
            vstd::arithmetic::div_mod::lemma_mod_twice((a[0] + m - y) as int, m as int);
            vstd::arithmetic::div_mod::lemma_mod_twice((x * t) as int, m as int);
            vstd::arithmetic::div_mod::lemma_add_mod_noop(
                (a[0] + m - y) as int,
                (x * t) as int,
                m as int,
            );
        }
        assert(((a[0] + m - y) + x * t) as int == (m as int) * (q + 1)) by (nonlinear_arith)
            requires
                (a[0] + x * t) as int == (m as int) * q + y,
        ;
        assert((((a[0] + m - y) + x * t) as nat) % m == 0) by {
            vstd::arithmetic::div_mod::lemma_mod_multiples_basic(q + 1, m as int);
        }
        assert(peval_spec(s, x) == 0);
    }
}

/// The division identity for the monic linear divisor: quotient and
/// remainder as `lin_quot_spec` and `peval_spec` give them satisfy
/// `a == (X - z) * q + r`, coefficient by coefficient.
pub proof fn lemma_linear_division(a: Seq<nat>, z: nat)
    requires
        a.len() >= 1,
        z < fr_mod(),
        forall|i: int| 0 <= i < a.len() ==> #[trigger] a[i] < fr_mod(),
    ensures
        padd_spec(lin_mul_spec(lin_quot_spec(a, z), z), seq![peval_spec(a, z)]) == a,
{
    let m = fr_mod();
    let q = lin_quot_spec(a, z);
    let lm = lin_mul_spec(q, z);
    let lhs = padd_spec(lm, seq![peval_spec(a, z)]);
    assert(lm.len() == a.len());
    assert(lhs.len() == a.len());
    assert forall|k: int| 0 <= k < a.len() implies lhs[k] == a[k] by {
        if k >= 1 {
            assert(coeff_at(q, k - 1) == peval_spec(a.skip(k), z));
            assert(coeff_at(q, k) == if k < q.len() {
                peval_spec(a.skip(k + 1), z)
            } else {
                0nat
            });
            assert(k >= q.len() ==> a.skip(k + 1) =~= Seq::<nat>::empty());
            assert(a.skip(k).first() == a[k]);
            assert(a.skip(k).drop_first() =~= a.skip(k + 1));
            assert(peval_spec(a.skip(k), z) == (a[k] + z * peval_spec(a.skip(k + 1), z)) % m);
            lemma_cancel_step(a[k], (z * peval_spec(a.skip(k + 1), z)) as int, m);
            assert(lhs[k] == (lm[k] + 0) % m);
            vstd::arithmetic::div_mod::lemma_small_mod(lm[k], m);
        } else {
            assert(a.skip(0) =~= a);
            assert(peval_spec(a, z) == (a[0] + z * peval_spec(a.skip(1), z)) % m);
            lemma_cancel_zero(a[0], (z * peval_spec(a.skip(1), z)) as int, m);
        }
    }
    assert(lhs =~= a);
}

/// `((x + b) % m + m - (b % m)) % m == x` for canonical `x`.
proof fn lemma_cancel_step(x: nat, b: int, m: nat)
    requires
        m >= 2,
        x < m,
        b >= 0,
    ensures
        ((((x + b) % (m as int)) + m - (b % (m as int))) as nat) % m == x,
{
    let s = (x + b) % (m as int);
    let t = b % (m as int);
    vstd::arithmetic::div_mod::lemma_mod_bound(x + b, m as int);
    vstd::arithmetic::div_mod::lemma_mod_bound(b, m as int);
    assert((s + m - t) % (m as int) == ((x + b) + m - b) % (m as int)) by {
        vstd::arithmetic::div_mod::lemma_add_mod_noop(s as int, (m - t) as int, m as int);
        vstd::arithmetic::div_mod::lemma_mod_twice(x + b, m as int);
        assert((m - t) % (m as int) == (m - b) % (m as int)) by {
            vstd::arithmetic::div_mod::lemma_mod_twice(b, m as int);
            vstd::arithmetic::div_mod::lemma_sub_mod_noop(m as int, b, m as int);
            vstd::arithmetic::div_mod::lemma_sub_mod_noop(m as int, t as int, m as int);
            vstd::arithmetic::div_mod::lemma_mod_twice(m - b, m as int);
            vstd::arithmetic::div_mod::lemma_mod_twice(m - t, m as int);
        }
        vstd::arithmetic::div_mod::lemma_add_mod_noop(x + b, (m - b) as int, m as int);
        vstd::arithmetic::div_mod::lemma_mod_twice((x + b) + m - b, m as int);
    }
    assert(((x + b) + m - b) % (m as int) == x) by {
        vstd::arithmetic::div_mod::lemma_mod_multiples_vanish(1, x as int, m as int);
        vstd::arithmetic::div_mod::lemma_small_mod(x, m);
    }
}

/// `((m - (b % m)) % m + (x + b) % m) % m == x` for canonical `x`.
proof fn lemma_cancel_zero(x: nat, b: int, m: nat)
    requires
        m >= 2,
        x < m,
        b >= 0,
    ensures
        ((((0 + m - (b % (m as int))) as nat) % m + ((x + b) % (m as int))) as nat) % m == x,
{
    let t = b % (m as int);
    vstd::arithmetic::div_mod::lemma_mod_bound(b, m as int);
    let u = (((0 + m - t) as nat) % m) as int;
    vstd::arithmetic::div_mod::lemma_mod_bound(m - t, m as int);
    assert((u + (x + b) % (m as int)) % (m as int) == ((m - b) + (x + b)) % (m as int)) by {
        vstd::arithmetic::div_mod::lemma_add_mod_noop(u, (x + b) % (m as int), m as int);
        vstd::arithmetic::div_mod::lemma_mod_twice(m - t, m as int);
        assert((m - t) % (m as int) == (m - b) % (m as int)) by {
            vstd::arithmetic::div_mod::lemma_mod_twice(b, m as int);
            vstd::arithmetic::div_mod::lemma_sub_mod_noop(m as int, b, m as int);
            vstd::arithmetic::div_mod::lemma_sub_mod_noop(m as int, t as int, m as int);
            vstd::arithmetic::div_mod::lemma_mod_twice(m - b, m as int);
            vstd::arithmetic::div_mod::lemma_mod_twice(m - t, m as int);
        }
        vstd::arithmetic::div_mod::lemma_mod_twice(x + b, m as int);
        vstd::arithmetic::div_mod::lemma_add_mod_noop((m - b) as int, x + b, m as int);
        vstd::arithmetic::div_mod::lemma_mod_twice((m - b) + (x + b), m as int);
    }
    assert(((m - b) + (x + b)) % (m as int) == x) by {
        vstd::arithmetic::div_mod::lemma_mod_multiples_vanish(1, x as int, m as int);
        vstd::arithmetic::div_mod::lemma_small_mod(x, m);
    }
}

/// The product `a(X) * (X - z)`: each coefficient is the one below
/// it minus `z` times itself.
pub open spec fn lin_mul_spec(a: Seq<nat>, z: nat) -> Seq<nat> {
    Seq::new(
        a.len() + 1,
        |k: int|
            ((coeff_at(a, k - 1) + fr_mod() - ((z * coeff_at(a, k)) % fr_mod())) as nat) % fr_mod(),
    )
}

/// Multiplies the polynomial by the monic linear factor `X - z`.
pub fn poly_mul_linear(a: &Vec<Scalar>, z: &Scalar) -> (r: Vec<Scalar>)
    requires
        all_wf(a@),
        a@.len() < usize::MAX,
        z.wf(),
    ensures
        all_wf(r@),
        vals_of(r@) == lin_mul_spec(vals_of(a@), z.val()),
        r@.len() == a@.len() + 1,
{
    let zero = Scalar::zero();
    let mut out: Vec<Scalar> = Vec::new();
    let mut k: usize = 0;
    while k < a.len() + 1
        invariant
            k <= a@.len() + 1,
            a@.len() < usize::MAX,
            all_wf(a@),
            z.wf(),
            zero.wf() && zero.val() == 0,
            out@.len() == k,
            all_wf(out@),
            forall|j: int|
                0 <= j < k ==> (#[trigger] out@[j]).val() == ((coeff_at(vals_of(a@), j - 1)
                    + fr_mod() - ((z.val() * coeff_at(vals_of(a@), j)) % fr_mod())) as nat)
                    % fr_mod(),
        decreases a@.len() + 1 - k,
    {
        let lower = if k >= 1 && k - 1 < a.len() {
            a[k - 1]
        } else {
            zero
        };
        let here = if k < a.len() {
            a[k]
        } else {
            zero
        };
        out.push(fr_sub(&lower, &fr_mul(z, &here)));
        k = k + 1;
    }
    proof {
        assert(vals_of(out@) =~= lin_mul_spec(vals_of(a@), z.val()));
    }
    out
}

/// `c * X^k * d(X)`: the divisor aligned under the dividend's top
/// coefficient during long division.
pub open spec fn shift_scale_spec(c: nat, k: int, d: Seq<nat>) -> Seq<nat> {
    Seq::new(
        (k + d.len()) as nat,
        |i: int|
            if i < k {
                0nat
            } else {
                (c * d[i - k]) % fr_mod()
            },
    )
}

/// Long division of `a` by a monic `d`: peel the top coefficient into
/// the quotient and subtract its multiple of `d` until the remainder
/// is shorter than the divisor.
pub open spec fn monic_divmod_spec(a: Seq<nat>, d: Seq<nat>) -> (Seq<nat>, Seq<nat>)
    decreases a.len(),
{
    if d.len() == 0 || a.len() < d.len() {
        (Seq::empty(), a)
    } else {
        let c = a.last();
        let k = a.len() - d.len();
        let a2 = psub_spec(a, shift_scale_spec(c, k as int, d)).drop_last();
        (monic_divmod_spec(a2, d).0.push(c), monic_divmod_spec(a2, d).1)
    }
}

/// Divides `a` by the monic polynomial `d`, returning quotient and
/// remainder.
pub fn poly_divmod_monic(a: &Vec<Scalar>, d: &Vec<Scalar>) -> (r: (Vec<Scalar>, Vec<Scalar>))
    requires
        all_wf(a@),
        all_wf(d@),
    ensures
        all_wf(r.0@),
        all_wf(r.1@),
        vals_of(r.0@) == monic_divmod_spec(vals_of(a@), vals_of(d@)).0,
        vals_of(r.1@) == monic_divmod_spec(vals_of(a@), vals_of(d@)).1,
        r.0@.len() == if d@.len() == 0 || a@.len() < d@.len() {
            0int
        } else {
            a@.len() - d@.len() + 1
        },
    decreases a@.len(),
{
    if d.len() == 0 || a.len() < d.len() {
        let q: Vec<Scalar> = Vec::new();
        proof {
            assert(vals_of(q@) =~= Seq::<nat>::empty());
        }
        return (q, clone_poly(a));
    }
    let c = a[a.len() - 1];
    let k = a.len() - d.len();
    let zero = Scalar::zero();
    let mut ss: Vec<Scalar> = Vec::new();
    let mut i: usize = 0;
    while i < a.len()
        invariant
            i <= a@.len(),
            a@.len() == k + d@.len(),
            k == a@.len() - d@.len(),
            all_wf(a@),
            all_wf(d@),
            c.wf(),
            c == a@[a@.len() - 1],
            zero.wf() && zero.val() == 0,
            ss@.len() == i,
            all_wf(ss@),
            forall|j: int|
                0 <= j < i ==> (#[trigger] ss@[j]).val() == if j < k {
                    0nat
                } else {
                    (c.val() * vals_of(d@)[j - k]) % fr_mod()
                },
        decreases a@.len() - i,
    {
        if i < k {
            ss.push(zero);
        } else {
            ss.push(fr_mul(&c, &d[i - k]));
        }
        i = i + 1;
    }
    proof {
        assert(vals_of(ss@) =~= shift_scale_spec(c.val(), k as int, vals_of(d@)));
    }
    let sub = poly_sub(a, &ss);
    let mut a2 = sub;
    a2.pop();
    proof {
        assert(vals_of(a2@) =~= psub_spec(
            vals_of(a@),
            shift_scale_spec(c.val(), k as int, vals_of(d@)),
        ).drop_last());
    }
    let (mut q, rem) = poly_divmod_monic(&a2, d);
    q.push(c);
    proof {
        assert(vals_of(q@) =~= monic_divmod_spec(vals_of(a@), vals_of(d@)).0);
    }
    (q, rem)
}

/// Copies a coefficient vector.
pub fn clone_poly(a: &Vec<Scalar>) -> (r: Vec<Scalar>)
    ensures
        r@ == a@,
{
    let mut out: Vec<Scalar> = Vec::new();
    let mut i: usize = 0;
    while i < a.len()
        invariant
            i <= a@.len(),
            out@.len() == i,
            forall|j: int| 0 <= j < i ==> out@[j] == a@[j],
        decreases a@.len() - i,
    {
        out.push(a[i]);
        i = i + 1;
    }
    proof {
        assert(out@ =~= a@);
    }
    out
}

/// Whether every coefficient is zero: the zero polynomial.
pub fn poly_is_zero(a: &Vec<Scalar>) -> (r: bool)
    requires
        all_wf(a@),
    ensures
        r == (forall|i: int| 0 <= i < a@.len() ==> (#[trigger] a@[i]).val() == 0),
{
    let mut i: usize = 0;
    while i < a.len()
        invariant
            i <= a@.len(),
            all_wf(a@),
            forall|j: int| 0 <= j < i ==> (#[trigger] a@[j]).val() == 0,
        decreases a@.len() - i,
    {
        if !a[i].is_zero() {
            return false;
        }
        i = i + 1;
    }
    true
}

} // verus!
