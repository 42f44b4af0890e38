//! Lagrange interpolation at zero, and the theorem that justifies it.
//!
//! Shares of a degree-`t` sharing polynomial are recombined as
//! `sum_j vals[j] * lam0(ids, j)` with the Lagrange coefficients evaluated
//! at zero.  The central result, `lemma_interpolation`, states that for any
//! polynomial with at most as many coefficients as there are distinct
//! nonzero interpolation points, this sum equals the polynomial's free
//! term — the shared secret.

use vstd::prelude::*;
use crate::arith::{
    is_scalar, lemma_mmul_assoc, lemma_mmul_madd_dist, lemma_mmul_nonzero, lemma_mmul_noop,
    lemma_mmul_swap, lemma_madd_assoc, lemma_reduced_eq, lemma_sinv_works, madd, mmul, scalar_inv,
    scalar_mul, scalar_sub, sinv, Q,
};
use crate::polynomial::{lemma_peval_range, peval, poly_model, pwf, scalars_wf};

verus! {

/// Indexing that returns zero outside the sequence.
pub open spec fn coeff(p: Seq<int>, i: int) -> int {
    if 0 <= i < p.len() {
        p[i]
    } else {
        0
    }
}

/// Pointwise sum of two coefficient sequences.
pub open spec fn padd(p: Seq<int>, q: Seq<int>) -> Seq<int> {
    Seq::new(
        if p.len() >= q.len() {
            p.len()
        } else {
            q.len()
        },
        |i: int| madd(coeff(p, i), coeff(q, i)),
    )
}

/// A coefficient sequence scaled by a constant.
pub open spec fn pscale(c: int, p: Seq<int>) -> Seq<int> {
    p.map_values(|v: int| mmul(c, v))
}

/// The all-zero coefficient sequence of a given length.
pub open spec fn zero_seq(n: int) -> Seq<int> {
    Seq::new(if n >= 0 {
        n as nat
    } else {
        0
    }, |i: int| 0)
}

/// The product `prod_i (y - xs[i])` in the scalar field.
pub open spec fn prodv(xs: Seq<int>, y: int) -> int
    decreases xs.len(),
{
    if xs.len() == 0 {
        1
    } else {
        mmul(y - xs[0], prodv(xs.drop_first(), y))
    }
}

/// The interpolation points are nonzero scalars, pairwise distinct.
pub open spec fn points_wf(xs: Seq<int>) -> bool {
    (forall|i: int| 0 <= i < xs.len() ==> 0 < #[trigger] xs[i] < Q) && (forall|i: int, j: int|
        0 <= i < xs.len() && 0 <= j < xs.len() && i != j ==> xs[i] != xs[j])
}

/// The `j`-th Lagrange coefficient for the point set `xs`, evaluated at zero.
pub open spec fn lam0(xs: Seq<int>, j: int) -> int {
    mmul(prodv(xs.remove(j), 0), sinv(prodv(xs.remove(j), xs[j])))
}

/// The tail of the reconstruction sum, from share `j` on.
pub open spec fn lag0_sum(vals: Seq<int>, xs: Seq<int>, j: int) -> int
    decreases xs.len() - j,
{
    if j < 0 || j >= xs.len() {
        0
    } else {
        madd(mmul(vals[j], lam0(xs, j)), lag0_sum(vals, xs, j + 1))
    }
}

/// The full reconstruction: what `t + 1` shares interpolate to at zero.
pub open spec fn reconstructed(vals: Seq<int>, xs: Seq<int>) -> int {
    lag0_sum(vals, xs, 0)
}

/// The product is a reduced scalar.
pub proof fn lemma_prodv_range(xs: Seq<int>, y: int)
    ensures
        0 <= prodv(xs, y) < Q,
    decreases xs.len(),
{
    if xs.len() == 0 {
    } else {
        lemma_prodv_range(xs.drop_first(), y);
    }
}

/// A product of factors that do not vanish mod `Q` does not vanish.
pub proof fn lemma_prodv_nonzero(xs: Seq<int>, y: int)
    requires
        forall|i: int| 0 <= i < xs.len() ==> ((y - #[trigger] xs[i]) % (Q as int)) != 0,
    ensures
        0 < prodv(xs, y) < Q,
    decreases xs.len(),
{
    if xs.len() == 0 {
    } else {
        let tail = xs.drop_first();
        assert forall|i: int| 0 <= i < tail.len() implies ((y - #[trigger] tail[i]) % (
        Q as int)) != 0 by {
            assert(tail[i] == xs[i + 1]);
        }
        lemma_prodv_nonzero(tail, y);
        let f = (y - xs[0]) % (Q as int);
        assert(0 < f < Q);
        lemma_mmul_noop(y - xs[0], prodv(tail, y));
        lemma_mmul_nonzero(f, prodv(tail, y));
        lemma_prodv_range(xs, y);
    }
}

/// A factor that vanishes mod `Q` makes the product vanish.
pub proof fn lemma_prodv_zero(xs: Seq<int>, y: int, i: int)
    requires
        0 <= i < xs.len(),
        ((y - xs[i]) % (Q as int)) == 0,
    ensures
        prodv(xs, y) == 0,
    decreases xs.len(),
{
    if i == 0 {
        lemma_mmul_noop(y - xs[0], prodv(xs.drop_first(), y));
        assert(mmul(0, prodv(xs.drop_first(), y)) == 0);
    } else {
        let tail = xs.drop_first();
        assert(tail[i - 1] == xs[i]);
        lemma_prodv_zero(tail, y, i - 1);
        assert(mmul(y - xs[0], 0) == 0);
    }
}

/// Distinct nonzero points keep every cross difference invertible.
pub proof fn lemma_points_diff_nonzero(a: int, b: int)
    requires
        0 < a < Q,
        0 < b < Q,
        a != b,
    ensures
        ((a - b) % (Q as int)) != 0,
{
    if a > b {
        vstd::arithmetic::div_mod::lemma_small_mod((a - b) as nat, Q as nat);
    } else {
        vstd::arithmetic::div_mod::lemma_mod_add_multiples_vanish(a - b, Q as int);
        vstd::arithmetic::div_mod::lemma_small_mod((a - b + Q) as nat, Q as nat);
    }
}

/// Removing one point of a well-formed set keeps the differences with the
/// removed point nonzero.
pub proof fn lemma_removed_diffs_nonzero(xs: Seq<int>, j: int)
    requires
        points_wf(xs),
        0 <= j < xs.len(),
    ensures
        forall|i: int| 0 <= i < xs.remove(j).len() ==> ((xs[j] - #[trigger] xs.remove(j)[i]) % (
        Q as int)) != 0,
{
    let rem = xs.remove(j);
    assert forall|i: int| 0 <= i < rem.len() implies ((xs[j] - #[trigger] rem[i]) % (Q as int))
        != 0 by {
        if i < j {
            assert(rem[i] == xs[i]);
            lemma_points_diff_nonzero(xs[j], xs[i]);
        } else {
            assert(rem[i] == xs[i + 1]);
            lemma_points_diff_nonzero(xs[j], xs[i + 1]);
        }
    }
}

/// The tail of a coefficient sequence; empty sequences stay empty.
pub open spec fn ptail(p: Seq<int>) -> Seq<int> {
    if p.len() == 0 {
        p
    } else {
        p.drop_first()
    }
}

/// Horner evaluation in terms of `coeff` and `ptail`, valid for every length.
pub proof fn lemma_peval_unfold(p: Seq<int>, x: int)
    ensures
        peval(p, x) == madd(coeff(p, 0), mmul(x, peval(ptail(p), x))),
{
    if p.len() == 0 {
        assert(mmul(x, 0) == 0);
        assert(madd(0, 0) == 0);
    }
}

/// Sums of reduced sequences are reduced.
pub proof fn lemma_pwf_padd(p: Seq<int>, q: Seq<int>)
    ensures
        pwf(padd(p, q)),
{
}

/// The zero sequence evaluates to zero.
pub proof fn lemma_peval_zero_seq(n: int, x: int)
    ensures
        peval(zero_seq(n), x) == 0,
    decreases n,
{
    if n <= 0 {
        assert(zero_seq(n).len() == 0);
    } else {
        assert(zero_seq(n).drop_first() =~= zero_seq(n - 1));
        lemma_peval_zero_seq(n - 1, x);
        assert(mmul(x, 0) == 0);
        assert(madd(0, 0) == 0);
    }
}

/// Evaluation is additive.
pub proof fn lemma_peval_padd(p: Seq<int>, q: Seq<int>, x: int)
    ensures
        peval(padd(p, q), x) == madd(peval(p, x), peval(q, x)),
    decreases p.len() + q.len(),
{
    let r = padd(p, q);
    if p.len() == 0 && q.len() == 0 {
        assert(r.len() == 0);
        assert(madd(0, 0) == 0);
    } else {
        assert(r.len() >= 1);
        assert(r.drop_first() =~= padd(ptail(p), ptail(q)));
        lemma_peval_padd(ptail(p), ptail(q), x);
        let ep = peval(ptail(p), x);
        let eq = peval(ptail(q), x);
        assert(peval(r, x) == madd(madd(coeff(p, 0), coeff(q, 0)), mmul(x, madd(ep, eq))));
        lemma_mmul_madd_dist(x, ep, eq);
        crate::arith::lemma_madd_exchange(coeff(p, 0), coeff(q, 0), mmul(x, ep), mmul(x, eq));
        lemma_peval_unfold(p, x);
        lemma_peval_unfold(q, x);
    }
}

/// Evaluation commutes with scaling.
pub proof fn lemma_peval_pscale(c: int, p: Seq<int>, x: int)
    ensures
        peval(pscale(c, p), x) == mmul(c, peval(p, x)),
    decreases p.len(),
{
    if p.len() == 0 {
        assert(pscale(c, p).len() == 0);
        assert(mmul(c, 0) == 0);
    } else {
        let t = p.drop_first();
        assert(pscale(c, p).drop_first() =~= pscale(c, t));
        lemma_peval_pscale(c, t, x);
        let et = peval(t, x);
        assert(peval(pscale(c, p), x) == madd(mmul(c, p[0]), mmul(x, mmul(c, et))));
        assert(mmul(x, mmul(c, et)) == mmul(c, mmul(x, et))) by {
            lemma_mmul_assoc(x, c, et);
            lemma_mmul_assoc(c, x, et);
            assert(x * c == c * x) by (nonlinear_arith);
        }
        lemma_mmul_madd_dist(c, p[0], mmul(x, et));
    }
}

/// Multiplication by `x - a`, in Horner form:
/// `(x - a)(p0 + x*rest) == (-a*p0) + x*(p0 + (x - a)*rest)`.
pub open spec fn mul_lin(p: Seq<int>, a: int) -> Seq<int>
    decreases p.len(),
{
    if p.len() == 0 {
        seq![0int]
    } else {
        seq![mmul(Q - a, p[0])].add(padd(seq![p[0]], mul_lin(p.drop_first(), a)))
    }
}

/// The polynomial `prod_i (x - xs[i])`.
pub open spec fn prod_lin(xs: Seq<int>) -> Seq<int>
    decreases xs.len(),
{
    if xs.len() == 0 {
        seq![1int]
    } else {
        mul_lin(prod_lin(xs.drop_first()), xs[0])
    }
}

proof fn lemma_mul_lin_len(p: Seq<int>, a: int)
    ensures
        mul_lin(p, a).len() == p.len() + 1,
        pwf(mul_lin(p, a)),
    decreases p.len(),
{
    if p.len() == 0 {
    } else {
        lemma_mul_lin_len(p.drop_first(), a);
        let r = mul_lin(p, a);
        assert forall|i: int| 0 <= i < r.len() implies 0 <= #[trigger] r[i] < Q by {
            if i >= 1 {
                assert(r[i] == padd(seq![p[0]], mul_lin(p.drop_first(), a))[i - 1]);
            }
        }
    }
}

proof fn lemma_prod_lin_len(xs: Seq<int>)
    ensures
        prod_lin(xs).len() == xs.len() + 1,
        pwf(prod_lin(xs)),
    decreases xs.len(),
{
    if xs.len() == 0 {
        assert(prod_lin(xs) == seq![1int]);
    } else {
        lemma_prod_lin_len(xs.drop_first());
        lemma_mul_lin_len(prod_lin(xs.drop_first()), xs[0]);
    }
}

/// `(Q - a)*c` plus `y*c` is `(y - a)*c`.
proof fn lemma_neg_wrap(a: int, y: int, c: int)
    ensures
        madd(mmul(Q - a, c), mmul(y, c)) == mmul(y - a, c),
{
    let qi = Q as int;
    vstd::arithmetic::div_mod::lemma_add_mod_noop((qi - a) * c, y * c, qi);
    assert((qi - a) * c + y * c == qi * c + (y - a) * c) by (nonlinear_arith);
    vstd::arithmetic::div_mod::lemma_mod_multiples_vanish(c, (y - a) * c, qi);
}

/// Evaluating `mul_lin(p, a)` multiplies the evaluation by `y - a`.
proof fn lemma_peval_mul_lin(p: Seq<int>, a: int, y: int)
    requires
        pwf(p),
    ensures
        peval(mul_lin(p, a), y) == mmul(y - a, peval(p, y)),
    decreases p.len(),
{
    if p.len() == 0 {
        assert(mul_lin(p, a) == seq![0int]);
        assert(peval(seq![0int], y) == madd(0, mmul(y, peval(seq![0int].drop_first(), y))));
        assert(seq![0int].drop_first().len() == 0);
        assert(mmul(y, 0) == 0);
        assert(madd(0, 0) == 0);
        assert(mmul(y - a, 0) == 0);
    } else {
        let tail = p.drop_first();
        let ml = mul_lin(tail, a);
        let r = mul_lin(p, a);
        let inner = padd(seq![p[0]], ml);
        lemma_peval_mul_lin(tail, a, y);
        lemma_mul_lin_len(tail, a);
        let ev = peval(tail, y);
        lemma_peval_range(tail, y);
        // Unfold the evaluation of the cons.
        assert(r[0] == mmul(Q - a, p[0]));
        assert(r.drop_first() =~= inner);
        assert(peval(r, y) == madd(mmul(Q - a, p[0]), mmul(y, peval(inner, y))));
        // Evaluate the inner sum.
        lemma_peval_padd(seq![p[0]], ml, y);
        assert(peval(seq![p[0]], y) == madd(p[0], mmul(y, peval(seq![p[0]].drop_first(), y))));
        assert(seq![p[0]].drop_first().len() == 0);
        assert(mmul(y, 0) == 0);
        assert(madd(p[0], 0) == p[0]) by {
            vstd::arithmetic::div_mod::lemma_small_mod(p[0] as nat, Q as nat);
        }
        assert(peval(inner, y) == madd(p[0], mmul(y - a, ev)));
        // LHS == (Q - a)p0 + y*(p0 + (y - a)ev)
        lemma_mmul_madd_dist(y, p[0], mmul(y - a, ev));
        assert(peval(r, y) == madd(
            mmul(Q - a, p[0]),
            madd(mmul(y, p[0]), mmul(y, mmul(y - a, ev))),
        ));
        lemma_madd_assoc(mmul(Q - a, p[0]), mmul(y, p[0]), mmul(y, mmul(y - a, ev)));
        lemma_neg_wrap(a, y, p[0]);
        lemma_mmul_swap(y, y - a, ev);
        assert(peval(r, y) == madd(mmul(y - a, p[0]), mmul(y - a, mmul(y, ev))));
        // RHS == (y - a)*(p0 + y*ev)
        lemma_mmul_madd_dist(y - a, p[0], mmul(y, ev));
        assert(peval(p, y) == madd(p[0], mmul(y, ev)));
    }
}

/// Evaluating the linear-factor product gives the factor product.
proof fn lemma_peval_prod_lin(xs: Seq<int>, y: int)
    ensures
        peval(prod_lin(xs), y) == prodv(xs, y),
    decreases xs.len(),
{
    if xs.len() == 0 {
        assert(prod_lin(xs) == seq![1int]);
        assert(peval(seq![1int], y) == madd(1, mmul(y, peval(seq![1int].drop_first(), y))));
        assert(seq![1int].drop_first().len() == 0);
        assert(mmul(y, 0) == 0);
        assert(madd(1, 0) == 1) by {
            vstd::arithmetic::div_mod::lemma_small_mod(1nat, Q as nat);
        }
    } else {
        let tail = xs.drop_first();
        lemma_peval_prod_lin(tail, y);
        lemma_prod_lin_len(tail);
        lemma_peval_mul_lin(prod_lin(tail), xs[0], y);
        lemma_prodv_range(tail, y);
        lemma_peval_range(prod_lin(tail), y);
        lemma_mmul_noop(y - xs[0], prodv(tail, y));
    }
}

/// Synthetic division of `p` by `x - a`, dropping the remainder.
pub open spec fn sdiv(p: Seq<int>, a: int) -> Seq<int>
    decreases p.len(),
{
    if p.len() <= 1 {
        Seq::empty()
    } else {
        seq![peval(p.drop_first(), a)].add(sdiv(p.drop_first(), a))
    }
}

proof fn lemma_sdiv_len(p: Seq<int>, a: int)
    requires
        p.len() >= 1,
    ensures
        sdiv(p, a).len() == p.len() - 1,
        pwf(sdiv(p, a)),
    decreases p.len(),
{
    if p.len() == 1 {
    } else {
        lemma_sdiv_len(p.drop_first(), a);
        let r = sdiv(p, a);
        assert forall|i: int| 0 <= i < r.len() implies 0 <= #[trigger] r[i] < Q by {
            if i == 0 {
                lemma_peval_range(p.drop_first(), a);
            } else {
                assert(r[i] == sdiv(p.drop_first(), a)[i - 1]);
            }
        }
    }
}

/// The division identity on values:
/// `p(y) == (y - a) * (p div (x - a))(y) + p(a)`.
proof fn lemma_sdiv_eval(p: Seq<int>, a: int, y: int)
    requires
        pwf(p),
        p.len() >= 1,
    ensures
        peval(p, y) == madd(mmul(y - a, peval(sdiv(p, a), y)), peval(p, a)),
    decreases p.len(),
{
    if p.len() == 1 {
        assert(sdiv(p, a).len() == 0);
        assert(mmul(y - a, 0) == 0);
        lemma_peval_range(p, a);
        assert(madd(0, peval(p, a)) == peval(p, a)) by {
            vstd::arithmetic::div_mod::lemma_small_mod(peval(p, a) as nat, Q as nat);
        }
        assert(peval(p, y) == madd(p[0], mmul(y, peval(p.drop_first(), y))));
        assert(p.drop_first().len() == 0);
        assert(mmul(y, 0) == 0);
        assert(mmul(a, 0) == 0);
        assert(peval(p, a) == madd(p[0], mmul(a, peval(p.drop_first(), a))));
    } else {
        let tail = p.drop_first();
        lemma_sdiv_eval(tail, a, y);
        lemma_sdiv_len(tail, a);
        let s = peval(sdiv(tail, a), y);
        let ea = peval(tail, a);
        lemma_peval_range(sdiv(tail, a), y);
        lemma_peval_range(tail, a);
        // Unfold the evaluation of sdiv(p, a) as a cons.
        let d = sdiv(p, a);
        assert(d[0] == ea);
        assert(d.drop_first() =~= sdiv(tail, a));
        assert(peval(d, y) == madd(ea, mmul(y, s)));
        // Goal LHS: p(y) == p0 + y * tail(y), tail(y) from the inductive identity.
        assert(peval(p, y) == madd(p[0], mmul(y, madd(mmul(y - a, s), ea))));
        lemma_mmul_madd_dist(y, mmul(y - a, s), ea);
        assert(peval(p, y) == madd(p[0], madd(mmul(y, mmul(y - a, s)), mmul(y, ea))));
        // Goal RHS: (y - a) * (ea + y*s) + (p0 + a*ea)
        assert(peval(p, a) == madd(p[0], mmul(a, ea)));
        lemma_mmul_madd_dist(y - a, ea, mmul(y, s));
        assert(madd(mmul(y - a, peval(d, y)), peval(p, a)) == madd(
            madd(mmul(y - a, ea), mmul(y - a, mmul(y, s))),
            madd(p[0], mmul(a, ea)),
        ));
        // Regroup the right-hand side into p0 + ((y-a)*ea + a*ea) + (y-a)*y*s.
        crate::arith::lemma_madd_exchange(
            mmul(y - a, ea),
            mmul(y - a, mmul(y, s)),
            p[0],
            mmul(a, ea),
        );
        assert(madd(mmul(y - a, peval(d, y)), peval(p, a)) == madd(
            madd(mmul(y - a, ea), p[0]),
            madd(mmul(y - a, mmul(y, s)), mmul(a, ea)),
        ));
        // (y - a)*ea + a*ea == y*ea
        assert(madd(mmul(y - a, ea), mmul(a, ea)) == mmul(y, ea)) by {
            let qi = Q as int;
            vstd::arithmetic::div_mod::lemma_add_mod_noop((y - a) * ea, a * ea, qi);
            assert((y - a) * ea + a * ea == y * ea) by (nonlinear_arith);
        }
        lemma_mmul_swap(y - a, y, s);
        // Final regrouping.
        crate::arith::lemma_madd_exchange(
            mmul(y - a, ea),
            p[0],
            mmul(a, ea),
            mmul(y, mmul(y - a, s)),
        );
        assert(madd(
            madd(mmul(y - a, ea), p[0]),
            madd(mmul(a, ea), mmul(y, mmul(y - a, s))),
        ) == madd(
            madd(mmul(y - a, ea), mmul(a, ea)),
            madd(p[0], mmul(y, mmul(y - a, s))),
        ));
        assert(madd(mmul(y - a, mmul(y, s)), mmul(a, ea)) == madd(
            mmul(a, ea),
            mmul(y, mmul(y - a, s)),
        ));
        assert(madd(mmul(y, ea), madd(p[0], mmul(y, mmul(y - a, s)))) == madd(
            p[0],
            madd(mmul(y, mmul(y - a, s)), mmul(y, ea)),
        )) by {
            lemma_madd_assoc(mmul(y, ea), p[0], mmul(y, mmul(y - a, s)));
            lemma_madd_assoc(p[0], mmul(y, ea), mmul(y, mmul(y - a, s)));
            lemma_madd_assoc(p[0], mmul(y, mmul(y - a, s)), mmul(y, ea));
        }
    }
}

/// A polynomial with no more coefficients than it has distinct nonzero
/// roots vanishes everywhere.
proof fn lemma_roots_zero(p: Seq<int>, xs: Seq<int>, y: int)
    requires
        pwf(p),
        p.len() <= xs.len(),
        points_wf(xs),
        forall|i: int| 0 <= i < xs.len() ==> peval(p, #[trigger] xs[i]) == 0,
    ensures
        peval(p, y) == 0,
    decreases xs.len(),
{
    if p.len() == 0 {
    } else {
        let a = xs[0];
        let q = sdiv(p, a);
        lemma_sdiv_len(p, a);
        // Every other root of p is a root of the quotient.
        assert forall|i: int| 0 <= i < xs.drop_first().len() implies peval(
            q,
            #[trigger] xs.drop_first()[i],
        ) == 0 by {
            let xi = xs.drop_first()[i];
            assert(xi == xs[i + 1]);
            lemma_sdiv_eval(p, a, xi);
            assert(peval(p, a) == 0);
            lemma_peval_range(q, xi);
            lemma_peval_range(p, a);
            assert(madd(mmul(xi - a, peval(q, xi)), 0) == mmul(xi - a, peval(q, xi))) by {
                vstd::arithmetic::div_mod::lemma_small_mod(
                    mmul(xi - a, peval(q, xi)) as nat,
                    Q as nat,
                );
            }
            assert(mmul(xi - a, peval(q, xi)) == 0);
            lemma_points_diff_nonzero(xi, a);
            let f = (xi - a) % (Q as int);
            lemma_mmul_noop(xi - a, peval(q, xi));
            if peval(q, xi) != 0 {
                lemma_mmul_nonzero(f, peval(q, xi));
                assert(false);
            }
        }
        assert(points_wf(xs.drop_first())) by {
            let t = xs.drop_first();
            assert(forall|i: int| 0 <= i < t.len() ==> t[i] == xs[i + 1]);
        }
        lemma_roots_zero(q, xs.drop_first(), y);
        lemma_sdiv_eval(p, a, y);
        assert(peval(p, a) == 0);
        assert(mmul(y - a, 0) == 0);
        assert(madd(0, 0) == 0);
    }
}

/// One term of the interpolation polynomial:
/// `vals[j] * inv(prod (xs[j] - xs[i])) * prod (x - xs[i])`.
pub open spec fn interp_term(vals: Seq<int>, xs: Seq<int>, j: int) -> Seq<int> {
    pscale(mmul(vals[j], sinv(prodv(xs.remove(j), xs[j]))), prod_lin(xs.remove(j)))
}

/// The interpolation polynomial, as a sum of its terms from `j` on.
pub open spec fn ipoly(vals: Seq<int>, xs: Seq<int>, j: int) -> Seq<int>
    decreases xs.len() - j,
{
    if j < 0 || j >= xs.len() {
        zero_seq(xs.len() as int)
    } else {
        padd(interp_term(vals, xs, j), ipoly(vals, xs, j + 1))
    }
}

proof fn lemma_ipoly_len(vals: Seq<int>, xs: Seq<int>, j: int)
    requires
        xs.len() >= 1,
    ensures
        ipoly(vals, xs, j).len() == xs.len(),
        pwf(ipoly(vals, xs, j)),
    decreases xs.len() - j,
{
    if j < 0 || j >= xs.len() {
    } else {
        lemma_ipoly_len(vals, xs, j + 1);
        lemma_prod_lin_len(xs.remove(j));
        assert(xs.remove(j).len() == xs.len() - 1);
    }
}

/// An element of `remove(j)` is the corresponding element of `xs`.
proof fn lemma_remove_index(xs: Seq<int>, j: int, k: int)
    requires
        0 <= j < xs.len(),
        0 <= k < xs.len() - 1,
    ensures
        xs.remove(j)[k] == if k < j {
            xs[k]
        } else {
            xs[k + 1]
        },
{
}

/// Evaluating the interpolation polynomial at the `k`-th point gives
/// `vals[k]` once term `k` has been included, and zero before.
proof fn lemma_ipoly_at_point(vals: Seq<int>, xs: Seq<int>, j: int, k: int)
    requires
        points_wf(xs),
        vals.len() == xs.len(),
        pwf(vals),
        0 <= k < xs.len(),
        0 <= j <= xs.len(),
    ensures
        peval(ipoly(vals, xs, j), xs[k]) == if j <= k {
            vals[k]
        } else {
            0
        },
    decreases xs.len() - j,
{
    let xk = xs[k];
    if j == xs.len() {
        lemma_peval_zero_seq(xs.len() as int, xk);
    } else {
        lemma_ipoly_at_point(vals, xs, j + 1, k);
        let rem = xs.remove(j);
        let den = prodv(rem, xs[j]);
        let c = mmul(vals[j], sinv(den));
        lemma_peval_padd(interp_term(vals, xs, j), ipoly(vals, xs, j + 1), xk);
        lemma_peval_pscale(c, prod_lin(rem), xk);
        lemma_peval_prod_lin(rem, xk);
        lemma_peval_range(ipoly(vals, xs, j + 1), xk);
        if j != k {
            // The factor (x - xs[k]) sits inside the product: the term dies.
            let kp = if k < j {
                k
            } else {
                k - 1
            };
            lemma_remove_index(xs, j, kp);
            assert(rem[kp] == xk);
            assert((xk - rem[kp]) % (Q as int) == 0);
            lemma_prodv_zero(rem, xk, kp);
            assert(mmul(c, 0) == 0);
            assert(peval(ipoly(vals, xs, j), xk) == madd(0, peval(ipoly(vals, xs, j + 1), xk)));
            assert(madd(0, peval(ipoly(vals, xs, j + 1), xk)) == peval(ipoly(vals, xs, j + 1), xk))
                by {
                vstd::arithmetic::div_mod::lemma_small_mod(
                    peval(ipoly(vals, xs, j + 1), xk) as nat,
                    Q as nat,
                );
            }
        } else {
            // The denominator cancels: the term is exactly vals[k].
            lemma_removed_diffs_nonzero(xs, j);
            lemma_prodv_nonzero(rem, xs[j]);
            lemma_sinv_works(den);
            assert(mmul(c, den) == vals[k]) by {
                lemma_mmul_assoc(vals[j], sinv(den), den);
                assert(sinv(den) * den == den * sinv(den)) by (nonlinear_arith);
                assert(mmul(sinv(den), den) == 1);
                assert(mmul(vals[j], 1) == vals[j]) by {
                    vstd::arithmetic::div_mod::lemma_small_mod(vals[j] as nat, Q as nat);
                }
            }
            assert(peval(ipoly(vals, xs, j), xk) == madd(vals[k], 0));
            assert(madd(vals[k], 0) == vals[k]) by {
                vstd::arithmetic::div_mod::lemma_small_mod(vals[k] as nat, Q as nat);
            }
        }
    }
}

/// Evaluating the interpolation polynomial at zero gives the
/// reconstruction sum.
proof fn lemma_ipoly_at_zero(vals: Seq<int>, xs: Seq<int>, j: int)
    requires
        points_wf(xs),
        vals.len() == xs.len(),
        pwf(vals),
        0 <= j <= xs.len(),
    ensures
        peval(ipoly(vals, xs, j), 0) == lag0_sum(vals, xs, j),
    decreases xs.len() - j,
{
    if j == xs.len() {
        lemma_peval_zero_seq(xs.len() as int, 0);
    } else {
        lemma_ipoly_at_zero(vals, xs, j + 1);
        let rem = xs.remove(j);
        let den = prodv(rem, xs[j]);
        let num = prodv(rem, 0);
        let c = mmul(vals[j], sinv(den));
        lemma_peval_padd(interp_term(vals, xs, j), ipoly(vals, xs, j + 1), 0);
        lemma_peval_pscale(c, prod_lin(rem), 0);
        lemma_peval_prod_lin(rem, 0);
        assert(mmul(c, num) == mmul(vals[j], lam0(xs, j))) by {
            lemma_mmul_assoc(vals[j], sinv(den), num);
            assert(sinv(den) * num == num * sinv(den)) by (nonlinear_arith);
        }
    }
}

/// The interpolation theorem: over distinct nonzero points, the Lagrange
/// reconstruction at zero of the evaluations of any polynomial with at
/// most as many coefficients as there are points is its free term.
///
/// This is what makes every threshold recombination in the crate correct:
/// `t + 1` shares determine a degree-`t` sharing's secret, and `2t + 1`
/// shares determine the free term of a product of two degree-`t` sharings.
pub proof fn lemma_interpolation(f: Seq<int>, xs: Seq<int>, vals: Seq<int>)
    requires
        pwf(f),
        1 <= f.len() <= xs.len(),
        points_wf(xs),
        vals.len() == xs.len(),
        forall|j: int| 0 <= j < xs.len() ==> vals[j] == peval(f, #[trigger] xs[j]),
    ensures
        reconstructed(vals, xs) == f[0],
{
    assert(pwf(vals)) by {
        assert forall|j: int| 0 <= j < vals.len() implies 0 <= #[trigger] vals[j] < Q by {
            lemma_peval_range(f, xs[j]);
        }
    }
    let fpad = f.add(zero_seq(xs.len() - f.len()));
    lemma_peval_pad(f, xs.len() - f.len(), 0);
    assert(pwf(fpad)) by {
        assert forall|i: int| 0 <= i < fpad.len() implies 0 <= #[trigger] fpad[i] < Q by {
            if i < f.len() {
                assert(fpad[i] == f[i]);
            } else {
                assert(fpad[i] == 0);
            }
        }
    }
    let ip = ipoly(vals, xs, 0);
    lemma_ipoly_len(vals, xs, 0);
    let ep = padd(ip, pscale((Q - 1) as int, fpad));
    lemma_pwf_padd(ip, pscale((Q - 1) as int, fpad));
    assert(ep.len() == xs.len());
    // Every interpolation point is a root of the difference.
    assert forall|k: int| 0 <= k < xs.len() implies peval(ep, #[trigger] xs[k]) == 0 by {
        lemma_peval_padd(ip, pscale((Q - 1) as int, fpad), xs[k]);
        lemma_ipoly_at_point(vals, xs, 0, k);
        lemma_peval_pscale((Q - 1) as int, fpad, xs[k]);
        lemma_peval_pad(f, xs.len() - f.len(), xs[k]);
        assert(peval(ep, xs[k]) == madd(vals[k], mmul((Q - 1) as int, vals[k])));
        let qi = Q as int;
        vstd::arithmetic::div_mod::lemma_add_mod_noop_right(
            vals[k],
            (qi - 1) * vals[k],
            qi,
        );
        assert(vals[k] + (qi - 1) * vals[k] == qi * vals[k]) by (nonlinear_arith);
        vstd::arithmetic::div_mod::lemma_mod_multiples_basic(vals[k], qi);
        assert(vals[k] * qi == qi * vals[k]) by (nonlinear_arith);
    }
    lemma_roots_zero(ep, xs, 0);
    // Evaluate the difference at zero instead.
    lemma_peval_padd(ip, pscale((Q - 1) as int, fpad), 0);
    lemma_ipoly_at_zero(vals, xs, 0);
    lemma_peval_pscale((Q - 1) as int, fpad, 0);
    lemma_peval_pad(f, xs.len() - f.len(), 0);
    assert(peval(f, 0) == f[0]) by {
        assert(peval(f, 0) == madd(f[0], mmul(0, peval(f.drop_first(), 0))));
        assert(mmul(0, peval(f.drop_first(), 0)) == 0);
        vstd::arithmetic::div_mod::lemma_small_mod(f[0] as nat, Q as nat);
    }
    let a = lag0_sum(vals, xs, 0);
    let b = f[0];
    assert(madd(a, mmul((Q - 1) as int, b)) == 0);
    let qi = Q as int;
    assert((a + ((qi - 1) * b) % qi) % qi == 0);
    vstd::arithmetic::div_mod::lemma_add_mod_noop_right(a, (qi - 1) * b, qi);
    assert((a + (qi - 1) * b) % qi == 0);
    assert(a + (qi - 1) * b == qi * b + (a - b)) by (nonlinear_arith);
    vstd::arithmetic::div_mod::lemma_mod_multiples_vanish(b, a - b, qi);
    assert((a - b) % qi == 0);
    lemma_reduced_eq(a, b);
}

/// A coefficient sequence shifted up by one: multiplication by `x`.
pub open spec fn pshift(p: Seq<int>) -> Seq<int> {
    seq![0int].add(p)
}

/// The product of two coefficient sequences.
pub open spec fn pmulpoly(p: Seq<int>, q: Seq<int>) -> Seq<int>
    decreases p.len(),
{
    if p.len() == 0 {
        Seq::empty()
    } else {
        padd(pscale(p[0], q), pshift(pmulpoly(p.drop_first(), q)))
    }
}

proof fn lemma_peval_pshift(p: Seq<int>, y: int)
    ensures
        peval(pshift(p), y) == mmul(y, peval(p, y)),
{
    assert(pshift(p)[0] == 0);
    assert(pshift(p).drop_first() =~= p);
    assert(peval(pshift(p), y) == madd(0, mmul(y, peval(p, y))));
    lemma_peval_range(p, y);
    vstd::arithmetic::div_mod::lemma_small_mod(mmul(y, peval(p, y)) as nat, Q as nat);
}

/// The product has `p.len() + q.len() - 1` coefficients, all reduced, and
/// its free term is the product of the free terms.
pub proof fn lemma_pmulpoly_shape(p: Seq<int>, q: Seq<int>)
    requires
        p.len() >= 1,
        q.len() >= 1,
    ensures
        pmulpoly(p, q).len() == p.len() + q.len() - 1,
        pwf(pmulpoly(p, q)),
        pmulpoly(p, q)[0] == mmul(p[0], q[0]),
    decreases p.len(),
{
    let r = pmulpoly(p, q);
    if p.len() == 1 {
        assert(pmulpoly(p.drop_first(), q).len() == 0);
        assert(pshift(pmulpoly(p.drop_first(), q)).len() == 1);
        assert(r.len() == q.len());
        assert(r[0] == madd(mmul(p[0], q[0]), 0));
        vstd::arithmetic::div_mod::lemma_small_mod(mmul(p[0], q[0]) as nat, Q as nat);
    } else {
        lemma_pmulpoly_shape(p.drop_first(), q);
        assert(pshift(pmulpoly(p.drop_first(), q)).len() == p.len() + q.len() - 1);
        assert(r.len() == p.len() + q.len() - 1);
        assert(r[0] == madd(mmul(p[0], q[0]), coeff(pshift(pmulpoly(p.drop_first(), q)), 0)));
        assert(pshift(pmulpoly(p.drop_first(), q))[0] == 0);
        vstd::arithmetic::div_mod::lemma_small_mod(mmul(p[0], q[0]) as nat, Q as nat);
    }
}

/// Evaluation is multiplicative over polynomial products.
pub proof fn lemma_peval_pmulpoly(p: Seq<int>, q: Seq<int>, y: int)
    ensures
        peval(pmulpoly(p, q), y) == mmul(peval(p, y), peval(q, y)),
    decreases p.len(),
{
    if p.len() == 0 {
        assert(pmulpoly(p, q).len() == 0);
        assert(mmul(0, peval(q, y)) == 0);
    } else {
        let tail = p.drop_first();
        lemma_peval_pmulpoly(tail, q, y);
        let eq = peval(q, y);
        let ep = peval(tail, y);
        lemma_peval_padd(pscale(p[0], q), pshift(pmulpoly(tail, q)), y);
        lemma_peval_pscale(p[0], q, y);
        lemma_peval_pshift(pmulpoly(tail, q), y);
        assert(peval(pmulpoly(p, q), y) == madd(mmul(p[0], eq), mmul(y, mmul(ep, eq))));
        // Target: (p0 + y*ep) * eq
        assert(peval(p, y) == madd(p[0], mmul(y, ep)));
        assert(mmul(madd(p[0], mmul(y, ep)), eq) == madd(mmul(p[0], eq), mmul(mmul(y, ep), eq)))
            by {
            lemma_mmul_madd_dist(eq, p[0], mmul(y, ep));
            assert(mmul(eq, madd(p[0], mmul(y, ep))) == mmul(madd(p[0], mmul(y, ep)), eq)) by (
            nonlinear_arith);
            assert(mmul(eq, p[0]) == mmul(p[0], eq)) by (nonlinear_arith);
            assert(mmul(eq, mmul(y, ep)) == mmul(mmul(y, ep), eq)) by (nonlinear_arith);
        }
        lemma_mmul_assoc(y, ep, eq);
    }
}

/// Trailing zero coefficients do not change an evaluation.
proof fn lemma_peval_pad(p: Seq<int>, m: int, y: int)
    requires
        m >= 0,
    ensures
        peval(p.add(zero_seq(m)), y) == peval(p, y),
    decreases p.len(),
{
    if p.len() == 0 {
        assert(p.add(zero_seq(m)) =~= zero_seq(m));
        lemma_peval_zero_seq(m, y);
    } else {
        assert(p.add(zero_seq(m)).drop_first() =~= p.drop_first().add(zero_seq(m)));
        lemma_peval_pad(p.drop_first(), m, y);
        assert(p.add(zero_seq(m))[0] == p[0]);
    }
}

/// Build the vector of the other participants' identifiers.
fn remove_index(v: &Vec<u64>, j: usize) -> (r: Vec<u64>)
    requires
        j < v@.len(),
        scalars_wf(v@),
    ensures
        poly_model(r@) == poly_model(v@).remove(j as int),
        r@.len() == v@.len() - 1,
        scalars_wf(r@),
{
    let mut r: Vec<u64> = Vec::new();
    let mut i: usize = 0;
    while i < v.len()
        invariant
            j < v@.len(),
            scalars_wf(v@),
            scalars_wf(r@),
            i <= v@.len(),
            r@.len() == if i <= j {
                i as int
            } else {
                i - 1
            },
            forall|k: int| 0 <= k < r@.len() ==> r@[k] == v@[if k < j {
                k
            } else {
                k + 1
            }],
        decreases v@.len() - i,
    {
        if i != j {
            r.push(v[i]);
        }
        i = i + 1;
    }
    proof {
        assert(poly_model(r@) =~= poly_model(v@).remove(j as int));
    }
    r
}

/// The product `prod_i (y - xs[i])` over a vector of points.
fn product_at(xs: &Vec<u64>, y: u64) -> (r: u64)
    requires
        scalars_wf(xs@),
        is_scalar(y),
    ensures
        r == prodv(poly_model(xs@), y as int),
        is_scalar(r),
{
    let ghost m = poly_model(xs@);
    let mut r: u64 = 1;
    let mut i: usize = xs.len();
    proof {
        assert(m.subrange(m.len() as int, m.len() as int).len() == 0);
    }
    while i > 0
        invariant
            scalars_wf(xs@),
            is_scalar(y),
            m == poly_model(xs@),
            0 <= i <= m.len(),
            is_scalar(r),
            r == prodv(m.subrange(i as int, m.len() as int), y as int),
        decreases i,
    {
        i = i - 1;
        let d = scalar_sub(y, xs[i]);
        proof {
            let whole = m.subrange(i as int, m.len() as int);
            let tail = m.subrange(i + 1, m.len() as int);
            assert(whole.drop_first() =~= tail);
            assert(whole[0] == m[i as int]);
            lemma_mmul_noop(y as int - m[i as int], prodv(tail, y as int));
        }
        r = scalar_mul(d, r);
    }
    proof {
        assert(m.subrange(0, m.len() as int) =~= m);
    }
    r
}

/// The `j`-th Lagrange coefficient at zero for the identifier set `ids`.
pub fn lagrange_coeff0(ids: &Vec<u64>, j: usize) -> (r: u64)
    requires
        points_wf(poly_model(ids@)),
        scalars_wf(ids@),
        j < ids@.len(),
    ensures
        is_scalar(r),
        r == lam0(poly_model(ids@), j as int),
{
    let ghost m = poly_model(ids@);
    let rem = remove_index(ids, j);
    let num = product_at(&rem, 0);
    let den = product_at(&rem, ids[j]);
    proof {
        lemma_removed_diffs_nonzero(m, j as int);
        lemma_prodv_nonzero(m.remove(j as int), m[j as int]);
    }
    let deninv = scalar_inv(den);
    scalar_mul(num, deninv)
}

/// Recombine shares by Lagrange interpolation at zero.
pub fn reconstruct_at_zero(vals: &Vec<u64>, ids: &Vec<u64>) -> (r: u64)
    requires
        points_wf(poly_model(ids@)),
        scalars_wf(ids@),
        scalars_wf(vals@),
        vals@.len() == ids@.len(),
    ensures
        is_scalar(r),
        r == reconstructed(poly_model(vals@), poly_model(ids@)),
{
    let ghost vm = poly_model(vals@);
    let ghost m = poly_model(ids@);
    let mut acc: u64 = 0;
    let mut j: usize = ids.len();
    while j > 0
        invariant
            points_wf(m),
            scalars_wf(ids@),
            scalars_wf(vals@),
            vals@.len() == ids@.len(),
            m == poly_model(ids@),
            vm == poly_model(vals@),
            0 <= j <= m.len(),
            is_scalar(acc),
            acc == lag0_sum(vm, m, j as int),
        decreases j,
    {
        j = j - 1;
        let lam = lagrange_coeff0(ids, j);
        let term = scalar_mul(vals[j], lam);
        acc = crate::arith::scalar_add(term, acc);
    }
    acc
}

} // verus!
