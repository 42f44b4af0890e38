//! The scalar field of the group: integers modulo the prime group order `Q`.
//!
//! All secret values, shares, polynomial coefficients and signature components
//! are scalars in `[0, Q)`.  This module provides the executable field
//! operations with exact contracts, and the facts the rest of the crate
//! builds on: `Q` is prime, every nonzero scalar has a unique multiplicative
//! inverse, and the field has no zero divisors.  The primality and inverse
//! lemmas are stated for an arbitrary prime modulus so that the group
//! modulus can reuse them.

use vstd::prelude::*;
use vstd::arithmetic::div_mod::{
    lemma_add_mod_noop, lemma_add_mod_noop_right,
    lemma_fundamental_div_mod, lemma_mod_add_multiples_vanish, lemma_mod_multiples_basic,
    lemma_mod_multiples_vanish, lemma_mod_self_0, lemma_mul_mod_noop_left,
    lemma_mul_mod_noop_right, lemma_small_mod,
};
use vstd::arithmetic::mul::lemma_mul_is_distributive_sub_other_way;

verus! {

/// The prime order of the group; scalars live in `[0, Q)`.
pub const Q: u64 = 1013;

/// A scalar is a reduced field element.
pub open spec fn is_scalar(x: u64) -> bool {
    x < Q
}

/// Addition in the scalar field.
pub open spec fn madd(a: int, b: int) -> int {
    (a + b) % (Q as int)
}

/// Multiplication in the scalar field.
pub open spec fn mmul(a: int, b: int) -> int {
    (a * b) % (Q as int)
}

/// The multiplicative inverse of `a` in the scalar field, when one exists.
pub open spec fn sinv(a: int) -> int {
    choose|b: int| 0 <= b < Q && #[trigger] ((a * b) % (Q as int)) == 1
}

/// `m` has no divisor in `[2, m)`.
pub open spec fn is_prime(m: int) -> bool {
    m >= 2 && forall|d: int| 2 <= d < m ==> #[trigger] (m % d) != 0
}

/// `n` has no divisor in `[2, d]`.
pub open spec fn no_factor_upto(n: int, d: int) -> bool
    decreases d,
{
    if d <= 1 {
        true
    } else {
        n % d != 0 && no_factor_upto(n, d - 1)
    }
}

proof fn lemma_no_factor_unfold(n: int, d: int, k: int)
    requires
        2 <= k <= d,
        no_factor_upto(n, d),
    ensures
        n % k != 0,
    decreases d,
{
    if k < d {
        lemma_no_factor_unfold(n, d - 1, k);
    }
}

/// One step of trial division.
pub proof fn lemma_nf_step(n: int, d: int)
    requires
        2 <= d,
        no_factor_upto(n, d - 1),
        n % d != 0,
    ensures
        no_factor_upto(n, d),
{
}

/// Trial division up to the integer square root establishes primality:
/// a larger divisor `d` pairs with the cofactor `n / d`, which falls
/// below the root.
pub proof fn lemma_prime_from_no_small_factor(n: int, r: int)
    requires
        n >= 2,
        1 <= r < n,
        no_factor_upto(n, r),
        n < (r + 1) * (r + 1),
    ensures
        is_prime(n),
{
    assert forall|d: int| 2 <= d < n implies #[trigger] (n % d) != 0 by {
        if n % d == 0 {
            if d <= r {
                lemma_no_factor_unfold(n, r, d);
            } else {
                lemma_fundamental_div_mod(n, d);
                let e = n / d;
                assert(n == d * e);
                assert(e >= 2) by {
                    if e <= 1 {
                        assert(d * e <= d) by (nonlinear_arith)
                            requires
                                e <= 1,
                                d >= 2,
                                d * e > 0,
                        ;
                    }
                }
                assert(e <= r) by {
                    if e >= r + 1 {
                        assert(d * e >= (r + 1) * (r + 1)) by (nonlinear_arith)
                            requires
                                e >= r + 1,
                                d >= r + 1,
                                r >= 1,
                        ;
                    }
                }
                assert(n % e == 0) by {
                    lemma_mod_multiples_basic(d, e);
                }
                lemma_no_factor_unfold(n, r, e);
            }
        }
    }
}

/// The group order is prime.
pub proof fn lemma_q_is_prime()
    ensures
        is_prime(Q as int),
{
    let n = Q as int;
    assert(no_factor_upto(n, 1));
    lemma_nf_step(n, 2);
    lemma_nf_step(n, 3);
    lemma_nf_step(n, 4);
    lemma_nf_step(n, 5);
    lemma_nf_step(n, 6);
    lemma_nf_step(n, 7);
    lemma_nf_step(n, 8);
    lemma_nf_step(n, 9);
    lemma_nf_step(n, 10);
    lemma_nf_step(n, 11);
    lemma_nf_step(n, 12);
    lemma_nf_step(n, 13);
    lemma_nf_step(n, 14);
    lemma_nf_step(n, 15);
    lemma_nf_step(n, 16);
    lemma_nf_step(n, 17);
    lemma_nf_step(n, 18);
    lemma_nf_step(n, 19);
    lemma_nf_step(n, 20);
    lemma_nf_step(n, 21);
    lemma_nf_step(n, 22);
    lemma_nf_step(n, 23);
    lemma_nf_step(n, 24);
    lemma_nf_step(n, 25);
    lemma_nf_step(n, 26);
    lemma_nf_step(n, 27);
    lemma_nf_step(n, 28);
    lemma_nf_step(n, 29);
    lemma_nf_step(n, 30);
    lemma_nf_step(n, 31);
    lemma_prime_from_no_small_factor(n, 31);
}

/// Euclid's greatest common divisor.
pub open spec fn gcd_s(x: int, y: int) -> int
    decreases y,
{
    if y <= 0 {
        x
    } else {
        gcd_s(y, x % y)
    }
}

proof fn lemma_gcd_divides(x: int, y: int)
    requires
        x > 0,
        y >= 0,
    ensures
        gcd_s(x, y) > 0,
        x % gcd_s(x, y) == 0,
        y % gcd_s(x, y) == 0,
    decreases y,
{
    if y == 0 {
        lemma_mod_self_0(x);
        assert(0int % x == 0);
    } else {
        let g = gcd_s(y, x % y);
        lemma_gcd_divides(y, x % y);
        // x == (x / y) * y + x % y, and both summands are multiples of g.
        lemma_fundamental_div_mod(x, y);
        let q = x / y;
        lemma_fundamental_div_mod(y, g);
        assert(y == g * (y / g) + y % g);
        assert(y == g * (y / g));
        assert(y * q == g * (q * (y / g))) by (nonlinear_arith)
            requires
                y == g * (y / g),
        ;
        assert(x == g * (q * (y / g)) + x % y);
        lemma_mod_multiples_vanish(q * (y / g), x % y, g);
        assert(x % g == (x % y) % g);
    }
}

/// Bezout coefficients: returns `(s, t)` with `x*s + y*t == gcd(x, y)`.
proof fn lemma_bezout(x: int, y: int) -> (r: (int, int))
    requires
        x > 0,
        y >= 0,
    ensures
        x * r.0 + y * r.1 == gcd_s(x, y),
    decreases y,
{
    if y == 0 {
        (1int, 0int)
    } else {
        let (s1, t1) = lemma_bezout(y, x % y);
        assert(y * s1 + (x % y) * t1 == gcd_s(x, y));
        lemma_fundamental_div_mod(x, y);
        let q = x / y;
        assert(x % y == x - y * q);
        lemma_mul_is_distributive_sub_other_way(t1, x, y * q);
        assert((x - y * q) * t1 == x * t1 - (y * q) * t1);
        assert((y * q) * t1 == y * (q * t1)) by (nonlinear_arith);
        assert(y * s1 - y * (q * t1) == y * (s1 - q * t1)) by (nonlinear_arith);
        assert(x * t1 + y * (s1 - q * t1) == gcd_s(x, y));
        (t1, s1 - q * t1)
    }
}

/// Every value in `(0, m)` has an inverse modulo a prime `m`: the field
/// axiom behind Lagrange interpolation and nonce inversion.
pub proof fn lemma_inv_exists_mod(a: int, m: int)
    requires
        is_prime(m),
        0 < a < m,
    ensures
        exists|b: int| 0 <= b < m && #[trigger] ((a * b) % m) == 1,
{
    let g = gcd_s(m, a);
    lemma_gcd_divides(m, a);
    // g divides a and 0 < a, so g <= a < m; primality then forces g == 1.
    lemma_fundamental_div_mod(a, g);
    assert(a == g * (a / g));
    if a / g <= 0 {
        assert(g * (a / g) <= 0) by (nonlinear_arith)
            requires
                g > 0,
                a / g <= 0,
        ;
        assert(false);
    }
    assert(g <= a) by (nonlinear_arith)
        requires
            a == g * (a / g),
            a / g >= 1,
            g > 0,
    ;
    assert(g == 1);
    let (s, t) = lemma_bezout(m, a);
    assert(m * s + a * t == 1);
    let b = t % m;
    lemma_mul_mod_noop_right(a, t, m);
    assert((a * b) % m == (a * t) % m);
    lemma_mod_multiples_vanish(s, a * t, m);
    assert((m * s + a * t) % m == (a * t) % m);
    lemma_small_mod(1nat, m as nat);
    assert((a * t) % m == 1);
    assert(0 <= b < m && (a * b) % m == 1);
}

/// A prime modulus admits no zero divisors.
pub proof fn lemma_mod_mul_nonzero(a: int, b: int, m: int)
    requires
        is_prime(m),
        0 < a < m,
        0 < b < m,
    ensures
        (a * b) % m != 0,
{
    if (a * b) % m == 0 {
        lemma_inv_exists_mod(a, m);
        let u = choose|u: int| 0 <= u < m && #[trigger] ((a * u) % m) == 1;
        lemma_mul_mod_noop_right(u, a * b, m);
        assert((u * ((a * b) % m)) % m == (u * (a * b)) % m);
        lemma_small_mod(0nat, m as nat);
        assert((u * (a * b)) % m == 0);
        assert((a * u) % m == 1);
        assert(u * (a * b) == (a * u) * b) by (nonlinear_arith);
        lemma_mul_mod_noop_left(a * u, b, m);
        assert((((a * u) % m) * b) % m == ((a * u) * b) % m);
        assert((1 * b) % m == b % m);
        lemma_small_mod(b as nat, m as nat);
        assert(((a * u) * b) % m == b);
        assert(false);
    }
}

/// Every nonzero scalar has an inverse.
pub proof fn lemma_inv_exists(a: int)
    requires
        0 < a < Q,
    ensures
        exists|b: int| 0 <= b < Q && #[trigger] ((a * b) % (Q as int)) == 1,
{
    lemma_q_is_prime();
    lemma_inv_exists_mod(a, Q as int);
}

/// Inverses are unique in `[0, Q)`.
pub proof fn lemma_inv_unique(a: int, b1: int, b2: int)
    requires
        0 <= b1 < Q,
        0 <= b2 < Q,
        (a * b1) % (Q as int) == 1,
        (a * b2) % (Q as int) == 1,
    ensures
        b1 == b2,
{
    let qi = Q as int;
    // b1 == b1 * (a * b2) == (a * b1) * b2 == b2 (mod Q)
    lemma_mul_mod_noop_right(b1, a * b2, qi);
    assert((b1 * ((a * b2) % qi)) % qi == (b1 * (a * b2)) % qi);
    assert(b1 * 1 == b1);
    lemma_small_mod(b1 as nat, Q as nat);
    assert((b1 * (a * b2)) % qi == b1);
    assert(b1 * (a * b2) == (a * b1) * b2) by (nonlinear_arith);
    lemma_mul_mod_noop_left(a * b1, b2, qi);
    assert(((a * b1) % qi * b2) % qi == ((a * b1) * b2) % qi);
    lemma_small_mod(b2 as nat, Q as nat);
    assert(b1 == b2);
}

/// The inverse chosen by `sinv` really is one.
pub proof fn lemma_sinv_works(a: int)
    requires
        0 < a < Q,
    ensures
        0 <= sinv(a) < Q,
        (a * sinv(a)) % (Q as int) == 1,
{
    lemma_inv_exists(a);
}

/// The scalar field has no zero divisors.
pub proof fn lemma_mmul_nonzero(a: int, b: int)
    requires
        0 < a < Q,
        0 < b < Q,
    ensures
        mmul(a, b) != 0,
{
    lemma_q_is_prime();
    lemma_mod_mul_nonzero(a, b, Q as int);
}

/// Modular addition is associative (any positive modulus).
pub proof fn lemma_mod_add_assoc(a: int, b: int, c: int, m: int)
    requires
        m > 0,
    ensures
        ((a + (b + c) % m) % m) == (((a + b) % m + c) % m),
{
    lemma_add_mod_noop_right(a, b + c, m);
    lemma_add_mod_noop_right(c, a + b, m);
}

/// Modular multiplication is associative (any positive modulus).
pub proof fn lemma_mod_mul_assoc(a: int, b: int, c: int, m: int)
    requires
        m > 0,
    ensures
        ((a * ((b * c) % m)) % m) == ((((a * b) % m) * c) % m),
{
    lemma_mul_mod_noop_right(a, b * c, m);
    lemma_mul_mod_noop_left(a * b, c, m);
    assert(a * (b * c) == (a * b) * c) by (nonlinear_arith);
}

/// Modular multiplication distributes over modular addition (any positive modulus).
pub proof fn lemma_mod_mul_dist(a: int, b: int, c: int, m: int)
    requires
        m > 0,
    ensures
        ((a * ((b + c) % m)) % m) == (((a * b) % m + (a * c) % m) % m),
{
    lemma_mul_mod_noop_right(a, b + c, m);
    assert(a * (b + c) == a * b + a * c) by (nonlinear_arith);
    lemma_add_mod_noop(a * b, a * c, m);
}

/// Scalar addition is associative.
pub proof fn lemma_madd_assoc(a: int, b: int, c: int)
    ensures
        madd(a, madd(b, c)) == madd(madd(a, b), c),
{
    lemma_mod_add_assoc(a, b, c, Q as int);
}

/// Scalar multiplication is associative.
pub proof fn lemma_mmul_assoc(a: int, b: int, c: int)
    ensures
        mmul(a, mmul(b, c)) == mmul(mmul(a, b), c),
{
    lemma_mod_mul_assoc(a, b, c, Q as int);
}

/// Scalar multiplication distributes over scalar addition.
pub proof fn lemma_mmul_madd_dist(a: int, b: int, c: int)
    ensures
        mmul(a, madd(b, c)) == madd(mmul(a, b), mmul(a, c)),
{
    lemma_mod_mul_dist(a, b, c, Q as int);
}

/// Four-way regrouping of scalar sums.
pub proof fn lemma_madd_exchange(a: int, b: int, c: int, d: int)
    ensures
        madd(madd(a, b), madd(c, d)) == madd(madd(a, c), madd(b, d)),
{
    lemma_add_mod_noop(a + b, c + d, Q as int);
    lemma_add_mod_noop(a + c, b + d, Q as int);
}

/// Swap the outer factors of a nested scalar product.
pub proof fn lemma_mmul_swap(a: int, b: int, c: int)
    ensures
        mmul(a, mmul(b, c)) == mmul(b, mmul(a, c)),
{
    lemma_mmul_assoc(a, b, c);
    lemma_mmul_assoc(b, a, c);
    assert(a * b == b * a) by (nonlinear_arith);
}

/// Absorb a reduction on either factor of a scalar product.
pub proof fn lemma_mmul_noop(a: int, b: int)
    ensures
        mmul(a % (Q as int), b) == mmul(a, b),
        mmul(a, b % (Q as int)) == mmul(a, b),
{
    lemma_mul_mod_noop_left(a, b, Q as int);
    lemma_mul_mod_noop_right(a, b, Q as int);
}

/// Reduced values congruent mod `Q` are equal.
pub proof fn lemma_reduced_eq(a: int, b: int)
    requires
        0 <= a < Q,
        0 <= b < Q,
        (a - b) % (Q as int) == 0,
    ensures
        a == b,
{
    let qi = Q as int;
    if a >= b {
        lemma_small_mod((a - b) as nat, Q as nat);
    } else {
        lemma_mod_add_multiples_vanish(a - b, qi);
        lemma_small_mod((a - b + qi) as nat, Q as nat);
    }
}

/// Field addition.
pub fn scalar_add(a: u64, b: u64) -> (r: u64)
    requires
        is_scalar(a),
        is_scalar(b),
    ensures
        is_scalar(r),
        r == madd(a as int, b as int),
{
    (a + b) % Q
}

/// Field subtraction.
pub fn scalar_sub(a: u64, b: u64) -> (r: u64)
    requires
        is_scalar(a),
        is_scalar(b),
    ensures
        is_scalar(r),
        r == (a - b) % (Q as int),
{
    proof {
        lemma_mod_add_multiples_vanish(a - b, Q as int);
    }
    (a + Q - b) % Q
}

/// Field multiplication.
pub fn scalar_mul(a: u64, b: u64) -> (r: u64)
    requires
        is_scalar(a),
        is_scalar(b),
    ensures
        is_scalar(r),
        r == mmul(a as int, b as int),
{
    proof {
        assert(a * b < Q * Q) by (nonlinear_arith)
            requires
                a < Q,
                b < Q,
        ;
    }
    (a * b) % Q
}

/// Field inverse of a nonzero scalar, by exhaustive search justified by
/// the existence proof.
pub fn scalar_inv(a: u64) -> (r: u64)
    requires
        0 < a < Q,
    ensures
        0 < r < Q,
        mmul(a as int, r as int) == 1,
        r == sinv(a as int),
{
    let mut x: u64 = 1;
    while x < Q
        invariant
            0 < a < Q,
            1 <= x <= Q,
            forall|y: int| 1 <= y < x ==> #[trigger] ((a * y) % (Q as int)) != 1,
        decreases Q - x,
    {
        proof {
            assert(a * x < Q * Q) by (nonlinear_arith)
                requires
                    a < Q,
                    x <= Q,
            ;
        }
        if (a * x) % Q == 1 {
            proof {
                lemma_sinv_works(a as int);
                lemma_inv_unique(a as int, x as int, sinv(a as int));
            }
            return x;
        }
        x = x + 1;
    }
    proof {
        lemma_inv_exists(a as int);
        let b = choose|b: int| 0 <= b < Q && #[trigger] ((a as int * b) % (Q as int)) == 1;
        assert((a as int * 0) % (Q as int) == 0);
        assert(b >= 1);
        assert(false);
    }
    0
}

} // verus!
