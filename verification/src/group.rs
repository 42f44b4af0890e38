//! The cyclic group the protocols operate in.
//!
//! A fixed multiplicative group of prime order `Q`: the subgroup of squares
//! modulo the safe prime `P == 2*Q + 1`, generated by `G`.  Group elements
//! play the role of public keys, commitments and masked document keys; the
//! discrete logarithm of an element with respect to `G` plays the role of
//! the corresponding secret.  `powm(G, s)` is written `G^s` throughout the
//! crate documentation.

use vstd::prelude::*;
use vstd::arithmetic::power::{
    lemma1_pow, lemma_pow1, lemma_pow_adds, lemma_pow_distributes, lemma_pow_mod_noop,
    lemma_pow_multiplies, pow,
};
use vstd::arithmetic::div_mod::{
    lemma_fundamental_div_mod, lemma_mul_mod_noop_general, lemma_mul_mod_noop_left,
    lemma_mul_mod_noop_right, lemma_small_mod,
};
use crate::arith::{
    is_prime, lemma_mod_mul_nonzero, lemma_nf_step, lemma_prime_from_no_small_factor, madd, mmul,
    no_factor_upto, Q,
};

verus! {

/// The group modulus, a safe prime: `P == 2*Q + 1`.
pub const P: u64 = 2027;

/// The group generator, a square modulo `P`, of order `Q`.
pub const G: u64 = 4;

/// The group operation.
pub open spec fn gmul(a: int, b: int) -> int {
    (a * b) % (P as int)
}

/// Modular exponentiation: the `e`-th power of `b` in `[0, P)`.
pub open spec fn powm(b: int, e: nat) -> int {
    pow(b, e) % (P as int)
}

/// Membership in the order-`Q` subgroup.
pub open spec fn grp(y: int) -> bool {
    0 < y < P && powm(y, Q as nat) == 1
}

/// Executable-side view of subgroup membership.
pub open spec fn in_group(y: u64) -> bool {
    grp(y as int)
}

/// The group modulus is prime.
pub proof fn lemma_p_is_prime()
    ensures
        is_prime(P as int),
{
    let n = P as int;
    assert(no_factor_upto(n, 1));
    lemma_nf_step(n, 2);
    lemma_nf_step(n, 3);
    lemma_nf_step(n, 4);
    lemma_nf_step(n, 5);
    lemma_nf_step(n, 6);
    lemma_nf_step(n, 7);
    lemma_nf_step(n, 8);
    lemma_nf_step(n, 9);
    lemma_nf_step(n, 10);
    lemma_nf_step(n, 11);
    lemma_nf_step(n, 12);
    lemma_nf_step(n, 13);
    lemma_nf_step(n, 14);
    lemma_nf_step(n, 15);
    lemma_nf_step(n, 16);
    lemma_nf_step(n, 17);
    lemma_nf_step(n, 18);
    lemma_nf_step(n, 19);
    lemma_nf_step(n, 20);
    lemma_nf_step(n, 21);
    lemma_nf_step(n, 22);
    lemma_nf_step(n, 23);
    lemma_nf_step(n, 24);
    lemma_nf_step(n, 25);
    lemma_nf_step(n, 26);
    lemma_nf_step(n, 27);
    lemma_nf_step(n, 28);
    lemma_nf_step(n, 29);
    lemma_nf_step(n, 30);
    lemma_nf_step(n, 31);
    lemma_nf_step(n, 32);
    lemma_nf_step(n, 33);
    lemma_nf_step(n, 34);
    lemma_nf_step(n, 35);
    lemma_nf_step(n, 36);
    lemma_nf_step(n, 37);
    lemma_nf_step(n, 38);
    lemma_nf_step(n, 39);
    lemma_nf_step(n, 40);
    lemma_nf_step(n, 41);
    lemma_nf_step(n, 42);
    lemma_nf_step(n, 43);
    lemma_nf_step(n, 44);
    lemma_nf_step(n, 45);
    lemma_prime_from_no_small_factor(n, 45);
}

/// Splitting an exponent splits the power.
pub proof fn lemma_powm_product(y: int, a: nat, b: nat)
    ensures
        powm(y, a + b) == gmul(powm(y, a), powm(y, b)),
{
    lemma_pow_adds(y, a, b);
    lemma_mul_mod_noop_general(pow(y, a), pow(y, b), P as int);
}

/// An iterated power is a power of the product of the exponents.
pub proof fn lemma_powm_power(y: int, a: nat, b: nat)
    ensures
        powm(powm(y, a), b) == powm(y, a * b),
{
    lemma_pow_mod_noop(pow(y, a), b, P as int);
    lemma_pow_multiplies(y, a, b);
}

/// A power of a nonzero residue is a nonzero residue.
pub proof fn lemma_powm_pos(y: int, e: nat)
    requires
        0 < y < P,
    ensures
        0 < powm(y, e) < P,
    decreases e,
{
    if e == 0 {
        assert(pow(y, 0) == 1) by {
            reveal(pow);
        }
        lemma_small_mod(1nat, P as nat);
    } else {
        lemma_powm_pos(y, (e - 1) as nat);
        assert(pow(y, e) == y * pow(y, (e - 1) as nat)) by {
            reveal(pow);
        }
        lemma_mul_mod_noop_right(y, pow(y, (e - 1) as nat), P as int);
        assert((y * powm(y, (e - 1) as nat)) % (P as int) == powm(y, e));
        lemma_p_is_prime();
        lemma_mod_mul_nonzero(y, powm(y, (e - 1) as nat), P as int);
        lemma_mul_mod_noop_right(y, powm(y, (e - 1) as nat), P as int);
    }
}

/// Powers of a subgroup element depend only on the exponent mod `Q`.
pub proof fn lemma_powm_reduce(y: int, e: nat)
    requires
        grp(y),
    ensures
        powm(y, e) == powm(y, (e % (Q as nat))),
{
    let q = Q as nat;
    let d = e / q;
    let r = e % q;
    lemma_fundamental_div_mod(e as int, q as int);
    assert(e == q * d + r);
    lemma_powm_product(y, q * d, r);
    assert(powm(y, e) == gmul(powm(y, q * d), powm(y, r)));
    lemma_powm_power(y, q, d);
    assert(powm(powm(y, q), d) == powm(y, q * d));
    assert(powm(1, d) == 1) by {
        lemma1_pow(d);
        lemma_small_mod(1nat, P as nat);
    }
    assert(powm(y, q * d) == 1);
    assert(gmul(1, powm(y, r)) == powm(y, r)) by {
        vstd::arithmetic::div_mod::lemma_mod_twice(pow(y, r), P as int);
        assert(1 * powm(y, r) == powm(y, r));
    }
}

/// The subgroup is closed under the group operation.
pub proof fn lemma_grp_mul(a: int, b: int)
    requires
        grp(a),
        grp(b),
    ensures
        grp(gmul(a, b)),
{
    let pi = P as int;
    let q = Q as nat;
    lemma_p_is_prime();
    lemma_mod_mul_nonzero(a, b, pi);
    lemma_pow_mod_noop(a * b, q, pi);
    assert(pow((a * b) % pi, q) % pi == pow(a * b, q) % pi);
    lemma_pow_distributes(a, b, q);
    assert(pow(a * b, q) == pow(a, q) * pow(b, q));
    lemma_mul_mod_noop_general(pow(a, q), pow(b, q), pi);
    assert(pow(a * b, q) % pi == gmul(powm(a, q), powm(b, q)));
    lemma_small_mod(1nat, P as nat);
}

/// The subgroup is closed under powers.
pub proof fn lemma_grp_pow(y: int, e: nat)
    requires
        grp(y),
    ensures
        grp(powm(y, e)),
{
    let q = Q as nat;
    lemma_powm_pos(y, e);
    lemma_powm_power(y, e, q);
    assert(powm(powm(y, e), q) == powm(y, e * q));
    assert(e * q == q * e) by (nonlinear_arith);
    lemma_powm_power(y, q, e);
    assert(powm(powm(y, q), e) == powm(y, q * e));
    assert(powm(1, e) == 1) by {
        lemma1_pow(e);
        lemma_small_mod(1nat, P as nat);
    }
}

/// Powers distribute over the group operation.
pub proof fn lemma_powm_distributes(a: int, b: int, e: nat)
    ensures
        powm(gmul(a, b), e) == gmul(powm(a, e), powm(b, e)),
{
    lemma_pow_mod_noop(a * b, e, P as int);
    lemma_pow_distributes(a, b, e);
    lemma_mul_mod_noop_general(pow(a, e), pow(b, e), P as int);
}

/// Four-way regrouping of group products.
pub proof fn lemma_gmul_exchange(a: int, b: int, c: int, d: int)
    ensures
        gmul(gmul(a, b), gmul(c, d)) == gmul(gmul(a, c), gmul(b, d)),
{
    let pi = P as int;
    lemma_mul_mod_noop_general(a * b, c * d, pi);
    lemma_mul_mod_noop_general(a * c, b * d, pi);
    assert((a * b) * (c * d) == (a * c) * (b * d)) by (nonlinear_arith);
}

/// The generator lies in the subgroup: `G^Q == 1`.
pub proof fn lemma_g_in_group()
    ensures
        in_group(G),
        grp(G as int),
{
    let gi = G as int;
    assert(powm(gi, 1) == 4) by {
        lemma_pow1(gi);
        lemma_small_mod(4nat, P as nat);
    }
    lemma_powm_product(gi, 1, 1);
    assert(powm(gi, 2) == 16);
    lemma_powm_product(gi, 2, 2);
    assert(powm(gi, 4) == 256);
    lemma_powm_product(gi, 4, 4);
    assert(powm(gi, 8) == 672);
    lemma_powm_product(gi, 8, 8);
    assert(powm(gi, 16) == 1590);
    lemma_powm_product(gi, 16, 16);
    assert(powm(gi, 32) == 431);
    lemma_powm_product(gi, 32, 32);
    assert(powm(gi, 64) == 1304);
    lemma_powm_product(gi, 64, 64);
    assert(powm(gi, 128) == 1790);
    lemma_powm_product(gi, 128, 128);
    assert(powm(gi, 256) == 1440);
    lemma_powm_product(gi, 256, 256);
    assert(powm(gi, 512) == 2006);
    lemma_powm_product(gi, 512, 256);
    assert(powm(gi, 768) == 165);
    lemma_powm_product(gi, 768, 128);
    assert(powm(gi, 896) == 1435);
    lemma_powm_product(gi, 896, 64);
    assert(powm(gi, 960) == 319);
    lemma_powm_product(gi, 960, 32);
    assert(powm(gi, 992) == 1680);
    lemma_powm_product(gi, 992, 16);
    assert(powm(gi, 1008) == 1641);
    lemma_powm_product(gi, 1008, 4);
    assert(powm(gi, 1012) == 507);
    lemma_powm_product(gi, 1012, 1);
    assert(powm(gi, 1013) == 1);
}

/// Multiplication by a subgroup element can be cancelled.
pub proof fn lemma_gmul_cancel(a: int, x: int, y: int)
    requires
        grp(a),
        0 <= x < P,
        0 <= y < P,
        gmul(a, x) == gmul(a, y),
    ensures
        x == y,
{
    let ainv = powm(a, (Q - 1) as nat);
    assert(gmul(a, ainv) == 1) by {
        lemma_powm_product(a, 1nat, (Q - 1) as nat);
        assert(powm(a, 1) == a) by {
            lemma_pow1(a);
            lemma_small_mod(a as nat, P as nat);
        }
    }
    assert(gmul(ainv, a) == 1) by {
        assert(ainv * a == a * ainv) by (nonlinear_arith);
    }
    crate::arith::lemma_mod_mul_assoc(ainv, a, x, P as int);
    crate::arith::lemma_mod_mul_assoc(ainv, a, y, P as int);
    assert((1 * x) % (P as int) == x) by {
        lemma_small_mod(x as nat, P as nat);
    }
    assert((1 * y) % (P as int) == y) by {
        lemma_small_mod(y as nat, P as nat);
    }
    assert(gmul(ainv, gmul(a, x)) == x);
    assert(gmul(ainv, gmul(a, y)) == y);
}

/// Distinct reduced exponents give distinct generator powers: the discrete
/// logarithm with respect to `G` is well defined.
pub proof fn lemma_generator_injective(a: int, b: int)
    requires
        0 <= a < Q,
        0 <= b < Q,
        a != b,
    ensures
        powm(G as int, a as nat) != powm(G as int, b as nat),
{
    let gi = G as int;
    lemma_g_in_group();
    let lo = if a < b {
        a
    } else {
        b
    };
    let hi = if a < b {
        b
    } else {
        a
    };
    let d = hi - lo;
    if powm(gi, a as nat) == powm(gi, b as nat) {
        lemma_powm_product(gi, lo as nat, d as nat);
        assert(powm(gi, hi as nat) == gmul(powm(gi, lo as nat), powm(gi, d as nat)));
        assert(gmul(powm(gi, lo as nat), 1) == powm(gi, lo as nat)) by {
            lemma_powm_pos(gi, lo as nat);
            lemma_small_mod(powm(gi, lo as nat) as nat, P as nat);
        }
        lemma_grp_pow(gi, lo as nat);
        lemma_powm_pos(gi, d as nat);
        lemma_gmul_cancel(powm(gi, lo as nat), powm(gi, d as nat), 1);
        assert(powm(gi, d as nat) == 1);
        // d has an inverse mod the prime Q, so G^1 would be a power of G^d.
        crate::arith::lemma_inv_exists(d);
        let s = choose|s: int| 0 <= s < Q && #[trigger] ((d * s) % (Q as int)) == 1;
        lemma_powm_mmul(gi, d, s);
        assert(powm(gi, mmul(d, s) as nat) == powm(powm(gi, d as nat), s as nat));
        assert(powm(1, s as nat) == 1) by {
            lemma1_pow(s as nat);
            lemma_small_mod(1nat, P as nat);
        }
        assert(mmul(d, s) == 1);
        assert(powm(gi, 1) == gi) by {
            lemma_pow1(gi);
            lemma_small_mod(G as nat, P as nat);
        }
        assert(false);
    }
}

/// Splitting a reduced exponent sum: `y^((a+b) mod Q) == y^a * y^b`.
pub proof fn lemma_powm_madd(y: int, a: int, b: int)
    requires
        grp(y),
        0 <= a,
        0 <= b,
    ensures
        powm(y, madd(a, b) as nat) == gmul(powm(y, a as nat), powm(y, b as nat)),
{
    lemma_powm_reduce(y, (a + b) as nat);
    assert((a + b) as nat % (Q as nat) == madd(a, b) as nat);
    lemma_powm_product(y, a as nat, b as nat);
}

/// A reduced exponent product is an iterated power: `y^((a*b) mod Q) == (y^a)^b`.
pub proof fn lemma_powm_mmul(y: int, a: int, b: int)
    requires
        grp(y),
        0 <= a,
        0 <= b,
    ensures
        powm(y, mmul(a, b) as nat) == powm(powm(y, a as nat), b as nat),
{
    lemma_powm_power(y, a as nat, b as nat);
    assert(a * b >= 0) by (nonlinear_arith)
        requires
            a >= 0,
            b >= 0,
    ;
    assert(a as nat * b as nat == (a * b) as nat);
    lemma_powm_reduce(y, (a * b) as nat);
    assert((a * b) as nat % (Q as nat) == mmul(a, b) as nat);
}

/// The group operation.
pub fn point_mul(a: u64, b: u64) -> (r: u64)
    requires
        in_group(a),
        in_group(b),
    ensures
        in_group(r),
        r == gmul(a as int, b as int),
{
    proof {
        assert(a * b < P * P) by (nonlinear_arith)
            requires
                a < P,
                b < P,
        ;
        lemma_grp_mul(a as int, b as int);
    }
    (a * b) % P
}

/// Raise a nonzero residue to a power; no subgroup membership is assumed
/// or concluded.
pub fn residue_pow(y: u64, e: u64) -> (r: u64)
    requires
        0 < y < P,
        e <= Q,
    ensures
        0 < r < P,
        r == powm(y as int, e as nat),
{
    let mut r: u64 = 1;
    let mut i: u64 = 0;
    proof {
        assert(pow(y as int, 0) == 1) by {
            reveal(pow);
        }
        lemma_small_mod(1nat, P as nat);
    }
    while i < e
        invariant
            0 < y < P,
            i <= e,
            e <= Q,
            0 < r < P,
            r == powm(y as int, i as nat),
        decreases e - i,
    {
        proof {
            assert(r * y < P * P) by (nonlinear_arith)
                requires
                    r < P,
                    y < P,
            ;
            assert(pow(y as int, (i + 1) as nat) == pow(y as int, i as nat) * (y as int)) by {
                lemma_pow1(y as int);
                lemma_pow_adds(y as int, i as nat, 1nat);
            }
            lemma_mul_mod_noop_left(pow(y as int, i as nat), y as int, P as int);
            lemma_powm_pos(y as int, (i + 1) as nat);
        }
        r = (r * y) % P;
        i = i + 1;
    }
    r
}

/// Raise a group element to a scalar power.
pub fn point_pow(y: u64, e: u64) -> (r: u64)
    requires
        in_group(y),
        e < Q,
    ensures
        in_group(r),
        r == powm(y as int, e as nat),
{
    let mut r: u64 = 1;
    let mut i: u64 = 0;
    proof {
        assert(pow(y as int, 0) == 1) by {
            reveal(pow);
        }
        lemma_small_mod(1nat, P as nat);
    }
    while i < e
        invariant
            in_group(y),
            i <= e,
            e < Q,
            0 < r < P,
            r == powm(y as int, i as nat),
        decreases e - i,
    {
        proof {
            assert(r * y < P * P) by (nonlinear_arith)
                requires
                    r < P,
                    y < P,
            ;
            assert(pow(y as int, (i + 1) as nat) == pow(y as int, i as nat) * (y as int)) by {
                lemma_pow1(y as int);
                lemma_pow_adds(y as int, i as nat, 1nat);
            }
            lemma_mul_mod_noop_left(pow(y as int, i as nat), y as int, P as int);
            lemma_powm_pos(y as int, (i + 1) as nat);
        }
        r = (r * y) % P;
        i = i + 1;
    }
    proof {
        lemma_grp_pow(y as int, e as nat);
    }
    r
}

/// The inverse of a group element: `y^(Q-1)`, since `y^Q == 1`.
pub fn point_inv(y: u64) -> (r: u64)
    requires
        in_group(y),
    ensures
        in_group(r),
        r == powm(y as int, (Q - 1) as nat),
        gmul(y as int, r as int) == 1,
{
    let r = point_pow(y, Q - 1);
    proof {
        lemma_powm_product(y as int, 1, (Q - 1) as nat);
        assert(powm(y as int, 1) == y as int) by {
            lemma_pow1(y as int);
            lemma_small_mod(y as nat, P as nat);
        }
        assert(gmul(y as int, r as int) == powm(y as int, Q as nat));
    }
    r
}

/// Raise the generator to a scalar power: the public value of a secret.
pub fn generator_pow(e: u64) -> (r: u64)
    requires
        e < Q,
    ensures
        in_group(r),
        r == powm(G as int, e as nat),
{
    proof {
        lemma_g_in_group();
    }
    point_pow(G, e)
}

} // verus!
