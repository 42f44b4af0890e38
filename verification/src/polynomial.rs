//! The polynomial engine: sharing polynomials, evaluation, Pedersen
//! commitments and share verification.
//!
//! A sharing polynomial of threshold `t` is a vector of `t + 1` scalars,
//! lowest coefficient first; the free term is the shared value.  Only
//! point evaluations and coefficient commitments ever leave the dealer.

use vstd::prelude::*;
use crate::arith::{
    is_scalar, lemma_madd_assoc, madd, mmul, scalar_add, scalar_mul, scalar_sub, Q,
};
use crate::group::{
    gmul, grp, in_group, lemma_g_in_group, lemma_powm_madd, lemma_powm_mmul, point_mul, point_pow,
    powm, generator_pow, G, P,
};
use crate::rng::{generate_random_scalar, SAMPLE_RETRIES};
use crate::Error;
use vstd::arithmetic::power::{lemma1_pow, pow};
use vstd::arithmetic::div_mod::lemma_small_mod;

verus! {

/// All entries of an integer sequence are reduced scalars.
pub open spec fn pwf(p: Seq<int>) -> bool {
    forall|i: int| 0 <= i < p.len() ==> 0 <= #[trigger] p[i] < Q
}

/// All entries of a scalar vector are reduced.
pub open spec fn scalars_wf(p: Seq<u64>) -> bool {
    forall|i: int| 0 <= i < p.len() ==> is_scalar(#[trigger] p[i])
}

/// The mathematical model of a stored polynomial or share vector.
pub open spec fn poly_model(p: Seq<u64>) -> Seq<int> {
    p.map_values(|v: u64| v as int)
}

/// Horner evaluation of a coefficient sequence at `x`, in the scalar field.
pub open spec fn peval(p: Seq<int>, x: int) -> int
    decreases p.len(),
{
    if p.len() == 0 {
        0
    } else {
        madd(p[0], mmul(x, peval(p.drop_first(), x)))
    }
}

/// Evaluation lands in the field.
pub proof fn lemma_peval_range(p: Seq<int>, x: int)
    ensures
        0 <= peval(p, x) < Q,
{
    if p.len() == 0 {
    } else {
        assert(peval(p, x) == madd(p[0], mmul(x, peval(p.drop_first(), x))));
    }
}

/// The running free-term sum of a sequence of polynomials, from index `i` on.
pub open spec fn sum_free_from(ps: Seq<Seq<int>>, i: int) -> int
    decreases ps.len() - i,
{
    if i < 0 || i >= ps.len() {
        0
    } else {
        madd(ps[i][0], sum_free_from(ps, i + 1))
    }
}

/// The joint value a set of dealers shares: the sum of all free terms.
pub open spec fn joint_free_term(ps: Seq<Seq<int>>) -> int {
    sum_free_from(ps, 0)
}

/// Models of a vector of polynomials.
pub open spec fn polys_model(ps: Seq<Vec<u64>>) -> Seq<Seq<int>> {
    ps.map_values(|p: Vec<u64>| poly_model(p@))
}

/// Every polynomial of the batch has `t + 1` reduced coefficients.
pub open spec fn polys_wf(ps: Seq<Vec<u64>>, t: int) -> bool {
    forall|i: int| 0 <= i < ps.len() ==> #[trigger] ps[i]@.len() == t + 1 && scalars_wf(ps[i]@)
}

/// Appending a polynomial adds its free term to the running sum.
proof fn lemma_sum_free_push(ps: Seq<Seq<int>>, q: Seq<int>, i: int)
    requires
        0 <= i <= ps.len(),
        q.len() >= 1,
    ensures
        sum_free_from(ps.push(q), i) == madd(sum_free_from(ps, i), q[0]),
    decreases ps.len() - i,
{
    let e = ps.push(q);
    if i == ps.len() {
        assert(e[i] == q);
        assert(sum_free_from(e, i) == madd(q[0], sum_free_from(e, i + 1)));
        assert(sum_free_from(e, i + 1) == 0);
        assert(sum_free_from(ps, i) == 0);
        assert(madd(q[0], 0) == madd(0, q[0]));
    } else {
        lemma_sum_free_push(ps, q, i + 1);
        assert(e[i] == ps[i]);
        lemma_madd_assoc(ps[i][0], sum_free_from(ps, i + 1), q[0]);
        assert(madd(ps[i][0], madd(sum_free_from(ps, i + 1), q[0]))
            == madd(madd(ps[i][0], sum_free_from(ps, i + 1)), q[0]));
    }
}

/// Evaluate a sharing polynomial at a scalar point.
pub fn evaluate(poly: &Vec<u64>, x: u64) -> (r: u64)
    requires
        scalars_wf(poly@),
        is_scalar(x),
    ensures
        is_scalar(r),
        r == peval(poly_model(poly@), x as int),
{
    let ghost m = poly_model(poly@);
    let mut r: u64 = 0;
    let mut i: usize = poly.len();
    proof {
        assert(m.subrange(poly@.len() as int, poly@.len() as int).len() == 0);
    }
    while i > 0
        invariant
            scalars_wf(poly@),
            is_scalar(x),
            m == poly_model(poly@),
            0 <= i <= poly@.len(),
            is_scalar(r),
            r == peval(m.subrange(i as int, m.len() as int), x as int),
        decreases i,
    {
        i = i - 1;
        let c = poly[i];
        let t = scalar_mul(x, r);
        proof {
            let tail = m.subrange(i + 1, m.len() as int);
            let whole = m.subrange(i as int, m.len() as int);
            assert(whole.drop_first() =~= tail);
            assert(whole[0] == m[i as int]);
            assert(peval(whole, x as int) == madd(m[i as int], mmul(x as int, peval(tail, x as int))));
        }
        r = scalar_add(c, t);
    }
    proof {
        assert(m.subrange(0, m.len() as int) =~= m);
    }
    r
}

/// A fresh random sharing polynomial of threshold `t`: `t + 1` independent
/// nonzero scalars.
pub fn generate_random_polynomial(t: usize) -> (r: Result<Vec<u64>, Error>)
    requires
        t < Q,
    ensures
        r is Ok ==> r->Ok_0@.len() == t + 1 && scalars_wf(r->Ok_0@),
        r is Err ==> r->Err_0 == Error::InvalidScalar,
{
    let mut p: Vec<u64> = Vec::new();
    let mut i: usize = 0;
    while i <= t
        invariant
            t < Q,
            i <= t + 1,
            p@.len() == i,
            scalars_wf(p@),
        decreases t + 1 - i,
    {
        let c = match generate_random_scalar() {
            Ok(c) => c,
            Err(e) => {
                return Err(e);
            },
        };
        p.push(c);
        i = i + 1;
    }
    Ok(p)
}

/// One sharing polynomial per participant.  With a required secret, the
/// final free term is chosen so that all `n` free terms sum to exactly
/// that secret; the run then shares a pre-agreed joint value instead of an
/// unconstrained one.
pub fn prepare_polynomials(t: usize, n: usize, secret_required: Option<u64>) -> (r: Result<
    Vec<Vec<u64>>,
    Error,
>)
    requires
        t < Q,
        1 <= n,
        secret_required is Some ==> 0 < secret_required->0 < Q,
    ensures
        r is Ok ==> polys_wf(r->Ok_0@, t as int) && r->Ok_0@.len() == n,
        r is Ok && secret_required is Some ==> joint_free_term(polys_model(r->Ok_0@))
            == secret_required->0,
        r is Ok ==> 0 < joint_free_term(polys_model(r->Ok_0@)) < Q,
        r is Err ==> r->Err_0 == Error::InvalidScalar,
{
    let mut ps: Vec<Vec<u64>> = Vec::new();
    let mut i: usize = 0;
    while i < n - 1
        invariant
            t < Q,
            1 <= n,
            i <= n - 1,
            ps@.len() == i,
            polys_wf(ps@, t as int),
        decreases n - i,
    {
        let p = match generate_random_polynomial(t) {
            Ok(p) => p,
            Err(e) => {
                return Err(e);
            },
        };
        ps.push(p);
        i = i + 1;
    }
    let mut last = match generate_random_polynomial(t) {
        Ok(p) => p,
        Err(e) => {
            return Err(e);
        },
    };
    match secret_required {
        None => {
            // A batch whose free terms sum to zero would make the joint
            // public key the identity, which the data model forbids:
            // resample the last free term until the joint value is nonzero.
            let others = sum_free_terms(&ps);
            let mut tries: u64 = 0;
            while scalar_add(others, last[0]) == 0 && tries < SAMPLE_RETRIES
                invariant
                    t < Q,
                    last@.len() == t + 1,
                    scalars_wf(last@),
                    is_scalar(others),
                decreases SAMPLE_RETRIES - tries,
            {
                let c = match generate_random_scalar() {
                    Ok(c) => c,
                    Err(e) => {
                        return Err(e);
                    },
                };
                last.set(0, c);
                tries = tries + 1;
            }
            if scalar_add(others, last[0]) == 0 {
                return Err(Error::InvalidScalar);
            }
            proof {
                let before = polys_model(ps@);
                let q = poly_model(last@);
                lemma_sum_free_push(before, q, 0);
                assert(polys_model(ps@.push(last)) =~= before.push(q));
            }
            ps.push(last);
            Ok(ps)
        },
        Some(s) => {
            // The last free term absorbs the difference between the target
            // and what the other dealers already contribute.
            let others = sum_free_terms(&ps);
            let adjusted = scalar_sub(s, others);
            last.set(0, adjusted);
            proof {
                let before = polys_model(ps@);
                let q = poly_model(last@);
                lemma_sum_free_push(before, q, 0);
                assert(polys_model(ps@.push(last)) =~= before.push(q));
                // madd(others, s - others) == s mod Q, and s is reduced.
                assert(madd(others as int, q[0]) == s as int % (Q as int)) by {
                    vstd::arithmetic::div_mod::lemma_add_mod_noop_right(
                        others as int,
                        s as int - others as int,
                        Q as int,
                    );
                }
                vstd::arithmetic::div_mod::lemma_small_mod(s as nat, Q as nat);
            }
            ps.push(last);
            Ok(ps)
        },
    }
}

/// Sum the free terms of a batch of sharing polynomials.
pub fn sum_free_terms(ps: &Vec<Vec<u64>>) -> (r: u64)
    requires
        forall|i: int| 0 <= i < ps@.len() ==> #[trigger] ps@[i]@.len() >= 1 && scalars_wf(ps@[i]@),
    ensures
        is_scalar(r),
        r == sum_free_from(polys_model(ps@), 0),
{
    let ghost m = polys_model(ps@);
    let mut acc: u64 = 0;
    let mut i: usize = ps.len();
    while i > 0
        invariant
            forall|k: int| 0 <= k < ps@.len() ==> #[trigger] ps@[k]@.len() >= 1 && scalars_wf(
                ps@[k]@,
            ),
            m == polys_model(ps@),
            0 <= i <= ps@.len(),
            is_scalar(acc),
            acc == sum_free_from(m, i as int),
        decreases i,
    {
        i = i - 1;
        let c = ps[i][0];
        proof {
            assert(m[i as int] == poly_model(ps@[i as int]@));
            assert(m[i as int][0] == ps@[i as int]@[0]);
        }
        acc = scalar_add(c, acc);
    }
    acc
}

/// The Pedersen commitment to one coefficient pair: `G^a * H^b`.
pub open spec fn commitment_at(h: int, a: int, b: int) -> int {
    gmul(powm(G as int, a as nat), powm(h, b as nat))
}

/// The commitment vector a dealer publishes for its two polynomials.
pub open spec fn commitments_model(h: int, p1: Seq<int>, p2: Seq<int>) -> Seq<int> {
    Seq::new(p1.len(), |k: int| commitment_at(h, p1[k], p2[k]))
}

/// The aggregated commitment `prod_k cs[k]^(x^k)`, written as a Horner-style
/// product.
pub open spec fn commit_prod(cs: Seq<int>, x: int) -> int
    decreases cs.len(),
{
    if cs.len() == 0 {
        1
    } else {
        gmul(cs[0], powm(commit_prod(cs.drop_first(), x), x as nat))
    }
}

/// The group identity lies in the subgroup.
pub proof fn lemma_one_in_group()
    ensures
        grp(1),
{
    lemma1_pow(Q as nat);
    lemma_small_mod(1nat, P as nat);
}

/// The acceptance half of share verification: the commitments of an honest
/// dealer always match its shares.  For every identifier, the aggregated
/// commitment `prod_k (G^p1[k] H^p2[k])^(id^k)` equals
/// `G^p1(id) * H^p2(id)`.
pub proof fn lemma_verify_share_honest(h: int, p1: Seq<int>, p2: Seq<int>, id: int)
    requires
        grp(h),
        pwf(p1),
        pwf(p2),
        p1.len() == p2.len(),
        0 <= id < Q,
    ensures
        commit_prod(commitments_model(h, p1, p2), id) == gmul(
            powm(G as int, peval(p1, id) as nat),
            powm(h, peval(p2, id) as nat),
        ),
    decreases p1.len(),
{
    let cs = commitments_model(h, p1, p2);
    crate::group::lemma_g_in_group();
    if p1.len() == 0 {
        assert(pow(G as int, 0) == 1 && pow(h, 0) == 1) by {
            reveal(pow);
        }
        lemma_small_mod(1nat, P as nat);
        assert(gmul(1, 1) == 1int % (P as int));
    } else {
        let t1 = p1.drop_first();
        let t2 = p2.drop_first();
        lemma_verify_share_honest(h, t1, t2, id);
        let e1 = peval(t1, id);
        let e2 = peval(t2, id);
        lemma_peval_range(t1, id);
        lemma_peval_range(t2, id);
        assert(cs.drop_first() =~= commitments_model(h, t1, t2));
        assert(cs[0] == commitment_at(h, p1[0], p2[0]));
        let inner = gmul(powm(G as int, e1 as nat), powm(h, e2 as nat));
        assert(commit_prod(cs, id) == gmul(cs[0], powm(inner, id as nat)));
        crate::group::lemma_powm_distributes(
            powm(G as int, e1 as nat),
            powm(h, e2 as nat),
            id as nat,
        );
        lemma_powm_mmul(G as int, e1, id);
        lemma_powm_mmul(h, e2, id);
        assert(powm(inner, id as nat) == gmul(
            powm(G as int, mmul(e1, id) as nat),
            powm(h, mmul(e2, id) as nat),
        ));
        crate::group::lemma_gmul_exchange(
            powm(G as int, p1[0] as nat),
            powm(h, p2[0] as nat),
            powm(G as int, mmul(e1, id) as nat),
            powm(h, mmul(e2, id) as nat),
        );
        lemma_powm_madd(G as int, p1[0], mmul(e1, id));
        lemma_powm_madd(h, p2[0], mmul(e2, id));
        assert(mmul(e1, id) == mmul(id, e1)) by (nonlinear_arith);
        assert(mmul(e2, id) == mmul(id, e2)) by (nonlinear_arith);
        assert(peval(p1, id) == madd(p1[0], mmul(id, e1)));
        assert(peval(p2, id) == madd(p2[0], mmul(id, e2)));
    }
}

/// The rejection half of share verification: a share that differs from the
/// dealt evaluation — a single flipped bit included — never matches the
/// honest commitments.
pub proof fn lemma_verify_share_rejects_tampered(
    h: int,
    p1: Seq<int>,
    p2: Seq<int>,
    id: int,
    tampered: int,
)
    requires
        grp(h),
        pwf(p1),
        pwf(p2),
        p1.len() == p2.len(),
        0 <= id < Q,
        0 <= tampered < Q,
        tampered != peval(p1, id),
    ensures
        gmul(powm(G as int, tampered as nat), powm(h, peval(p2, id) as nat)) != commit_prod(
            commitments_model(h, p1, p2),
            id,
        ),
{
    lemma_verify_share_honest(h, p1, p2, id);
    let s1 = peval(p1, id);
    let s2 = peval(p2, id);
    lemma_peval_range(p1, id);
    lemma_peval_range(p2, id);
    crate::group::lemma_g_in_group();
    if gmul(powm(G as int, tampered as nat), powm(h, s2 as nat)) == commit_prod(
        commitments_model(h, p1, p2),
        id,
    ) {
        // Cancel the blinding factor, then appeal to injectivity of G^x.
        let blind = powm(h, s2 as nat);
        crate::group::lemma_grp_pow(h, s2 as nat);
        crate::group::lemma_powm_pos(G as int, tampered as nat);
        crate::group::lemma_powm_pos(G as int, s1 as nat);
        assert(gmul(blind, powm(G as int, tampered as nat)) == gmul(
            blind,
            powm(G as int, s1 as nat),
        )) by {
            assert(blind * powm(G as int, tampered as nat) == powm(G as int, tampered as nat)
                * blind) by (nonlinear_arith);
            assert(blind * powm(G as int, s1 as nat) == powm(G as int, s1 as nat) * blind) by (
            nonlinear_arith);
        }
        crate::group::lemma_gmul_cancel(
            blind,
            powm(G as int, tampered as nat),
            powm(G as int, s1 as nat),
        );
        crate::group::lemma_generator_injective(tampered, s1);
        assert(false);
    }
}

/// Publish the coefficient commitments `G^p1[k] * H^p2[k]`.
pub fn commitment_points(t: usize, h: u64, poly1: &Vec<u64>, poly2: &Vec<u64>) -> (r: Vec<u64>)
    requires
        in_group(h),
        poly1@.len() == t + 1,
        poly2@.len() == t + 1,
        scalars_wf(poly1@),
        scalars_wf(poly2@),
    ensures
        r@.len() == t + 1,
        forall|k: int| 0 <= k < r@.len() ==> in_group(#[trigger] r@[k]),
        forall|k: int| 0 <= k < r@.len() ==> #[trigger] r@[k] == commitment_at(
            h as int,
            poly_model(poly1@)[k],
            poly_model(poly2@)[k],
        ),
{
    let len = poly1.len();
    let mut r: Vec<u64> = Vec::new();
    let mut k: usize = 0;
    while k < len
        invariant
            len == t + 1,
            in_group(h),
            poly1@.len() == t + 1,
            poly2@.len() == t + 1,
            scalars_wf(poly1@),
            scalars_wf(poly2@),
            k <= t + 1,
            r@.len() == k,
            forall|j: int| 0 <= j < k ==> in_group(#[trigger] r@[j]),
            forall|j: int| 0 <= j < k ==> #[trigger] r@[j] == commitment_at(
                h as int,
                poly_model(poly1@)[j],
                poly_model(poly2@)[j],
            ),
        decreases len - k,
    {
        let gc = generator_pow(poly1[k]);
        let hc = point_pow(h, poly2[k]);
        let c = point_mul(gc, hc);
        r.push(c);
        k = k + 1;
    }
    r
}

/// Recompute `G^share1 * H^share2` and compare it with the aggregated
/// commitments; equality holds exactly when the dealer was honest for this
/// participant.  The aggregation always runs over every commitment — there
/// is no early exit that could leak which coefficient failed.
pub fn verify_share(
    t: usize,
    h: u64,
    id: u64,
    share1: u64,
    share2: u64,
    commitments: &Vec<u64>,
) -> (r: bool)
    requires
        in_group(h),
        is_scalar(id),
        is_scalar(share1),
        is_scalar(share2),
        commitments@.len() == t + 1,
        forall|k: int| 0 <= k < commitments@.len() ==> in_group(#[trigger] commitments@[k]),
    ensures
        r == (gmul(powm(G as int, share1 as nat), powm(h as int, share2 as nat)) == commit_prod(
            poly_model(commitments@),
            id as int,
        )),
{
    let ghost cm = poly_model(commitments@);
    let lhs = point_mul(generator_pow(share1), point_pow(h, share2));
    let mut rhs: u64 = 1;
    let mut i: usize = commitments.len();
    proof {
        lemma_one_in_group();
        assert(cm.subrange(cm.len() as int, cm.len() as int).len() == 0);
    }
    while i > 0
        invariant
            in_group(h),
            is_scalar(id),
            commitments@.len() == t + 1,
            forall|k: int| 0 <= k < commitments@.len() ==> in_group(#[trigger] commitments@[k]),
            cm == poly_model(commitments@),
            0 <= i <= cm.len(),
            in_group(rhs),
            rhs == commit_prod(cm.subrange(i as int, cm.len() as int), id as int),
        decreases i,
    {
        i = i - 1;
        let powed = point_pow(rhs, id);
        let next = point_mul(commitments[i], powed);
        proof {
            let tail = cm.subrange(i + 1, cm.len() as int);
            let whole = cm.subrange(i as int, cm.len() as int);
            assert(whole.drop_first() =~= tail);
            assert(whole[0] == cm[i as int]);
        }
        rhs = next;
    }
    proof {
        assert(cm.subrange(0, cm.len() as int) =~= cm);
    }
    lhs == rhs
}

/// The Verify-round form of share checking: a mismatching share is a
/// typed, recoverable error, never a debug-only assertion.
pub fn check_share(
    t: usize,
    h: u64,
    id: u64,
    share1: u64,
    share2: u64,
    commitments: &Vec<u64>,
) -> (r: Result<(), Error>)
    requires
        in_group(h),
        is_scalar(id),
        is_scalar(share1),
        is_scalar(share2),
        commitments@.len() == t + 1,
        forall|k: int| 0 <= k < commitments@.len() ==> in_group(#[trigger] commitments@[k]),
    ensures
        r is Ok <==> gmul(powm(G as int, share1 as nat), powm(h as int, share2 as nat))
            == commit_prod(poly_model(commitments@), id as int),
        r is Err ==> r->Err_0 == Error::VerificationFailed,
{
    if verify_share(t, h, id, share1, share2, commitments) {
        Ok(())
    } else {
        Err(Error::VerificationFailed)
    }
}

} // verus!
