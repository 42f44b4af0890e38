//! Distributed key generation.
//!
//! One simulated run drives `n` honest dealer instances through the
//! Distribute/Combine rounds: every dealer shares a polynomial, every
//! participant receives one evaluation per dealer, sums them into its
//! secret share, and everyone combines the published free-term powers into
//! the joint public key.  The artifacts record all intermediate values, and
//! their well-formedness predicate pins each one to its mathematical
//! definition: shares are evaluations of the summed dealer polynomial, and
//! the joint public key is `G^s` for `s` the sum of the dealers' free terms.

use vstd::prelude::*;
use crate::arith::{is_scalar, madd, scalar_add, Q};
use crate::group::{gmul, in_group, lemma_g_in_group, lemma_powm_madd, powm, generator_pow, G};
use crate::interp::{lemma_peval_padd, padd, points_wf};
use crate::polynomial::{
    commitment_points, commitments_model, evaluate, generate_random_polynomial, joint_free_term,
    peval, poly_model, polys_model, polys_wf, prepare_polynomials, pwf, scalars_wf, sum_free_from,
};
use crate::rng::generate_random_scalar;
use crate::Error;
use vstd::arithmetic::power::pow;
use vstd::arithmetic::div_mod::lemma_small_mod;

verus! {

/// Everything one key-generation ceremony produces: identifiers, both
/// polynomial batches, the cross evaluations, the published commitments,
/// and the combined outputs.  The record is ephemeral — it is consumed by
/// the codec or the signer and discarded; no persistent joint secret
/// material ever exists.
pub struct KeyGenerationArtifacts {
    /// The participants' nonzero, pairwise distinct identifiers.
    pub id_numbers: Vec<u64>,
    /// The secret sharing polynomial of each dealer.
    pub polynoms1: Vec<Vec<u64>>,
    /// The independent blinding polynomial of each dealer.
    pub polynoms2: Vec<Vec<u64>>,
    /// `secrets1[i][j]`: dealer `i`'s sharing polynomial at identifier `j`.
    pub secrets1: Vec<Vec<u64>>,
    /// `secrets2[i][j]`: dealer `i`'s blinding polynomial at identifier `j`.
    pub secrets2: Vec<Vec<u64>>,
    /// The public blinding point the commitments use.
    pub derived_point: u64,
    /// `publics[i]`: dealer `i`'s Pedersen commitments, one per coefficient.
    pub publics: Vec<Vec<u64>>,
    /// `G^(free term)` of each dealer's sharing polynomial.
    pub public_shares: Vec<u64>,
    /// Each participant's combined secret share.
    pub secret_shares: Vec<u64>,
    /// The joint public key.
    pub joint_public: u64,
}

/// The pointwise sum of the dealers' sharing polynomials, from dealer `i` on.
pub open spec fn sum_poly_from(ps: Seq<Seq<int>>, i: int) -> Seq<int>
    decreases ps.len() - i,
{
    if i < 0 || i >= ps.len() {
        Seq::empty()
    } else {
        padd(ps[i], sum_poly_from(ps, i + 1))
    }
}

/// The joint secret of a run: the sum of all dealers' free terms.  It is
/// never materialized by the protocol; it exists only in this specification.
pub open spec fn joint_secret(a: KeyGenerationArtifacts) -> int {
    joint_free_term(polys_model(a.polynoms1@))
}

/// The running sum of polynomial evaluations at one point, from dealer `i` on.
pub open spec fn eval_sum_from(ps: Seq<Seq<int>>, x: int, i: int) -> int
    decreases ps.len() - i,
{
    if i < 0 || i >= ps.len() {
        0
    } else {
        madd(peval(ps[i], x), eval_sum_from(ps, x, i + 1))
    }
}

/// Summing evaluations is evaluating the summed polynomial.
pub proof fn lemma_eval_sum(ps: Seq<Seq<int>>, x: int, i: int)
    requires
        0 <= i <= ps.len(),
    ensures
        eval_sum_from(ps, x, i) == peval(sum_poly_from(ps, i), x),
    decreases ps.len() - i,
{
    if i == ps.len() {
    } else {
        lemma_eval_sum(ps, x, i + 1);
        lemma_peval_padd(ps[i], sum_poly_from(ps, i + 1), x);
    }
}

/// The summed polynomial's free term is the sum of the free terms.
pub proof fn lemma_sum_poly_free_term(ps: Seq<Seq<int>>, i: int)
    requires
        0 <= i <= ps.len(),
        forall|k: int| 0 <= k < ps.len() ==> #[trigger] ps[k].len() >= 1,
    ensures
        crate::interp::coeff(sum_poly_from(ps, i), 0) == sum_free_from(ps, i),
    decreases ps.len() - i,
{
    if i == ps.len() {
    } else {
        lemma_sum_poly_free_term(ps, i + 1);
        assert(sum_poly_from(ps, i) == padd(ps[i], sum_poly_from(ps, i + 1)));
        assert(sum_poly_from(ps, i).len() >= 1);
    }
}

/// The summed polynomial keeps the dealers' coefficient count and stays
/// reduced.
pub proof fn lemma_sum_poly_shape(ps: Seq<Seq<int>>, t: int, i: int)
    requires
        0 <= i <= ps.len(),
        t >= 0,
        forall|k: int| 0 <= k < ps.len() ==> #[trigger] ps[k].len() == t + 1,
    ensures
        sum_poly_from(ps, i).len() == if i < ps.len() {
            t + 1
        } else {
            0
        },
        crate::polynomial::pwf(sum_poly_from(ps, i)),
    decreases ps.len() - i,
{
    if i == ps.len() {
    } else {
        lemma_sum_poly_shape(ps, t, i + 1);
        crate::interp::lemma_pwf_padd(ps[i], sum_poly_from(ps, i + 1));
    }
}

/// A usable identifier set: `n` reduced, nonzero, pairwise distinct scalars.
pub open spec fn identifiers_wf(ids: Seq<u64>, n: int) -> bool {
    &&& ids.len() == n
    &&& scalars_wf(ids)
    &&& points_wf(poly_model(ids))
}

/// `f` and `xs` witness that `shares` is a threshold-`t` Shamir sharing of
/// `secret`: evaluations of a degree-`t` polynomial with free term
/// `secret` at distinct nonzero points.
pub open spec fn sharing_witness(
    shares: Seq<int>,
    t: int,
    secret: int,
    f: Seq<int>,
    xs: Seq<int>,
) -> bool {
    &&& pwf(f)
    &&& f.len() == t + 1
    &&& crate::interp::coeff(f, 0) == secret
    &&& points_wf(xs)
    &&& xs.len() == shares.len()
    &&& forall|j: int| 0 <= j < shares.len() ==> #[trigger] shares[j] == peval(f, xs[j])
}

/// `shares` is a threshold-`t` Shamir sharing of `secret`.
pub open spec fn is_valid_sharing(shares: Seq<int>, t: int, secret: int) -> bool {
    exists|f: Seq<int>, xs: Seq<int>| #[trigger] sharing_witness(shares, t, secret, f, xs)
}

/// `shares` is a threshold-`t` Shamir sharing of `secret` over the
/// specific point set `xs`.
pub open spec fn shared_over(shares: Seq<int>, t: int, secret: int, xs: Seq<int>) -> bool {
    exists|f: Seq<int>| #[trigger] sharing_witness(shares, t, secret, f, xs)
}

/// A generated key set is valid: the joint public key is `G` to a nonzero
/// secret that the share vector shares with threshold `t` over `xs`.
pub open spec fn keyset_valid(jp: u64, shares: Seq<u64>, t: int, s: int, xs: Seq<int>) -> bool {
    &&& 0 < s < Q
    &&& jp as int == powm(G as int, s as nat)
    &&& shared_over(poly_model(shares), t, s, xs)
}

/// Existential form of `keyset_valid` for a key pair whose identifier set
/// is not returned: some nonzero secret and some `n` points carry it.
pub open spec fn valid_keyset_for(jp: u64, shares: Seq<u64>, t: int, n: int) -> bool {
    exists|s: int, xs: Seq<int>| #[trigger] keyset_valid(jp, shares, t, s, xs) && xs.len() == n
}

/// The key pair is carried over the caller-supplied identifier set.
pub open spec fn keyset_over_ids(jp: u64, shares: Seq<u64>, t: int, ids: Seq<u64>) -> bool {
    exists|s: int| #[trigger] keyset_valid(jp, shares, t, s, poly_model(ids))
}

/// The key pair carries exactly the required secret.
pub open spec fn keyset_of_secret(jp: u64, shares: Seq<u64>, t: int, n: int, s: int) -> bool {
    exists|xs: Seq<int>| #[trigger] keyset_valid(jp, shares, t, s, xs) && xs.len() == n
}

/// `f` and `xs` witness that `share` is participant `p`'s slice of a
/// threshold-`t` sharing of the nonzero secret behind `jp`.
pub open spec fn participant_share_witness(
    jp: u64,
    share: u64,
    t: int,
    p: int,
    s: int,
    f: Seq<int>,
    xs: Seq<int>,
) -> bool {
    &&& 0 < s < Q
    &&& jp as int == powm(G as int, s as nat)
    &&& pwf(f)
    &&& f.len() == t + 1
    &&& crate::interp::coeff(f, 0) == s
    &&& points_wf(xs)
    &&& 0 <= p < xs.len()
    &&& share as int == peval(f, xs[p])
}

/// `share` is participant `p`'s slice of some valid key set over `n` points.
pub open spec fn valid_participant_share(jp: u64, share: u64, t: int, n: int, p: int) -> bool {
    exists|s: int, f: Seq<int>, xs: Seq<int>|
        #[trigger] participant_share_witness(jp, share, t, p, s, f, xs) && xs.len() == n
}

/// `share` is participant `p`'s slice over the caller-supplied identifiers.
pub open spec fn participant_share_over_ids(
    jp: u64,
    share: u64,
    t: int,
    p: int,
    ids: Seq<u64>,
) -> bool {
    exists|s: int, f: Seq<int>|
        #[trigger] participant_share_witness(jp, share, t, p, s, f, poly_model(ids))
}

/// `share` is participant `p`'s slice of a sharing of exactly `s`.
pub open spec fn participant_share_of_secret(
    jp: u64,
    share: u64,
    t: int,
    n: int,
    p: int,
    s: int,
) -> bool {
    exists|f: Seq<int>, xs: Seq<int>|
        #[trigger] participant_share_witness(jp, share, t, p, s, f, xs) && xs.len() == n
}

/// Any (t+1)-quorum of a witnessed sharing reconstructs exactly the shared
/// secret; `sel` picks the quorum's indices.
pub proof fn lemma_sharing_reconstruction(
    shares: Seq<int>,
    t: int,
    secret: int,
    f: Seq<int>,
    xs: Seq<int>,
    sel: Seq<int>,
)
    requires
        sharing_witness(shares, t, secret, f, xs),
        t >= 0,
        sel.len() == t + 1,
        forall|i: int| 0 <= i < sel.len() ==> 0 <= #[trigger] sel[i] < xs.len(),
        forall|i: int, j: int| 0 <= i < sel.len() && 0 <= j < sel.len() && i != j ==> sel[i]
            != sel[j],
    ensures
        crate::interp::reconstructed(
            Seq::new(sel.len(), |i: int| shares[sel[i]]),
            Seq::new(sel.len(), |i: int| xs[sel[i]]),
        ) == secret,
{
    let qxs = Seq::new(sel.len(), |i: int| xs[sel[i]]);
    let qvals = Seq::new(sel.len(), |i: int| shares[sel[i]]);
    assert(points_wf(qxs)) by {
        assert(forall|i: int| 0 <= i < qxs.len() ==> #[trigger] qxs[i] == xs[sel[i]]);
    }
    assert(forall|j: int| 0 <= j < qxs.len() ==> #[trigger] qvals[j] == peval(f, qxs[j]));
    crate::interp::lemma_interpolation(f, qxs, qvals);
    assert(crate::interp::coeff(f, 0) == f[0]);
}

/// The law a generated key pair carries: from any valid key set, every
/// (t+1)-subset of the shares reconstructs the discrete logarithm of the
/// joint public key — and so every quorum reconstructs the same scalar.
pub proof fn lemma_keyset_reconstruction(
    jp: u64,
    shares: Seq<u64>,
    t: int,
    s: int,
    xs: Seq<int>,
    sel: Seq<int>,
)
    requires
        keyset_valid(jp, shares, t, s, xs),
        t >= 0,
        sel.len() == t + 1,
        forall|i: int| 0 <= i < sel.len() ==> 0 <= #[trigger] sel[i] < shares.len(),
        forall|i: int, j: int| 0 <= i < sel.len() && 0 <= j < sel.len() && i != j ==> sel[i]
            != sel[j],
    ensures
        jp as int == powm(
            G as int,
            crate::interp::reconstructed(
                Seq::new(sel.len(), |i: int| shares[sel[i]] as int),
                Seq::new(sel.len(), |i: int| xs[sel[i]]),
            ) as nat,
        ),
        crate::interp::reconstructed(
            Seq::new(sel.len(), |i: int| shares[sel[i]] as int),
            Seq::new(sel.len(), |i: int| xs[sel[i]]),
        ) == s,
{
    let sm = poly_model(shares);
    let f = choose|f: Seq<int>| #[trigger] sharing_witness(sm, t, s, f, xs);
    assert(forall|i: int| 0 <= i < sel.len() ==> 0 <= #[trigger] sel[i] < xs.len());
    lemma_sharing_reconstruction(sm, t, s, f, xs, sel);
    assert(Seq::new(sel.len(), |i: int| sm[sel[i]]) =~= Seq::new(
        sel.len(),
        |i: int| shares[sel[i]] as int,
    ));
}

/// The secret shares of a well-formed run share its joint secret.
pub proof fn lemma_artifacts_sharing(a: KeyGenerationArtifacts, t: int, n: int)
    requires
        artifacts_wf(a, t, n),
        t >= 0,
        n >= 1,
    ensures
        is_valid_sharing(poly_model(a.secret_shares@), t, joint_secret(a)),
        shared_over(poly_model(a.secret_shares@), t, joint_secret(a), poly_model(a.id_numbers@)),
        keyset_valid(
            a.joint_public,
            a.secret_shares@,
            t,
            joint_secret(a),
            poly_model(a.id_numbers@),
        ),
{
    let p1 = polys_model(a.polynoms1@);
    let f = sum_poly_from(p1, 0);
    let xs = poly_model(a.id_numbers@);
    let shares = poly_model(a.secret_shares@);
    assert(forall|k: int| 0 <= k < p1.len() ==> #[trigger] p1[k].len() == t + 1) by {
        assert(forall|k: int|
            0 <= k < n ==> p1[k] == crate::polynomial::poly_model(
                #[trigger] a.polynoms1@[k]@,
            ));
    }
    lemma_sum_poly_shape(p1, t, 0);
    assert(forall|k: int| 0 <= k < p1.len() ==> #[trigger] p1[k].len() >= 1);
    lemma_sum_poly_free_term(p1, 0);
    assert(forall|j: int| 0 <= j < shares.len() ==> #[trigger] shares[j] == peval(f, xs[j]));
    assert(sharing_witness(shares, t, joint_secret(a), f, xs));
    assert(shared_over(shares, t, joint_secret(a), xs));
}

/// The key law of distributed key generation: the joint public key equals
/// `G` raised to the Lagrange reconstruction of any `t + 1` of the secret
/// shares over their identifiers.  `sel` picks the participating subset.
pub proof fn lemma_joint_public_is_reconstruction(
    a: KeyGenerationArtifacts,
    t: int,
    n: int,
    sel: Seq<int>,
)
    requires
        artifacts_wf(a, t, n),
        t >= 0,
        sel.len() == t + 1,
        forall|i: int| 0 <= i < sel.len() ==> 0 <= #[trigger] sel[i] < n,
        forall|i: int, j: int| 0 <= i < sel.len() && 0 <= j < sel.len() && i != j ==> sel[i]
            != sel[j],
    ensures
        a.joint_public as int == powm(
            G as int,
            crate::interp::reconstructed(
                Seq::new(sel.len(), |i: int| a.secret_shares@[sel[i]] as int),
                Seq::new(sel.len(), |i: int| poly_model(a.id_numbers@)[sel[i]]),
            ) as nat,
        ),
{
    let ids = poly_model(a.id_numbers@);
    let p1 = polys_model(a.polynoms1@);
    let f = sum_poly_from(p1, 0);
    let xs = Seq::new(sel.len(), |i: int| ids[sel[i]]);
    let vals = Seq::new(sel.len(), |i: int| a.secret_shares@[sel[i]] as int);
    assert(forall|k: int| 0 <= k < p1.len() ==> #[trigger] p1[k].len() == t + 1) by {
        assert(forall|k: int|
            0 <= k < n ==> p1[k] == crate::polynomial::poly_model(
                #[trigger] a.polynoms1@[k]@,
            ));
    }
    lemma_sum_poly_shape(p1, t, 0);
    assert(0 <= sel[0] < n);
    assert(f.len() == t + 1);
    assert(points_wf(xs)) by {
        assert(forall|i: int| 0 <= i < xs.len() ==> #[trigger] xs[i] == ids[sel[i]]);
    }
    assert(forall|j: int| 0 <= j < xs.len() ==> #[trigger] vals[j] == peval(f, xs[j]));
    crate::interp::lemma_interpolation(f, xs, vals);
    assert(forall|k: int| 0 <= k < p1.len() ==> #[trigger] p1[k].len() >= 1);
    lemma_sum_poly_free_term(p1, 0);
    assert(crate::interp::coeff(f, 0) == f[0]);
}

/// Everything the well-formedness of one run's artifacts guarantees.
pub open spec fn artifacts_wf(a: KeyGenerationArtifacts, t: int, n: int) -> bool {
    let ids = poly_model(a.id_numbers@);
    let p1 = polys_model(a.polynoms1@);
    let p2 = polys_model(a.polynoms2@);
    &&& a.id_numbers@.len() == n
    &&& scalars_wf(a.id_numbers@)
    &&& points_wf(ids)
    &&& a.polynoms1@.len() == n
    &&& polys_wf(a.polynoms1@, t)
    &&& a.polynoms2@.len() == n
    &&& polys_wf(a.polynoms2@, t)
    &&& a.secrets1@.len() == n
    &&& forall|i: int| 0 <= i < n ==> #[trigger] a.secrets1@[i]@.len() == n && scalars_wf(
        a.secrets1@[i]@,
    )
    &&& forall|i: int, j: int| 0 <= i < n && 0 <= j < n ==> #[trigger] (a.secrets1@[i]@[j] as int)
        == peval(p1[i], ids[j])
    &&& a.secrets2@.len() == n
    &&& forall|i: int| 0 <= i < n ==> #[trigger] a.secrets2@[i]@.len() == n && scalars_wf(
        a.secrets2@[i]@,
    )
    &&& forall|i: int, j: int| 0 <= i < n && 0 <= j < n ==> #[trigger] (a.secrets2@[i]@[j] as int)
        == peval(p2[i], ids[j])
    &&& in_group(a.derived_point)
    &&& a.publics@.len() == n
    &&& forall|i: int| 0 <= i < n ==> #[trigger] poly_model(a.publics@[i]@) == commitments_model(
        a.derived_point as int,
        p1[i],
        p2[i],
    )
    &&& forall|i: int, k: int| 0 <= i < n && 0 <= k < a.publics@[i]@.len() ==> in_group(
        #[trigger] a.publics@[i]@[k],
    )
    &&& a.public_shares@.len() == n
    &&& forall|i: int| 0 <= i < n ==> #[trigger] (a.public_shares@[i] as int) == powm(
        G as int,
        p1[i][0] as nat,
    )
    &&& forall|i: int| 0 <= i < n ==> in_group(#[trigger] a.public_shares@[i])
    &&& a.secret_shares@.len() == n
    &&& scalars_wf(a.secret_shares@)
    &&& forall|j: int| 0 <= j < n ==> #[trigger] (a.secret_shares@[j] as int) == peval(
        sum_poly_from(p1, 0),
        ids[j],
    )
    &&& in_group(a.joint_public)
    &&& a.joint_public as int == powm(G as int, joint_free_term(p1) as nat)
    &&& 0 < joint_free_term(p1) < Q
    &&& a.joint_public != 1
}

/// Every share an honest run deals passes the Verify round: for each
/// dealer `i` and participant `j`, `verify_share` on the dealt pair and
/// the published commitments returns true.
pub proof fn lemma_artifacts_shares_verify(
    a: KeyGenerationArtifacts,
    t: int,
    n: int,
    i: int,
    j: int,
)
    requires
        artifacts_wf(a, t, n),
        0 <= i < n,
        0 <= j < n,
    ensures
        crate::group::gmul(
            powm(G as int, a.secrets1@[i]@[j] as nat),
            powm(a.derived_point as int, a.secrets2@[i]@[j] as nat),
        ) == crate::polynomial::commit_prod(
            poly_model(a.publics@[i]@),
            poly_model(a.id_numbers@)[j],
        ),
{
    let ids = poly_model(a.id_numbers@);
    let p1 = polys_model(a.polynoms1@)[i];
    let p2 = polys_model(a.polynoms2@)[i];
    assert(p1 == poly_model(a.polynoms1@[i]@));
    assert(p2 == poly_model(a.polynoms2@[i]@));
    assert(scalars_wf(a.polynoms1@[i]@));
    assert(scalars_wf(a.polynoms2@[i]@));
    assert(crate::polynomial::pwf(p1));
    assert(crate::polynomial::pwf(p2));
    crate::polynomial::lemma_verify_share_honest(a.derived_point as int, p1, p2, ids[j]);
}

/// Does a vector hold a given scalar?
fn contains_scalar(v: &Vec<u64>, x: u64) -> (r: bool)
    ensures
        r == exists|k: int| 0 <= k < v@.len() && v@[k] == x,
{
    let mut i: usize = 0;
    while i < v.len()
        invariant
            i <= v@.len(),
            forall|k: int| 0 <= k < i ==> v@[k] != x,
        decreases v@.len() - i,
    {
        if v[i] == x {
            return true;
        }
        i = i + 1;
    }
    false
}

/// Draw `n` pairwise distinct nonzero identifiers.
fn generate_identifiers(n: usize) -> (r: Result<Vec<u64>, Error>)
    requires
        n < Q,
    ensures
        r is Ok ==> r->Ok_0@.len() == n && scalars_wf(r->Ok_0@) && points_wf(
            poly_model(r->Ok_0@),
        ),
        r is Err ==> r->Err_0 == Error::InvalidScalar,
{
    let mut ids: Vec<u64> = Vec::new();
    let mut attempts: u64 = 0;
    let max_attempts: u64 = 64 * (n as u64) + 64;
    while attempts < max_attempts
        invariant
            n < Q,
            ids@.len() <= n,
            scalars_wf(ids@),
            points_wf(poly_model(ids@)),
            forall|i: int| 0 <= i < ids@.len() ==> 0 < #[trigger] ids@[i] < Q,
        decreases max_attempts - attempts,
    {
        if ids.len() == n {
            return Ok(ids);
        }
        let s = match generate_random_scalar() {
            Ok(s) => s,
            Err(e) => {
                return Err(e);
            },
        };
        if !contains_scalar(&ids, s) {
            proof {
                let m = poly_model(ids@);
                let m2 = poly_model(ids@.push(s));
                assert(forall|k: int| 0 <= k < m.len() ==> m2[k] == m[k]);
                assert(m2[m.len() as int] == s as int);
            }
            ids.push(s);
        }
        attempts = attempts + 1;
    }
    if ids.len() == n {
        Ok(ids)
    } else {
        Err(Error::InvalidScalar)
    }
}

/// Check a caller-supplied identifier set: length `n`, reduced, nonzero,
/// pairwise distinct.
pub fn ids_valid(ids: &Vec<u64>, n: usize) -> (r: bool)
    ensures
        r == (ids@.len() == n && scalars_wf(ids@) && points_wf(poly_model(ids@))),
{
    if ids.len() != n {
        return false;
    }
    let mut i: usize = 0;
    while i < n
        invariant
            ids@.len() == n,
            i <= n,
            forall|k: int| 0 <= k < i ==> 0 < #[trigger] ids@[k] < Q,
            forall|k: int, l: int| 0 <= k < i && 0 <= l < i && k != l ==> ids@[k] != ids@[l],
        decreases n - i,
    {
        if ids[i] == 0 || ids[i] >= Q {
            proof {
                assert(poly_model(ids@)[i as int] == ids@[i as int]);
            }
            return false;
        }
        let mut j: usize = 0;
        while j < i
            invariant
                ids@.len() == n,
                j <= i < n,
                forall|l: int| 0 <= l < j ==> ids@[l] != ids@[i as int],
            decreases i - j,
        {
            if ids[j] == ids[i] {
                proof {
                    assert(poly_model(ids@)[j as int] == ids@[j as int]);
                    assert(poly_model(ids@)[i as int] == ids@[i as int]);
                }
                return false;
            }
            j = j + 1;
        }
        i = i + 1;
    }
    true
}

/// One full honest key-generation run.
///
/// With `secret_required`, the run shares that exact value: the joint public
/// key is `G^secret_required` and the secret shares are evaluations of a
/// summed polynomial whose free term is `secret_required`.  A caller-supplied
/// identifier set is validated and reused — signing needs the same set across
/// its two runs.
pub fn run_key_generation(
    t: usize,
    n: usize,
    id_numbers: Option<Vec<u64>>,
    secret_required: Option<u64>,
) -> (r: Result<KeyGenerationArtifacts, Error>)
    requires
        t < Q,
        1 <= n < Q,
        t + 1 <= n,
        secret_required is Some ==> 0 < secret_required->0 < Q,
    ensures
        r is Ok ==> artifacts_wf(r->Ok_0, t as int, n as int),
        r is Ok && secret_required is Some ==> joint_secret(r->Ok_0) == secret_required->0,
        r is Ok && id_numbers is Some ==> r->Ok_0.id_numbers@ == id_numbers->0@,
        id_numbers is Some && !identifiers_wf(id_numbers->0@, n as int) ==> r is Err,
        r is Err ==> r->Err_0 == Error::InvalidScalar,
{
    // Round: Init.  Agree on identifiers and the public blinding point.
    let ids: Vec<u64> = match id_numbers {
        Some(given) => {
            if !ids_valid(&given, n) {
                return Err(Error::InvalidScalar);
            }
            given
        },
        None => {
            match generate_identifiers(n) {
                Ok(ids) => ids,
                Err(e) => {
                    return Err(e);
                },
            }
        },
    };
    let hs = match generate_random_scalar() {
        Ok(s) => s,
        Err(e) => {
            return Err(e);
        },
    };
    let h = generator_pow(hs);

    // Round: Distribute.  Each dealer builds its two polynomials, evaluates
    // them at every identifier, and publishes its commitments.
    let polynoms1 = match prepare_polynomials(t, n, secret_required) {
        Ok(ps) => ps,
        Err(e) => {
            return Err(e);
        },
    };
    let mut polynoms2: Vec<Vec<u64>> = Vec::new();
    let mut i: usize = 0;
    while i < n
        invariant
            t < Q,
            i <= n,
            polynoms2@.len() == i,
            polys_wf(polynoms2@, t as int),
        decreases n - i,
    {
        let p = match generate_random_polynomial(t) {
            Ok(p) => p,
            Err(e) => {
                return Err(e);
            },
        };
        polynoms2.push(p);
        i = i + 1;
    }

    let secrets1 = cross_evaluate(&polynoms1, &ids);
    let secrets2 = cross_evaluate(&polynoms2, &ids);

    let mut publics: Vec<Vec<u64>> = Vec::new();
    let mut i: usize = 0;
    while i < n
        invariant
            t < Q,
            n < Q,
            i <= n,
            in_group(h),
            polynoms1@.len() == n,
            polys_wf(polynoms1@, t as int),
            polynoms2@.len() == n,
            polys_wf(polynoms2@, t as int),
            publics@.len() == i,
            forall|k: int| 0 <= k < i ==> #[trigger] poly_model(publics@[k]@)
                == commitments_model(
                h as int,
                polys_model(polynoms1@)[k],
                polys_model(polynoms2@)[k],
            ),
            forall|k: int, l: int| 0 <= k < i && 0 <= l < publics@[k]@.len() ==> in_group(
                #[trigger] publics@[k]@[l],
            ),
        decreases n - i,
    {
        let c = commitment_points(t, h, &polynoms1[i], &polynoms2[i]);
        proof {
            assert(poly_model(c@) =~= commitments_model(
                h as int,
                polys_model(polynoms1@)[i as int],
                polys_model(polynoms2@)[i as int],
            ));
        }
        publics.push(c);
        i = i + 1;
    }

    // Round: Combine.  Public shares, joint public key, and each
    // participant's combined secret share.
    let mut public_shares: Vec<u64> = Vec::new();
    let mut i: usize = 0;
    while i < n
        invariant
            i <= n,
            polynoms1@.len() == n,
            polys_wf(polynoms1@, t as int),
            public_shares@.len() == i,
            forall|k: int| 0 <= k < i ==> #[trigger] (public_shares@[k] as int) == powm(
                G as int,
                polys_model(polynoms1@)[k][0] as nat,
            ),
            forall|k: int| 0 <= k < i ==> in_group(#[trigger] public_shares@[k]),
        decreases n - i,
    {
        proof {
            assert(polys_model(polynoms1@)[i as int] == poly_model(polynoms1@[i as int]@));
            assert(scalars_wf(polynoms1@[i as int]@));
        }
        let ps = generator_pow(polynoms1[i][0]);
        public_shares.push(ps);
        i = i + 1;
    }

    let mut secret_shares: Vec<u64> = Vec::new();
    let mut j: usize = 0;
    while j < n
        invariant
            j <= n,
            ids@.len() == n,
            scalars_wf(ids@),
            polynoms1@.len() == n,
            polys_wf(polynoms1@, t as int),
            forall|a: int| 0 <= a < n ==> #[trigger] secrets1@[a]@.len() == n && scalars_wf(
                secrets1@[a]@,
            ),
            secrets1@.len() == n,
            forall|a: int, b: int| 0 <= a < n && 0 <= b < n ==> #[trigger] (secrets1@[a]@[b] as int)
                == peval(polys_model(polynoms1@)[a], poly_model(ids@)[b]),
            secret_shares@.len() == j,
            scalars_wf(secret_shares@),
            forall|k: int| 0 <= k < j ==> #[trigger] (secret_shares@[k] as int) == peval(
                sum_poly_from(polys_model(polynoms1@), 0),
                poly_model(ids@)[k],
            ),
        decreases n - j,
    {
        let ghost p1m = polys_model(polynoms1@);
        let ghost x = poly_model(ids@)[j as int];
        let mut acc: u64 = 0;
        let mut i: usize = n;
        while i > 0
            invariant
                j < n,
                ids@.len() == n,
                secrets1@.len() == n,
                forall|a: int| 0 <= a < n ==> #[trigger] secrets1@[a]@.len() == n && scalars_wf(
                    secrets1@[a]@,
                ),
                forall|a: int, b: int| 0 <= a < n && 0 <= b < n ==> #[trigger] (
                secrets1@[a]@[b] as int) == peval(p1m[a], poly_model(ids@)[b]),
                p1m == polys_model(polynoms1@),
                p1m.len() == n,
                x == poly_model(ids@)[j as int],
                0 <= i <= n,
                is_scalar(acc),
                acc == eval_sum_from(p1m, x, i as int),
            decreases i,
        {
            i = i - 1;
            let s = secrets1[i][j];
            acc = scalar_add(s, acc);
        }
        proof {
            lemma_eval_sum(p1m, x, 0);
        }
        secret_shares.push(acc);
        j = j + 1;
    }

    let mut joint_public: u64 = 1;
    let ghost p1m = polys_model(polynoms1@);
    let mut i: usize = n;
    proof {
        crate::polynomial::lemma_one_in_group();
        assert(pow(G as int, 0) == 1) by {
            reveal(pow);
        }
        lemma_small_mod(1nat, crate::group::P as nat);
        assert(powm(G as int, 0) == 1);
    }
    while i > 0
        invariant
            p1m == polys_model(polynoms1@),
            p1m.len() == n,
            polynoms1@.len() == n,
            polys_wf(polynoms1@, t as int),
            public_shares@.len() == n,
            forall|k: int| 0 <= k < n ==> #[trigger] (public_shares@[k] as int) == powm(
                G as int,
                p1m[k][0] as nat,
            ),
            forall|k: int| 0 <= k < n ==> in_group(#[trigger] public_shares@[k]),
            0 <= i <= n,
            in_group(joint_public),
            joint_public as int == powm(G as int, sum_free_from(p1m, i as int) as nat),
        decreases i,
    {
        i = i - 1;
        proof {
            lemma_g_in_group();
            assert(polys_model(polynoms1@)[i as int] == poly_model(polynoms1@[i as int]@));
            assert(scalars_wf(polynoms1@[i as int]@));
            assert(0 <= p1m[i as int][0]);
            assert(0 <= sum_free_from(p1m, i + 1));
            lemma_powm_madd(G as int, p1m[i as int][0], sum_free_from(p1m, i + 1));
            crate::group::lemma_grp_pow(G as int, p1m[i as int][0] as nat);
            crate::group::lemma_grp_pow(G as int, sum_free_from(p1m, i + 1) as nat);
            crate::group::lemma_grp_mul(
                powm(G as int, p1m[i as int][0] as nat),
                powm(G as int, sum_free_from(p1m, i + 1) as nat),
            );
        }
        joint_public = crate::group::point_mul(public_shares[i], joint_public);
    }

    proof {
        // The joint secret is nonzero, so the joint public key is not the
        // identity: distinct reduced exponents give distinct powers of G.
        assert(powm(G as int, 0) == 1) by {
            reveal(pow);
            lemma_small_mod(1nat, crate::group::P as nat);
        }
        crate::group::lemma_generator_injective(0, joint_free_term(p1m));
    }
    Ok(
        KeyGenerationArtifacts {
            id_numbers: ids,
            polynoms1,
            polynoms2,
            secrets1,
            secrets2,
            derived_point: h,
            publics,
            public_shares,
            secret_shares,
            joint_public,
        },
    )
}

/// Evaluate every dealer polynomial at every identifier.
fn cross_evaluate(polys: &Vec<Vec<u64>>, ids: &Vec<u64>) -> (r: Vec<Vec<u64>>)
    requires
        forall|i: int| 0 <= i < polys@.len() ==> scalars_wf(#[trigger] polys@[i]@),
        scalars_wf(ids@),
    ensures
        r@.len() == polys@.len(),
        forall|i: int| 0 <= i < r@.len() ==> #[trigger] r@[i]@.len() == ids@.len() && scalars_wf(
            r@[i]@,
        ),
        forall|i: int, j: int| 0 <= i < r@.len() && 0 <= j < ids@.len() ==> #[trigger] (
        r@[i]@[j] as int) == peval(polys_model(polys@)[i], poly_model(ids@)[j]),
{
    let mut r: Vec<Vec<u64>> = Vec::new();
    let mut i: usize = 0;
    while i < polys.len()
        invariant
            forall|a: int| 0 <= a < polys@.len() ==> scalars_wf(#[trigger] polys@[a]@),
            scalars_wf(ids@),
            i <= polys@.len(),
            r@.len() == i,
            forall|a: int| 0 <= a < i ==> #[trigger] r@[a]@.len() == ids@.len() && scalars_wf(
                r@[a]@,
            ),
            forall|a: int, b: int| 0 <= a < i && 0 <= b < ids@.len() ==> #[trigger] (
            r@[a]@[b] as int) == peval(polys_model(polys@)[a], poly_model(ids@)[b]),
        decreases polys@.len() - i,
    {
        let mut row: Vec<u64> = Vec::new();
        let mut j: usize = 0;
        while j < ids.len()
            invariant
                forall|a: int| 0 <= a < polys@.len() ==> scalars_wf(#[trigger] polys@[a]@),
                scalars_wf(ids@),
                i < polys@.len(),
                j <= ids@.len(),
                row@.len() == j,
                scalars_wf(row@),
                forall|b: int| 0 <= b < j ==> #[trigger] (row@[b] as int) == peval(
                    polys_model(polys@)[i as int],
                    poly_model(ids@)[b],
                ),
            decreases ids@.len() - j,
        {
            let v = evaluate(&polys[i], ids[j]);
            row.push(v);
            j = j + 1;
        }
        r.push(row);
        i = i + 1;
    }
    r
}

/// Generate a joint server key: the joint public key and every
/// participant's secret share.
pub fn generate_server_key(
    t: usize,
    n: usize,
    id_numbers: Option<Vec<u64>>,
    secret_required: Option<u64>,
) -> (r: Result<(u64, Vec<u64>), Error>)
    requires
        t < Q,
        1 <= n < Q,
        t + 1 <= n,
        secret_required is Some ==> 0 < secret_required->0 < Q,
    ensures
        r is Ok ==> in_group(r->Ok_0.0) && r->Ok_0.0 != 1 && r->Ok_0.1@.len() == n && scalars_wf(
            r->Ok_0.1@,
        ),
        r is Ok ==> valid_keyset_for(r->Ok_0.0, r->Ok_0.1@, t as int, n as int),
        r is Ok && id_numbers is Some ==> keyset_over_ids(
            r->Ok_0.0,
            r->Ok_0.1@,
            t as int,
            id_numbers->0@,
        ),
        r is Ok && secret_required is Some ==> r->Ok_0.0 as int == powm(
            G as int,
            secret_required->0 as nat,
        ) && keyset_of_secret(
            r->Ok_0.0,
            r->Ok_0.1@,
            t as int,
            n as int,
            secret_required->0 as int,
        ),
        id_numbers is Some && !identifiers_wf(id_numbers->0@, n as int) ==> r is Err,
        r is Err ==> r->Err_0 == Error::InvalidScalar,
{
    let a = match run_key_generation(t, n, id_numbers, secret_required) {
        Ok(a) => a,
        Err(e) => {
            return Err(e);
        },
    };
    proof {
        lemma_artifacts_sharing(a, t as int, n as int);
        let s = joint_secret(a);
        let xs = poly_model(a.id_numbers@);
        assert(keyset_valid(a.joint_public, a.secret_shares@, t as int, s, xs) && xs.len()
            == n as int);
        assert(valid_keyset_for(a.joint_public, a.secret_shares@, t as int, n as int));
        if id_numbers is Some {
            assert(keyset_over_ids(a.joint_public, a.secret_shares@, t as int, id_numbers->0@));
        }
        if secret_required is Some {
            assert(keyset_of_secret(
                a.joint_public,
                a.secret_shares@,
                t as int,
                n as int,
                secret_required->0 as int,
            ));
        }
    }
    Ok((a.joint_public, a.secret_shares))
}

/// Generate a joint document key, exactly as a server key is generated:
/// the document key point is the joint public of its own run.
pub fn generate_document_key(
    t: usize,
    n: usize,
    id_numbers: Option<Vec<u64>>,
    secret_required: Option<u64>,
) -> (r: Result<(u64, Vec<u64>), Error>)
    requires
        t < Q,
        1 <= n < Q,
        t + 1 <= n,
        secret_required is Some ==> 0 < secret_required->0 < Q,
    ensures
        r is Ok ==> in_group(r->Ok_0.0) && r->Ok_0.0 != 1 && r->Ok_0.1@.len() == n && scalars_wf(
            r->Ok_0.1@,
        ),
        r is Ok ==> valid_keyset_for(r->Ok_0.0, r->Ok_0.1@, t as int, n as int),
        r is Ok && id_numbers is Some ==> keyset_over_ids(
            r->Ok_0.0,
            r->Ok_0.1@,
            t as int,
            id_numbers->0@,
        ),
        r is Ok && secret_required is Some ==> r->Ok_0.0 as int == powm(
            G as int,
            secret_required->0 as nat,
        ) && keyset_of_secret(
            r->Ok_0.0,
            r->Ok_0.1@,
            t as int,
            n as int,
            secret_required->0 as int,
        ),
        id_numbers is Some && !identifiers_wf(id_numbers->0@, n as int) ==> r is Err,
        r is Err ==> r->Err_0 == Error::InvalidScalar,
{
    let a = match run_key_generation(t, n, id_numbers, secret_required) {
        Ok(a) => a,
        Err(e) => {
            return Err(e);
        },
    };
    proof {
        lemma_artifacts_sharing(a, t as int, n as int);
        let s = joint_secret(a);
        let xs = poly_model(a.id_numbers@);
        assert(keyset_valid(a.joint_public, a.secret_shares@, t as int, s, xs) && xs.len()
            == n as int);
        assert(valid_keyset_for(a.joint_public, a.secret_shares@, t as int, n as int));
        if id_numbers is Some {
            assert(keyset_over_ids(a.joint_public, a.secret_shares@, t as int, id_numbers->0@));
        }
        if secret_required is Some {
            assert(keyset_of_secret(
                a.joint_public,
                a.secret_shares@,
                t as int,
                n as int,
                secret_required->0 as int,
            ));
        }
    }
    Ok((a.joint_public, a.secret_shares))
}

/// Generate a server key and hand back one participant's slice of it:
/// the joint public key and that participant's secret share.
pub fn generate_server_key_share(
    t: usize,
    n: usize,
    id_numbers: Option<Vec<u64>>,
    secret_required: Option<u64>,
    participant: usize,
) -> (r: Result<(u64, u64), Error>)
    requires
        t < Q,
        1 <= n < Q,
        t + 1 <= n,
        participant < n,
        secret_required is Some ==> 0 < secret_required->0 < Q,
    ensures
        r is Ok ==> in_group(r->Ok_0.0) && r->Ok_0.0 != 1 && is_scalar(r->Ok_0.1),
        r is Ok ==> valid_participant_share(
            r->Ok_0.0,
            r->Ok_0.1,
            t as int,
            n as int,
            participant as int,
        ),
        r is Ok && id_numbers is Some ==> participant_share_over_ids(
            r->Ok_0.0,
            r->Ok_0.1,
            t as int,
            participant as int,
            id_numbers->0@,
        ),
        r is Ok && secret_required is Some ==> r->Ok_0.0 as int == powm(
            G as int,
            secret_required->0 as nat,
        ) && participant_share_of_secret(
            r->Ok_0.0,
            r->Ok_0.1,
            t as int,
            n as int,
            participant as int,
            secret_required->0 as int,
        ),
        id_numbers is Some && !identifiers_wf(id_numbers->0@, n as int) ==> r is Err,
        r is Err ==> r->Err_0 == Error::InvalidScalar,
{
    let a = match run_key_generation(t, n, id_numbers, secret_required) {
        Ok(a) => a,
        Err(e) => {
            return Err(e);
        },
    };
    let share = a.secret_shares[participant];
    proof {
        let p1 = polys_model(a.polynoms1@);
        let f = sum_poly_from(p1, 0);
        let xs = poly_model(a.id_numbers@);
        let s = joint_secret(a);
        assert(forall|k: int| 0 <= k < p1.len() ==> #[trigger] p1[k].len() == t + 1) by {
            assert(forall|k: int|
                0 <= k < n ==> p1[k] == crate::polynomial::poly_model(
                    #[trigger] a.polynoms1@[k]@,
                ));
        }
        lemma_sum_poly_shape(p1, t as int, 0);
        assert(forall|k: int| 0 <= k < p1.len() ==> #[trigger] p1[k].len() >= 1);
        lemma_sum_poly_free_term(p1, 0);
        assert(a.secret_shares@[participant as int] as int == peval(f, xs[participant as int]));
        assert(participant_share_witness(
            a.joint_public,
            share,
            t as int,
            participant as int,
            s,
            f,
            xs,
        ) && xs.len() == n as int);
        assert(valid_participant_share(
            a.joint_public,
            share,
            t as int,
            n as int,
            participant as int,
        ));
        if id_numbers is Some {
            assert(participant_share_over_ids(
                a.joint_public,
                share,
                t as int,
                participant as int,
                id_numbers->0@,
            ));
        }
        if secret_required is Some {
            assert(participant_share_of_secret(
                a.joint_public,
                share,
                t as int,
                n as int,
                participant as int,
                secret_required->0 as int,
            ));
        }
    }
    Ok((a.joint_public, share))
}

} // verus!
