//! The threshold document-key codec.
//!
//! A document key (a group element) is masked ElGamal-style under the joint
//! public key.  No single holder can unmask it: each of `t + 1` share
//! holders contributes the shadow `common^share`, and the shadows are
//! combined by Lagrange interpolation in the exponent, so the joint secret
//! itself is never assembled.

use vstd::prelude::*;
use crate::arith::{is_scalar, Q};
use crate::group::{
    gmul, grp, in_group, lemma_grp_mul, lemma_grp_pow, point_inv, point_mul, point_pow, powm,
    generator_pow, G, P,
};
use crate::interp::{lam0, lagrange_coeff0, points_wf};
use crate::polynomial::{poly_model, scalars_wf};
use crate::rng::generate_random_scalar;
use crate::Error;
use vstd::arithmetic::power::pow;

verus! {

/// A document key in masked form: the masked point together with the
/// ephemeral common point that masks it.
#[derive(Clone, Copy, Debug, PartialEq, Eq, Structural)]
pub struct EncryptedDocumentKey {
    /// `G^r` for the ephemeral masking scalar `r`.
    pub common_point: u64,
    /// `key * jointPublic^r`.
    pub masked_point: u64,
}

/// What it means for `e` to encrypt `key` under `jp` with ephemeral `rr`.
pub open spec fn is_encryption_of(
    e: EncryptedDocumentKey,
    key: int,
    jp: int,
    rr: int,
) -> bool {
    &&& 0 < rr < Q
    &&& e.common_point as int == powm(G as int, rr as nat)
    &&& e.masked_point as int == gmul(key, powm(jp, rr as nat))
}

/// `e` encrypts `key` under `jp` with some ephemeral scalar.
pub open spec fn encrypts(e: EncryptedDocumentKey, key: int, jp: int) -> bool {
    exists|rr: int| #[trigger] is_encryption_of(e, key, jp, rr)
}

/// The combined shadow `prod_j shadows[j]^lam0(xs, j)`, from share `j` on.
pub open spec fn shadow_prod(shadows: Seq<int>, xs: Seq<int>, j: int) -> int
    decreases xs.len() - j,
{
    if j < 0 || j >= xs.len() {
        1
    } else {
        gmul(powm(shadows[j], lam0(xs, j) as nat), shadow_prod(shadows, xs, j + 1))
    }
}

/// What decryption computes: `masked * jointShadow^(Q-1)` — division by the
/// combined shadow.
pub open spec fn spec_decrypt(shadows: Seq<int>, xs: Seq<int>, masked: int) -> int {
    gmul(masked, powm(shadow_prod(shadows, xs, 0), (Q - 1) as nat))
}

/// Shadows of shares combine to the common point raised to the
/// reconstruction sum.
proof fn lemma_shadow_prod_pow(
    shadows: Seq<int>,
    vals: Seq<int>,
    xs: Seq<int>,
    c: int,
    j: int,
)
    requires
        grp(c),
        vals.len() == xs.len(),
        shadows.len() == xs.len(),
        forall|i: int| 0 <= i < vals.len() ==> 0 <= #[trigger] vals[i] < Q,
        forall|i: int| 0 <= i < xs.len() ==> #[trigger] shadows[i] == powm(c, vals[i] as nat),
        0 <= j <= xs.len(),
    ensures
        shadow_prod(shadows, xs, j) == powm(c, crate::interp::lag0_sum(vals, xs, j) as nat),
    decreases xs.len() - j,
{
    if j == xs.len() {
        assert(pow(c, 0) == 1) by {
            reveal(pow);
        }
        vstd::arithmetic::div_mod::lemma_small_mod(1nat, P as nat);
    } else {
        lemma_shadow_prod_pow(shadows, vals, xs, c, j + 1);
        let lam = lam0(xs, j);
        let rest = crate::interp::lag0_sum(vals, xs, j + 1);
        assert(0 <= lam < Q);
        assert(0 <= rest < Q) by {
            if j + 1 < xs.len() {
            }
        }
        crate::group::lemma_powm_mmul(c, vals[j], lam);
        assert(powm(shadows[j], lam as nat) == powm(c, crate::arith::mmul(vals[j], lam) as nat));
        crate::group::lemma_powm_madd(c, crate::arith::mmul(vals[j], lam), rest);
    }
}

/// The round trip of the codec: decrypting the `t + 1` shadows of any
/// valid share set recovers exactly the encrypted key point.
///
/// `f` is the joint sharing polynomial of the run that produced the joint
/// public key `G^f[0]`; the shadows are the common point raised to the
/// shares `f(xs[j])`.
pub proof fn lemma_decrypt_roundtrip(
    key: int,
    e: EncryptedDocumentKey,
    rr: int,
    f: Seq<int>,
    xs: Seq<int>,
    shadows: Seq<int>,
)
    requires
        grp(key),
        crate::polynomial::pwf(f),
        1 <= f.len() <= xs.len(),
        points_wf(xs),
        is_encryption_of(e, key, powm(G as int, f[0] as nat), rr),
        shadows.len() == xs.len(),
        forall|j: int| 0 <= j < xs.len() ==> #[trigger] shadows[j] == powm(
            e.common_point as int,
            crate::polynomial::peval(f, xs[j]) as nat,
        ),
    ensures
        spec_decrypt(shadows, xs, e.masked_point as int) == key,
{
    let qi = Q as int;
    let f0 = f[0];
    let jp = powm(G as int, f0 as nat);
    let c = e.common_point as int;
    let vals = Seq::new(xs.len(), |j: int| crate::polynomial::peval(f, xs[j]));
    assert(forall|j: int| 0 <= j < vals.len() ==> 0 <= #[trigger] vals[j] < Q) by {
        assert forall|j: int| 0 <= j < vals.len() implies 0 <= #[trigger] vals[j] < Q by {
            crate::polynomial::lemma_peval_range(f, xs[j]);
        }
    }
    crate::group::lemma_g_in_group();
    assert(grp(c)) by {
        crate::group::lemma_grp_pow(G as int, rr as nat);
    }
    lemma_shadow_prod_pow(shadows, vals, xs, c, 0);
    crate::interp::lemma_interpolation(f, xs, vals);
    let js = shadow_prod(shadows, xs, 0);
    assert(js == powm(c, f0 as nat));
    // The joint shadow equals the mask: both are G^(rr * f0).
    let mask = powm(jp, rr as nat);
    assert(js == mask) by {
        crate::group::lemma_powm_power(G as int, rr as nat, f0 as nat);
        crate::group::lemma_powm_power(G as int, f0 as nat, rr as nat);
        assert(rr as nat * f0 as nat == f0 as nat * rr as nat) by (nonlinear_arith);
    }
    assert(grp(mask)) by {
        crate::group::lemma_grp_pow(G as int, f0 as nat);
        crate::group::lemma_grp_pow(jp, rr as nat);
    }
    // mask * mask^(Q-1) == mask^Q == 1.
    let unmask = powm(js, (Q - 1) as nat);
    assert(gmul(mask, unmask) == 1) by {
        crate::group::lemma_powm_product(mask, 1nat, (Q - 1) as nat);
        assert(powm(mask, 1) == mask) by {
            vstd::arithmetic::power::lemma_pow1(mask);
            vstd::arithmetic::div_mod::lemma_small_mod(mask as nat, P as nat);
        }
    }
    // decrypt == (key * mask) * mask^(Q-1) == key * (mask * mask^(Q-1)) == key.
    assert(spec_decrypt(shadows, xs, e.masked_point as int) == gmul(gmul(key, mask), unmask));
    crate::arith::lemma_mod_mul_assoc(key, mask, unmask, P as int);
    assert(gmul(gmul(key, mask), unmask) == gmul(key, gmul(mask, unmask)));
    assert(gmul(key, 1) == key) by {
        vstd::arithmetic::div_mod::lemma_small_mod(key as nat, P as nat);
    }
}

/// Mask a document key point under the joint public key with a fresh
/// ephemeral scalar.
pub fn encrypt_document_key(document_key: u64, joint_public: u64) -> (r: Result<
    EncryptedDocumentKey,
    Error,
>)
    requires
        in_group(document_key),
        in_group(joint_public),
    ensures
        r is Ok ==> in_group(r->Ok_0.common_point) && in_group(r->Ok_0.masked_point),
        r is Ok ==> encrypts(r->Ok_0, document_key as int, joint_public as int),
        r is Err ==> r->Err_0 == Error::InvalidScalar,
{
    let rr = match generate_random_scalar() {
        Ok(s) => s,
        Err(e) => {
            return Err(e);
        },
    };
    let common_point = generator_pow(rr);
    let mask = point_pow(joint_public, rr);
    let masked_point = point_mul(document_key, mask);
    let e = EncryptedDocumentKey { common_point, masked_point };
    proof {
        assert(is_encryption_of(e, document_key as int, joint_public as int, rr as int));
        assert(encrypts(e, document_key as int, joint_public as int));
    }
    Ok(e)
}

/// Fixed-width big-endian wire form of a masked document key, as the
/// transport sends it: the eight bytes of the masked point, then the eight
/// bytes of the ephemeral common point.  Both components travel — without
/// the common point no holder could contribute a shadow.
pub fn key_adapter(key: &EncryptedDocumentKey) -> (r: Vec<u8>)
    ensures
        r@.len() == 16,
        forall|i: int| 0 <= i < 8 ==> #[trigger] r@[i] == (key.masked_point >> (
        ((7 - i) * 8) as u64)) as u8,
        forall|i: int| 8 <= i < 16 ==> #[trigger] r@[i] == (key.common_point >> (
        ((15 - i) * 8) as u64)) as u8,
{
    let x = key.masked_point;
    let c = key.common_point;
    let mut r: Vec<u8> = Vec::new();
    let mut i: usize = 0;
    while i < 8
        invariant
            x == key.masked_point,
            i <= 8,
            r@.len() == i,
            forall|k: int| 0 <= k < i ==> #[trigger] r@[k] == (x >> (((7 - k) * 8) as u64)) as u8,
        decreases 8 - i,
    {
        let shift = (7 - i as u64) * 8;
        r.push((x >> shift) as u8);
        i = i + 1;
    }
    let mut j: usize = 0;
    while j < 8
        invariant
            x == key.masked_point,
            c == key.common_point,
            j <= 8,
            r@.len() == 8 + j,
            forall|k: int| 0 <= k < 8 ==> #[trigger] r@[k] == (x >> (((7 - k) * 8) as u64)) as u8,
            forall|k: int| 8 <= k < 8 + j ==> #[trigger] r@[k] == (c >> (
            ((15 - k) * 8) as u64)) as u8,
        decreases 8 - j,
    {
        let shift = (7 - j as u64) * 8;
        r.push((c >> shift) as u8);
        j = j + 1;
    }
    r
}

/// One holder's decryption contribution: `common^secretShare`.
pub fn compute_shadow(secret_share: u64, common_point: u64) -> (r: u64)
    requires
        is_scalar(secret_share),
        in_group(common_point),
    ensures
        in_group(r),
        r == powm(common_point as int, secret_share as nat),
{
    point_pow(common_point, secret_share)
}

/// Combine `t + 1` shadows by exponent-domain Lagrange interpolation at
/// zero and strip the mask.  Succeeds exactly when the inputs form a valid
/// quorum: `t + 1` shadows against `t + 1` distinct nonzero identifiers.
pub fn decrypt_document_key(
    t: usize,
    shadows: &Vec<u64>,
    ids: &Vec<u64>,
    masked_point: u64,
) -> (r: Result<u64, Error>)
    requires
        t < Q,
        in_group(masked_point),
        forall|k: int| 0 <= k < shadows@.len() ==> in_group(#[trigger] shadows@[k]),
    ensures
        r is Ok <==> (shadows@.len() == t + 1 && ids@.len() == t + 1 && scalars_wf(ids@)
            && points_wf(poly_model(ids@))),
        r is Ok ==> in_group(r->Ok_0) && r->Ok_0 as int == spec_decrypt(
            poly_model(shadows@),
            poly_model(ids@),
            masked_point as int,
        ),
        r is Err && !(shadows@.len() == t + 1 && ids@.len() == t + 1) ==> r->Err_0
            == Error::InsufficientParticipants,
        r is Err && shadows@.len() == t + 1 && ids@.len() == t + 1 ==> r->Err_0
            == Error::InvalidScalar,
{
    if shadows.len() != t + 1 || ids.len() != t + 1 {
        return Err(Error::InsufficientParticipants);
    }
    if !crate::dkg::ids_valid(ids, t + 1) {
        return Err(Error::InvalidScalar);
    }
    let ghost sm = poly_model(shadows@);
    let ghost m = poly_model(ids@);
    let mut joint_shadow: u64 = 1;
    let mut j: usize = ids.len();
    proof {
        crate::polynomial::lemma_one_in_group();
    }
    while j > 0
        invariant
            t < Q,
            shadows@.len() == t + 1,
            ids@.len() == t + 1,
            scalars_wf(ids@),
            points_wf(m),
            forall|k: int| 0 <= k < shadows@.len() ==> in_group(#[trigger] shadows@[k]),
            sm == poly_model(shadows@),
            m == poly_model(ids@),
            0 <= j <= ids@.len(),
            in_group(joint_shadow),
            joint_shadow as int == shadow_prod(sm, m, j as int),
        decreases j,
    {
        j = j - 1;
        let lam = lagrange_coeff0(ids, j);
        let piece = point_pow(shadows[j], lam);
        joint_shadow = point_mul(piece, joint_shadow);
    }
    let unmask = point_inv(joint_shadow);
    let key = point_mul(masked_point, unmask);
    Ok(key)
}

} // verus!
