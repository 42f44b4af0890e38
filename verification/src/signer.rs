//! The threshold ECDSA-style signer.
//!
//! Signing runs key generation twice — once for the signing key, once for
//! the nonce, over the same identifiers — then a reciprocal sub-protocol
//! shares the inverted nonce without anyone learning nonce or inverse, a
//! multiplication sub-protocol combines it with the key shares, and `2t+1`
//! participants' signature shares interpolate to the standard `s` value.
//! Any zero-valued intermediate (`r`, the revealed nonce product, `s`)
//! discards the nonce and redraws; a zero `r` is never emitted.

use vstd::prelude::*;
use crate::arith::{is_scalar, madd, mmul, scalar_add, scalar_inv, scalar_mul, sinv, Q};
use crate::group::{
    gmul, in_group, point_inv, point_mul, point_pow, powm, residue_pow, generator_pow, G, P,
};
use crate::dkg::{artifacts_wf, joint_secret, run_key_generation, KeyGenerationArtifacts};
use crate::interp::{points_wf, reconstruct_at_zero, reconstructed};
use crate::polynomial::{peval, poly_model, scalars_wf};
use crate::rng::generate_random_scalar;
use crate::Error;

verus! {

/// How many fresh nonces are tried before a degenerate ceremony is
/// reported instead of retried.
pub const SIGN_RETRIES: u64 = 16;

/// An ECDSA-style signature: the `(r, s)` scalar pair and the recovery bit
/// that says which group element `r` stands for.
#[derive(Clone, Copy, Debug, PartialEq, Eq, Structural)]
pub struct Signature {
    /// The nonce public value reduced into the scalar field; never zero.
    pub signature_r: u64,
    /// `nonce^-1 * (z + r * key)`; never zero.
    pub signature_s: u64,
    /// Whether the nonce public value was at least `Q`.
    pub recovery_id: bool,
}

/// The signature equations against key `d`, reduced hash `z` and nonce `k`.
pub open spec fn sig_valid(d: int, z: int, sig: Signature, k: int) -> bool {
    &&& 0 < k < Q
    &&& sig.signature_r as int == powm(G as int, k as nat) % (Q as int)
    &&& sig.signature_r != 0
    &&& sig.signature_s as int == mmul(sinv(k), madd(z, mmul(sig.signature_r as int, d)))
    &&& sig.signature_s != 0
    &&& sig.recovery_id == (powm(G as int, k as nat) >= Q)
}

/// The signature satisfies the equations for some nonce.
pub open spec fn sig_valid_for(d: int, z: int, sig: Signature) -> bool {
    exists|k: int| #[trigger] sig_valid(d, z, sig, k)
}

/// A nonce is degenerate against a key and reduced hash exactly when one
/// of the signature components it determines reduces to zero.  This is a
/// deterministic function of `(d, k, z)`: whether an attempt with that
/// nonce must be discarded is decided before any randomness is drawn.
pub open spec fn nonce_degenerate(d: int, k: int, z: int) -> bool {
    let rr = powm(G as int, k as nat) % (Q as int);
    ||| rr == 0
    ||| mmul(sinv(k), madd(z, mmul(rr, d))) == 0
}

/// What standard single-party verification computes.
pub open spec fn spec_verify(public_key: int, sig: Signature, z: int) -> bool {
    let w = sinv(sig.signature_s as int);
    let u1 = mmul(z, w);
    let u2 = mmul(sig.signature_r as int, w);
    let rp = gmul(powm(G as int, u1 as nat), powm(public_key, u2 as nat));
    &&& 0 < sig.signature_r < Q
    &&& 0 < sig.signature_s < Q
    &&& rp != 1
    &&& rp % (Q as int) == sig.signature_r
}

/// Any signature satisfying the signing equations verifies against the
/// public key of its signing key: `verify(G^d, sign(...), z)` holds.
pub proof fn lemma_verify_signed(d: int, z: int, sig: Signature)
    requires
        0 < d < Q,
        0 <= z < Q,
        sig_valid_for(d, z, sig),
    ensures
        spec_verify(powm(G as int, d as nat), sig, z),
{
    let k = choose|k: int| #[trigger] sig_valid(d, z, sig, k);
    let r = sig.signature_r as int;
    let s = sig.signature_s as int;
    let x = madd(z, mmul(r, d));
    crate::arith::lemma_sinv_works(k);
    assert(0 < s < Q);
    assert(0 < r < Q);
    let w = sinv(s);
    crate::arith::lemma_sinv_works(s);
    // s * k == z + r*d (mod Q)
    assert(mmul(s, k) == x) by {
        crate::arith::lemma_mmul_assoc(sinv(k), x, k);
        crate::arith::lemma_mmul_swap(sinv(k), x, k);
        assert(mmul(sinv(k), k) == 1) by {
            assert(sinv(k) * k == k * sinv(k)) by (nonlinear_arith);
        }
        assert(mmul(x, 1) == x) by {
            vstd::arithmetic::div_mod::lemma_small_mod(x as nat, Q as nat);
        }
    }
    let u1 = mmul(z, w);
    let u2 = mmul(r, w);
    // u1 + d*u2 == k (mod Q)
    assert(madd(u1, mmul(d, u2)) == k) by {
        assert(mmul(d, u2) == mmul(w, mmul(r, d))) by {
            crate::arith::lemma_mmul_assoc(d, r, w);
            assert(mmul(d, r) * w == w * mmul(d, r)) by (nonlinear_arith);
            assert(d * r == r * d) by (nonlinear_arith);
        }
        assert(u1 == mmul(w, z)) by {
            assert(z * w == w * z) by (nonlinear_arith);
        }
        crate::arith::lemma_mmul_madd_dist(w, z, mmul(r, d));
        assert(madd(u1, mmul(d, u2)) == mmul(w, x));
        assert(mmul(w, x) == mmul(w, mmul(s, k)));
        crate::arith::lemma_mmul_assoc(w, s, k);
        assert(mmul(w, s) == 1) by {
            assert(w * s == s * w) by (nonlinear_arith);
        }
        assert(mmul(1, k) == k) by {
            vstd::arithmetic::div_mod::lemma_small_mod(k as nat, Q as nat);
        }
    }
    // The recomputed point is G^(u1 + d*u2) == G^k, whose residue is r;
    // the nonce is nonzero, so the point is not the identity.
    crate::group::lemma_g_in_group();
    crate::group::lemma_powm_mmul(G as int, d, u2);
    crate::group::lemma_powm_madd(G as int, u1, mmul(d, u2));
    assert(gmul(powm(G as int, u1 as nat), powm(powm(G as int, d as nat), u2 as nat)) == powm(
        G as int,
        k as nat,
    ));
    assert(powm(G as int, 0) == 1) by {
        vstd::arithmetic::power::lemma_pow0(G as int);
        vstd::arithmetic::div_mod::lemma_small_mod(1nat, P as nat);
    }
    crate::group::lemma_generator_injective(0, k);
}

/// Standard single-party ECDSA-style verification against the joint public
/// key; no multi-party component.
pub fn verify(public_key: u64, signature: Signature, message_hash: u64) -> (r: bool)
    requires
        in_group(public_key),
    ensures
        r == spec_verify(public_key as int, signature, (message_hash % Q) as int),
{
    let z = message_hash % Q;
    if signature.signature_r == 0 || signature.signature_r >= Q || signature.signature_s == 0
        || signature.signature_s >= Q {
        return false;
    }
    let w = scalar_inv(signature.signature_s);
    let u1 = scalar_mul(z, w);
    let u2 = scalar_mul(signature.signature_r, w);
    let rp = point_mul(generator_pow(u1), point_pow(public_key, u2));
    rp != 1 && rp % Q == signature.signature_r
}

/// Copy a scalar vector.
fn copy_scalars(v: &Vec<u64>) -> (r: Vec<u64>)
    ensures
        r@ == v@,
{
    let mut r: Vec<u64> = Vec::new();
    let mut i: usize = 0;
    while i < v.len()
        invariant
            i <= v@.len(),
            r@ == v@.subrange(0, i as int),
        decreases v@.len() - i,
    {
        let x = v[i];
        r.push(x);
        proof {
            assert(r@ =~= v@.subrange(0, i + 1));
        }
        i = i + 1;
    }
    proof {
        assert(r@ =~= v@);
    }
    r
}

/// The first `m` entries of a vector.
fn take_prefix(v: &Vec<u64>, m: usize) -> (r: Vec<u64>)
    requires
        m <= v@.len(),
    ensures
        r@ == v@.subrange(0, m as int),
{
    let mut r: Vec<u64> = Vec::new();
    let mut i: usize = 0;
    while i < m
        invariant
            m <= v@.len(),
            i <= m,
            r@ == v@.subrange(0, i as int),
        decreases m - i,
    {
        let x = v[i];
        r.push(x);
        proof {
            assert(r@ =~= v@.subrange(0, i + 1));
        }
        i = i + 1;
    }
    r
}

/// A prefix of a distinct nonzero point set is itself one.
proof fn lemma_points_wf_prefix(xs: Seq<int>, m: int)
    requires
        points_wf(xs),
        0 <= m <= xs.len(),
    ensures
        points_wf(xs.subrange(0, m)),
{
    let p = xs.subrange(0, m);
    assert forall|i: int| 0 <= i < p.len() implies 0 < #[trigger] p[i] < Q by {
        assert(p[i] == xs[i]);
    }
}

/// One signing attempt with a fixed nonce; `Err(DegenerateSignature)` asks
/// the caller to redraw the nonce.
fn sign_attempt(
    t: usize,
    n: usize,
    ids: &Vec<u64>,
    key_artifacts: &KeyGenerationArtifacts,
    nonce: u64,
    z: u64,
) -> (r: Result<Signature, Error>)
    requires
        t < Q,
        1 <= n < Q,
        2 * t + 1 <= n,
        0 < nonce < Q,
        z < Q,
        artifacts_wf(*key_artifacts, t as int, n as int),
        ids@ == key_artifacts.id_numbers@,
    ensures
        r is Ok ==> sig_valid(
            joint_secret(*key_artifacts),
            z as int,
            r->Ok_0,
            nonce as int,
        ),
        r is Err ==> r->Err_0 == Error::DegenerateSignature || r->Err_0 == Error::InvalidScalar,
        r is Err && r->Err_0 == Error::DegenerateSignature ==> nonce_degenerate(
            joint_secret(*key_artifacts),
            nonce as int,
            z as int,
        ),
{
    let m = 2 * t + 1;

    // Nonce run: same identifiers, required secret = the nonce.
    let nonce_artifacts = match run_key_generation(t, n, Some(copy_scalars(ids)), Some(nonce)) {
        Ok(a) => a,
        Err(e) => {
            return Err(e);
        },
    };
    let nonce_public = nonce_artifacts.joint_public;
    let signature_r = nonce_public % Q;
    if signature_r == 0 {
        proof {
            // The nonce public value is G^nonce, so its zero residue is
            // the nonce's own degeneracy.
            assert(crate::polynomial::joint_free_term(
                crate::polynomial::polys_model(nonce_artifacts.polynoms1@),
            ) == nonce as int);
        }
        return Err(Error::DegenerateSignature);
    }

    // Reciprocal sub-protocol: share a fresh blinding value over the same
    // identifiers, reveal only the product `nonce * blinding`.
    let blinding = match generate_random_scalar() {
        Ok(b) => b,
        Err(e) => {
            return Err(e);
        },
    };
    let b_artifacts = match run_key_generation(t, n, Some(copy_scalars(ids)), Some(blinding)) {
        Ok(a) => a,
        Err(e) => {
            return Err(e);
        },
    };

    let ids_m = take_prefix(ids, m);
    proof {
        lemma_points_wf_prefix(poly_model(ids@), m as int);
        assert(poly_model(ids_m@) =~= poly_model(ids@).subrange(0, m as int));
    }

    let mut kb_shares: Vec<u64> = Vec::new();
    let mut i: usize = 0;
    while i < m
        invariant
            m <= n,
            artifacts_wf(*key_artifacts, t as int, n as int),
            artifacts_wf(nonce_artifacts, t as int, n as int),
            artifacts_wf(b_artifacts, t as int, n as int),
            i <= m,
            kb_shares@.len() == i,
            scalars_wf(kb_shares@),
            forall|k: int| 0 <= k < i ==> #[trigger] (kb_shares@[k] as int) == mmul(
                nonce_artifacts.secret_shares@[k] as int,
                b_artifacts.secret_shares@[k] as int,
            ),
        decreases m - i,
    {
        let s = scalar_mul(nonce_artifacts.secret_shares[i], b_artifacts.secret_shares[i]);
        kb_shares.push(s);
        i = i + 1;
    }

    // The product of two degree-t sharings is a degree-2t sharing: reveal
    // and reconstruct it in the clear from 2t+1 shares.
    let kb = reconstruct_at_zero(&kb_shares, &ids_m);
    proof {
        // The revealed product of two nonzero secrets cannot vanish in a
        // prime field, so the degenerate branch below is unreachable.
        lemma_kb_value(
            t as int,
            n as int,
            m as int,
            ids@,
            ids_m@,
            nonce_artifacts,
            b_artifacts,
            nonce as int,
            blinding as int,
            poly_model(kb_shares@),
            kb as int,
        );
        crate::arith::lemma_mmul_nonzero(nonce as int, blinding as int);
    }
    if kb == 0 {
        return Err(Error::DegenerateSignature);
    }
    let kb_inv = scalar_inv(kb);

    // Each participant's share of the inverted nonce, then of key/nonce
    // product, then of the signature.
    let mut s_shares: Vec<u64> = Vec::new();
    let mut i: usize = 0;
    while i < m
        invariant
            m <= n,
            z < Q,
            is_scalar(signature_r),
            is_scalar(kb_inv),
            artifacts_wf(*key_artifacts, t as int, n as int),
            artifacts_wf(b_artifacts, t as int, n as int),
            i <= m,
            s_shares@.len() == i,
            scalars_wf(s_shares@),
            forall|k: int| 0 <= k < i ==> #[trigger] (s_shares@[k] as int) == madd(
                mmul(mmul(b_artifacts.secret_shares@[k] as int, kb_inv as int), z as int),
                mmul(
                    mmul(
                        key_artifacts.secret_shares@[k] as int,
                        mmul(b_artifacts.secret_shares@[k] as int, kb_inv as int),
                    ),
                    signature_r as int,
                ),
            ),
        decreases m - i,
    {
        let nonce_inv_share = scalar_mul(b_artifacts.secret_shares[i], kb_inv);
        let mul_share = scalar_mul(key_artifacts.secret_shares[i], nonce_inv_share);
        let s_share = scalar_add(scalar_mul(nonce_inv_share, z), scalar_mul(mul_share, signature_r));
        s_shares.push(s_share);
        i = i + 1;
    }

    let signature_s = reconstruct_at_zero(&s_shares, &ids_m);
    if signature_s == 0 {
        proof {
            // The would-be signature satisfies the s-equation, so its zero
            // value is determined by (key, nonce, hash) alone.
            let sig0 = Signature { signature_r, signature_s, recovery_id: nonce_public >= Q };
            lemma_sign_attempt_equations(
                t as int,
                n as int,
                m as int,
                ids@,
                ids_m@,
                *key_artifacts,
                nonce_artifacts,
                b_artifacts,
                nonce as int,
                blinding as int,
                z as int,
                kb as int,
                kb_inv as int,
                poly_model(kb_shares@),
                poly_model(s_shares@),
                sig0,
            );
        }
        return Err(Error::DegenerateSignature);
    }
    let sig = Signature { signature_r, signature_s, recovery_id: nonce_public >= Q };
    proof {
        lemma_sign_attempt_equations(
            t as int,
            n as int,
            m as int,
            ids@,
            ids_m@,
            *key_artifacts,
            nonce_artifacts,
            b_artifacts,
            nonce as int,
            blinding as int,
            z as int,
            kb as int,
            kb_inv as int,
            poly_model(kb_shares@),
            poly_model(s_shares@),
            sig,
        );
    }
    Ok(sig)
}

/// The revealed reciprocal product is exactly `nonce * blinding`: the
/// pointwise product of two degree-`t` sharings is a degree-`2t` sharing,
/// so `2t + 1` shares reconstruct its free term.
proof fn lemma_kb_value(
    t: int,
    n: int,
    m: int,
    ids: Seq<u64>,
    ids_m: Seq<u64>,
    nonce_artifacts: KeyGenerationArtifacts,
    b_artifacts: KeyGenerationArtifacts,
    nonce: int,
    blinding: int,
    kbvals: Seq<int>,
    kb: int,
)
    requires
        0 <= t < Q,
        m == 2 * t + 1,
        m <= n,
        artifacts_wf(nonce_artifacts, t, n),
        artifacts_wf(b_artifacts, t, n),
        nonce_artifacts.id_numbers@ == ids,
        b_artifacts.id_numbers@ == ids,
        joint_secret(nonce_artifacts) == nonce,
        joint_secret(b_artifacts) == blinding,
        ids_m == ids.subrange(0, m),
        kbvals.len() == m,
        forall|k: int| 0 <= k < m ==> #[trigger] kbvals[k] == crate::arith::mmul(
            nonce_artifacts.secret_shares@[k] as int,
            b_artifacts.secret_shares@[k] as int,
        ),
        kb == crate::interp::reconstructed(kbvals, poly_model(ids_m)),
    ensures
        kb == mmul(nonce, blinding),
{
    let ids_model = poly_model(ids);
    let xs = poly_model(ids_m);
    assert(xs =~= ids_model.subrange(0, m));
    let p1k = crate::polynomial::polys_model(nonce_artifacts.polynoms1@);
    let p1b = crate::polynomial::polys_model(b_artifacts.polynoms1@);
    let fk = crate::dkg::sum_poly_from(p1k, 0);
    let fb = crate::dkg::sum_poly_from(p1b, 0);
    assert(forall|i: int| 0 <= i < p1k.len() ==> #[trigger] p1k[i].len() == t + 1) by {
        assert(forall|i: int|
            0 <= i < n ==> p1k[i] == poly_model(#[trigger] nonce_artifacts.polynoms1@[i]@));
    }
    assert(forall|i: int| 0 <= i < p1b.len() ==> #[trigger] p1b[i].len() == t + 1) by {
        assert(forall|i: int|
            0 <= i < n ==> p1b[i] == poly_model(#[trigger] b_artifacts.polynoms1@[i]@));
    }
    crate::dkg::lemma_sum_poly_shape(p1k, t, 0);
    crate::dkg::lemma_sum_poly_shape(p1b, t, 0);
    assert(forall|i: int| 0 <= i < p1k.len() ==> #[trigger] p1k[i].len() >= 1);
    assert(forall|i: int| 0 <= i < p1b.len() ==> #[trigger] p1b[i].len() >= 1);
    crate::dkg::lemma_sum_poly_free_term(p1k, 0);
    crate::dkg::lemma_sum_poly_free_term(p1b, 0);
    assert(fk[0] == nonce);
    assert(fb[0] == blinding);
    assert(crate::interp::points_wf(xs)) by {
        assert(forall|i: int| 0 <= i < xs.len() ==> #[trigger] xs[i] == ids_model[i]);
    }
    let fkb = crate::interp::pmulpoly(fk, fb);
    crate::interp::lemma_pmulpoly_shape(fk, fb);
    assert(fkb.len() == 2 * t + 1);
    assert forall|i: int| 0 <= i < m implies #[trigger] kbvals[i] == crate::polynomial::peval(
        fkb,
        xs[i],
    ) by {
        crate::interp::lemma_peval_pmulpoly(fk, fb, xs[i]);
        assert(nonce_artifacts.secret_shares@[i] as int == crate::polynomial::peval(
            fk,
            ids_model[i],
        ));
        assert(b_artifacts.secret_shares@[i] as int == crate::polynomial::peval(
            fb,
            ids_model[i],
        ));
        assert(xs[i] == ids_model[i]);
    }
    crate::interp::lemma_interpolation(fkb, xs, kbvals);
}

/// The algebra of one signing attempt: given the recorded share equations,
/// the reconstructed values satisfy the signature equations for the nonce
/// actually used.
#[verifier::rlimit(60)]
proof fn lemma_sign_attempt_equations(
    t: int,
    n: int,
    m: int,
    ids: Seq<u64>,
    ids_m: Seq<u64>,
    key_artifacts: KeyGenerationArtifacts,
    nonce_artifacts: KeyGenerationArtifacts,
    b_artifacts: KeyGenerationArtifacts,
    nonce: int,
    blinding: int,
    z: int,
    kb: int,
    kb_inv: int,
    kbvals: Seq<int>,
    svals: Seq<int>,
    sig: Signature,
)
    requires
        0 <= t < Q,
        m == 2 * t + 1,
        m <= n,
        0 <= z < Q,
        0 < nonce < Q,
        0 < blinding < Q,
        artifacts_wf(key_artifacts, t, n),
        artifacts_wf(nonce_artifacts, t, n),
        artifacts_wf(b_artifacts, t, n),
        key_artifacts.id_numbers@ == ids,
        nonce_artifacts.id_numbers@ == ids,
        b_artifacts.id_numbers@ == ids,
        joint_secret(nonce_artifacts) == nonce,
        joint_secret(b_artifacts) == blinding,
        ids_m == ids.subrange(0, m),
        kbvals.len() == m,
        forall|k: int| 0 <= k < m ==> #[trigger] kbvals[k] == crate::arith::mmul(
            nonce_artifacts.secret_shares@[k] as int,
            b_artifacts.secret_shares@[k] as int,
        ),
        kb == crate::interp::reconstructed(kbvals, poly_model(ids_m)),
        kb != 0,
        0 <= kb < Q,
        0 <= kb_inv < Q,
        crate::arith::mmul(kb, kb_inv) == 1,
        svals.len() == m,
        forall|k: int| 0 <= k < m ==> #[trigger] svals[k] == madd(
            mmul(mmul(b_artifacts.secret_shares@[k] as int, kb_inv), z),
            mmul(
                mmul(
                    key_artifacts.secret_shares@[k] as int,
                    mmul(b_artifacts.secret_shares@[k] as int, kb_inv),
                ),
                sig.signature_r as int,
            ),
        ),
        sig.signature_s as int == crate::interp::reconstructed(svals, poly_model(ids_m)),
        sig.signature_r as int == (nonce_artifacts.joint_public as int) % (Q as int),
        sig.recovery_id == (nonce_artifacts.joint_public >= Q),
    ensures
        sig.signature_r as int == powm(G as int, nonce as nat) % (Q as int),
        sig.signature_s as int == mmul(
            sinv(nonce),
            madd(z, mmul(sig.signature_r as int, joint_secret(key_artifacts))),
        ),
        sig.recovery_id == (powm(G as int, nonce as nat) >= Q),
{
    let qi = Q as int;
    let ids_model = poly_model(ids);
    let xs = poly_model(ids_m);
    assert(xs =~= ids_model.subrange(0, m));
    let p1k = crate::polynomial::polys_model(nonce_artifacts.polynoms1@);
    let p1b = crate::polynomial::polys_model(b_artifacts.polynoms1@);
    let p1d = crate::polynomial::polys_model(key_artifacts.polynoms1@);
    let fk = crate::dkg::sum_poly_from(p1k, 0);
    let fb = crate::dkg::sum_poly_from(p1b, 0);
    let fd = crate::dkg::sum_poly_from(p1d, 0);
    let d = joint_secret(key_artifacts);
    let rr = sig.signature_r as int;

    // Shapes of the three joint polynomials.
    assert(forall|i: int| 0 <= i < p1k.len() ==> #[trigger] p1k[i].len() == t + 1) by {
        assert(forall|i: int|
            0 <= i < n ==> p1k[i] == poly_model(#[trigger] nonce_artifacts.polynoms1@[i]@));
    }
    assert(forall|i: int| 0 <= i < p1b.len() ==> #[trigger] p1b[i].len() == t + 1) by {
        assert(forall|i: int|
            0 <= i < n ==> p1b[i] == poly_model(#[trigger] b_artifacts.polynoms1@[i]@));
    }
    assert(forall|i: int| 0 <= i < p1d.len() ==> #[trigger] p1d[i].len() == t + 1) by {
        assert(forall|i: int|
            0 <= i < n ==> p1d[i] == poly_model(#[trigger] key_artifacts.polynoms1@[i]@));
    }
    crate::dkg::lemma_sum_poly_shape(p1k, t, 0);
    crate::dkg::lemma_sum_poly_shape(p1b, t, 0);
    crate::dkg::lemma_sum_poly_shape(p1d, t, 0);
    assert(forall|i: int| 0 <= i < p1k.len() ==> #[trigger] p1k[i].len() >= 1);
    assert(forall|i: int| 0 <= i < p1b.len() ==> #[trigger] p1b[i].len() >= 1);
    assert(forall|i: int| 0 <= i < p1d.len() ==> #[trigger] p1d[i].len() >= 1);
    crate::dkg::lemma_sum_poly_free_term(p1k, 0);
    crate::dkg::lemma_sum_poly_free_term(p1b, 0);
    crate::dkg::lemma_sum_poly_free_term(p1d, 0);
    assert(fk[0] == nonce);
    assert(fb[0] == blinding);
    assert(fd[0] == d);

    // The prefix of the identifiers is a valid point set.
    assert(crate::interp::points_wf(ids_model));
    assert(crate::interp::points_wf(xs)) by {
        assert(forall|i: int| 0 <= i < xs.len() ==> #[trigger] xs[i] == ids_model[i]);
    }
    assert(xs.len() == m);

    // kb is the free term of the product polynomial: nonce * blinding.
    lemma_kb_value(
        t,
        n,
        m,
        ids,
        ids_m,
        nonce_artifacts,
        b_artifacts,
        nonce,
        blinding,
        kbvals,
        kb,
    );
    assert(kb == mmul(nonce, blinding));

    // The inverse-of-nonce share scale: blinding * kb^-1 == nonce^-1.
    let inv_k = mmul(blinding, kb_inv);
    assert(mmul(nonce, inv_k) == 1) by {
        crate::arith::lemma_mmul_swap(nonce, blinding, kb_inv);
        assert(mmul(nonce, mmul(blinding, kb_inv)) == mmul(blinding, mmul(nonce, kb_inv)));
        crate::arith::lemma_mmul_assoc(blinding, nonce, kb_inv);
        assert(mmul(blinding, nonce) == mmul(nonce, blinding)) by (nonlinear_arith);
        assert(mmul(mmul(nonce, blinding), kb_inv) == 1);
        crate::arith::lemma_mmul_assoc(nonce, blinding, kb_inv);
    }
    crate::arith::lemma_sinv_works(nonce);
    crate::arith::lemma_inv_unique(nonce, inv_k, sinv(nonce));
    assert(inv_k == sinv(nonce));

    // The signature-share polynomial and its free term.
    let fbi = crate::interp::pscale(kb_inv, fb);
    let fmul = crate::interp::pmulpoly(fd, fbi);
    let spoly = crate::interp::padd(
        crate::interp::pscale(z, fbi),
        crate::interp::pscale(rr, fmul),
    );
    assert(fbi.len() == t + 1);
    crate::interp::lemma_pmulpoly_shape(fd, fbi);
    assert(fmul.len() == 2 * t + 1);
    assert(spoly.len() == 2 * t + 1);
    crate::interp::lemma_pwf_padd(crate::interp::pscale(z, fbi), crate::interp::pscale(rr, fmul));
    assert forall|i: int| 0 <= i < m implies #[trigger] svals[i] == crate::polynomial::peval(
        spoly,
        xs[i],
    ) by {
        let x = xs[i];
        let bi = crate::polynomial::peval(fb, x);
        let di = crate::polynomial::peval(fd, x);
        crate::interp::lemma_peval_padd(
            crate::interp::pscale(z, fbi),
            crate::interp::pscale(rr, fmul),
            x,
        );
        crate::interp::lemma_peval_pscale(z, fbi, x);
        crate::interp::lemma_peval_pscale(rr, fmul, x);
        crate::interp::lemma_peval_pscale(kb_inv, fb, x);
        crate::interp::lemma_peval_pmulpoly(fd, fbi, x);
        assert(b_artifacts.secret_shares@[i] as int == crate::polynomial::peval(
            fb,
            ids_model[i],
        ));
        assert(key_artifacts.secret_shares@[i] as int == crate::polynomial::peval(
            fd,
            ids_model[i],
        ));
        assert(x == ids_model[i]);
        assert(crate::polynomial::peval(spoly, x) == madd(
            mmul(z, mmul(kb_inv, bi)),
            mmul(rr, mmul(di, mmul(kb_inv, bi))),
        ));
        assert(mmul(kb_inv, bi) == mmul(bi, kb_inv)) by (nonlinear_arith);
        assert(mmul(z, mmul(bi, kb_inv)) == mmul(mmul(bi, kb_inv), z)) by (nonlinear_arith);
        assert(mmul(rr, mmul(di, mmul(bi, kb_inv))) == mmul(mmul(di, mmul(bi, kb_inv)), rr)) by (
        nonlinear_arith);
    }
    crate::interp::lemma_interpolation(spoly, xs, svals);

    // The free term of the signature-share polynomial is the ECDSA `s`.
    assert(spoly[0] == madd(
        crate::interp::coeff(crate::interp::pscale(z, fbi), 0),
        crate::interp::coeff(crate::interp::pscale(rr, fmul), 0),
    ));
    assert(crate::interp::pscale(z, fbi)[0] == mmul(z, fbi[0]));
    assert(crate::interp::pscale(rr, fmul)[0] == mmul(rr, fmul[0]));
    assert(fbi[0] == mmul(kb_inv, fb[0]));
    assert(fmul[0] == mmul(fd[0], fbi[0]));
    assert(mmul(kb_inv, blinding) == inv_k) by {
        assert(kb_inv * blinding == blinding * kb_inv) by (nonlinear_arith);
    }
    assert(sig.signature_s as int == madd(mmul(z, inv_k), mmul(rr, mmul(d, inv_k))));
    assert(mmul(sinv(nonce), madd(z, mmul(rr, d))) == madd(mmul(z, inv_k), mmul(rr, mmul(d, inv_k))))
        by {
        crate::arith::lemma_mmul_madd_dist(inv_k, z, mmul(rr, d));
        assert(mmul(inv_k, z) == mmul(z, inv_k)) by (nonlinear_arith);
        crate::arith::lemma_mmul_assoc(rr, d, inv_k);
        assert(mmul(inv_k, mmul(rr, d)) == mmul(mmul(rr, d), inv_k)) by (nonlinear_arith);
    }

    // The `r` component comes from the nonce public value.
    assert(nonce_artifacts.joint_public as int == crate::group::powm(
        G as int,
        crate::polynomial::joint_free_term(p1k) as nat,
    ));
    assert(crate::polynomial::joint_free_term(p1k) == nonce);
}

/// Produce a threshold signature over the reduced hash of a message.
///
/// The pre-agreed nonce is used for the first attempt; a degenerate
/// intermediate (`r`, the revealed nonce product, or `s` reducing to zero)
/// discards it and redraws a fresh nonce, so a zero `r` is never emitted.
/// Only an exhausted retry budget surfaces `DegenerateSignature`.
pub fn sign(t: usize, n: usize, joint_secret_value: u64, joint_nonce: u64, message_hash: u64) -> (r:
    Result<Signature, Error>)
    requires
        t < Q,
        1 <= n < Q,
        2 * t + 1 <= n,
        0 < joint_secret_value < Q,
        0 < joint_nonce < Q,
    ensures
        r is Ok ==> sig_valid_for(
            joint_secret_value as int,
            (message_hash % Q) as int,
            r->Ok_0,
        ),
        r is Ok ==> r->Ok_0.signature_r != 0 && r->Ok_0.signature_s != 0,
        r is Err ==> r->Err_0 == Error::DegenerateSignature || r->Err_0 == Error::InvalidScalar,
        r is Err && !nonce_degenerate(
            joint_secret_value as int,
            joint_nonce as int,
            (message_hash % Q) as int,
        ) ==> r->Err_0 == Error::InvalidScalar,
{
    let z = message_hash % Q;

    // Key run: shares of the signing key, fixed identifiers for the ceremony.
    let key_artifacts = match run_key_generation(t, n, None, Some(joint_secret_value)) {
        Ok(a) => a,
        Err(e) => {
            return Err(e);
        },
    };
    let ids = copy_scalars(&key_artifacts.id_numbers);

    let mut nonce = joint_nonce;
    let mut attempt: u64 = 0;
    while attempt < SIGN_RETRIES
        invariant
            t < Q,
            1 <= n < Q,
            2 * t + 1 <= n,
            z == message_hash % Q,
            0 < nonce < Q,
            artifacts_wf(key_artifacts, t as int, n as int),
            ids@ == key_artifacts.id_numbers@,
            joint_secret(key_artifacts) == joint_secret_value,
            attempt == 0 ==> nonce == joint_nonce,
            attempt >= 1 ==> nonce_degenerate(
                joint_secret_value as int,
                joint_nonce as int,
                z as int,
            ),
        decreases SIGN_RETRIES - attempt,
    {
        match sign_attempt(t, n, &ids, &key_artifacts, nonce, z) {
            Ok(sig) => {
                proof {
                    assert(sig_valid(joint_secret_value as int, z as int, sig, nonce as int));
                    assert(sig_valid_for(joint_secret_value as int, z as int, sig));
                }
                return Ok(sig);
            },
            Err(Error::DegenerateSignature) => {
                nonce = match generate_random_scalar() {
                    Ok(s) => s,
                    Err(e) => {
                        return Err(e);
                    },
                };
            },
            Err(e) => {
                return Err(e);
            },
        }
        attempt = attempt + 1;
    }
    Err(Error::DegenerateSignature)
}

/// Fixed-width wire form of a signature: big-endian `r`, big-endian `s`,
/// then the one-byte recovery id.  `s` is emitted exactly as computed; no
/// low-half canonicalization is applied, so a signature round-trips
/// bit-for-bit through this encoding.
pub fn serialize_ecdsa_signature(signature: &Signature) -> (r: Vec<u8>)
    ensures
        r@.len() == 17,
        forall|i: int| 0 <= i < 8 ==> #[trigger] r@[i] == (signature.signature_r >> (
        ((7 - i) * 8) as u64)) as u8,
        forall|i: int| 8 <= i < 16 ==> #[trigger] r@[i] == (signature.signature_s >> (
        ((15 - i) * 8) as u64)) as u8,
        r@[16] == if signature.recovery_id {
            1u8
        } else {
            0u8
        },
{
    let mut out: Vec<u8> = Vec::new();
    let rv = signature.signature_r;
    let sv = signature.signature_s;
    let mut i: usize = 0;
    while i < 8
        invariant
            rv == signature.signature_r,
            i <= 8,
            out@.len() == i,
            forall|k: int| 0 <= k < i ==> #[trigger] out@[k] == (rv >> (((7 - k) * 8) as u64)) as u8,
        decreases 8 - i,
    {
        let shift = (7 - i as u64) * 8;
        out.push((rv >> shift) as u8);
        i = i + 1;
    }
    let mut j: usize = 0;
    while j < 8
        invariant
            rv == signature.signature_r,
            sv == signature.signature_s,
            j <= 8,
            out@.len() == 8 + j,
            forall|k: int| 0 <= k < 8 ==> #[trigger] out@[k] == (rv >> (((7 - k) * 8) as u64)) as u8,
            forall|k: int| 8 <= k < 8 + j ==> #[trigger] out@[k] == (sv >> (
            ((15 - k) * 8) as u64)) as u8,
        decreases 8 - j,
    {
        let shift = (7 - j as u64) * 8;
        out.push((sv >> shift) as u8);
        j = j + 1;
    }
    if signature.recovery_id {
        out.push(1u8);
    } else {
        out.push(0u8);
    }
    out
}

/// The two key-generation runs of one signing ceremony must interpolate
/// against the same points: differing identifier sets are a fatal
/// configuration error, never retried.
pub fn require_same_identifiers(a: &Vec<u64>, b: &Vec<u64>) -> (r: Result<(), Error>)
    ensures
        r is Ok <==> a@ == b@,
        r is Err ==> r->Err_0 == Error::IdentifierMismatch,
{
    if a.len() != b.len() {
        proof {
            assert(a@.len() != b@.len());
        }
        return Err(Error::IdentifierMismatch);
    }
    let mut i: usize = 0;
    while i < a.len()
        invariant
            a@.len() == b@.len(),
            i <= a@.len(),
            forall|k: int| 0 <= k < i ==> a@[k] == b@[k],
        decreases a@.len() - i,
    {
        if a[i] != b[i] {
            return Err(Error::IdentifierMismatch);
        }
        i = i + 1;
    }
    proof {
        assert(a@ =~= b@);
    }
    Ok(())
}

/// Check that a value is an element of the order-`Q` subgroup.
pub fn is_group_element(y: u64) -> (r: bool)
    ensures
        r == in_group(y),
{
    if y == 0 || y >= P {
        return false;
    }
    let yq = residue_pow(y, Q);
    yq == 1
}

/// What public-key recovery computes: `(R^s / G^z)^(1/r)` for the group
/// element `R` selected by the recovery bit.
pub open spec fn spec_recover(sig: Signature, z: int) -> int {
    let rr = if sig.recovery_id {
        sig.signature_r + Q
    } else {
        sig.signature_r as int
    };
    powm(
        gmul(
            powm(rr, sig.signature_s as nat),
            powm(powm(G as int, z as nat), (Q - 1) as nat),
        ),
        sinv(sig.signature_r as int) as nat,
    )
}

/// Recovery inverts signing: for any signature satisfying the signing
/// equations, the recovered element is the signing key's public value
/// `G^d`.
pub proof fn lemma_recover_of_valid(d: int, z: int, sig: Signature)
    requires
        0 < d < Q,
        0 <= z < Q,
        sig_valid_for(d, z, sig),
    ensures
        spec_recover(sig, z) == powm(G as int, d as nat),
        0 < sig.signature_r < Q,
        0 < sig.signature_s < Q,
        crate::group::grp(
            if sig.recovery_id {
                sig.signature_r + Q
            } else {
                sig.signature_r as int
            },
        ),
{
    let qi = Q as int;
    let k = choose|k: int| #[trigger] sig_valid(d, z, sig, k);
    let big_r = powm(G as int, k as nat);
    let r = sig.signature_r as int;
    let s = sig.signature_s as int;
    let x = madd(z, mmul(r, d));
    crate::arith::lemma_sinv_works(k);
    crate::arith::lemma_sinv_works(r);
    crate::group::lemma_g_in_group();
    crate::group::lemma_powm_pos(G as int, k as nat);
    crate::group::lemma_grp_pow(G as int, k as nat);
    // The recovery bit selects exactly the nonce public value.
    let rr = if sig.recovery_id {
        r + Q
    } else {
        r
    };
    assert(rr == big_r) by {
        if big_r < Q {
            vstd::arithmetic::div_mod::lemma_small_mod(big_r as nat, Q as nat);
        } else {
            vstd::arithmetic::div_mod::lemma_mod_sub_multiples_vanish(big_r, qi);
            assert((big_r - qi) % qi == big_r % qi);
            if big_r == 2 * qi {
                vstd::arithmetic::div_mod::lemma_mod_multiples_basic(2, qi);
                assert(big_r % qi == 0);
                assert(false);
            }
            vstd::arithmetic::div_mod::lemma_small_mod((big_r - qi) as nat, Q as nat);
        }
    }
    // R^s == G^(z + r*d), since s*k == z + r*d.
    assert(mmul(k, s) == x) by {
        crate::arith::lemma_mmul_assoc(sinv(k), x, k);
        crate::arith::lemma_mmul_swap(sinv(k), x, k);
        assert(mmul(sinv(k), k) == 1) by {
            assert(sinv(k) * k == k * sinv(k)) by (nonlinear_arith);
        }
        assert(mmul(x, 1) == x) by {
            vstd::arithmetic::div_mod::lemma_small_mod(x as nat, Q as nat);
        }
        assert(k * s == s * k) by (nonlinear_arith);
    }
    crate::group::lemma_powm_mmul(G as int, k, s);
    assert(powm(big_r, s as nat) == powm(G as int, x as nat));
    // Dividing by G^z leaves G^(r*d).
    crate::group::lemma_powm_mmul(G as int, z, (Q - 1) as int);
    crate::group::lemma_powm_madd(G as int, x, mmul(z, (Q - 1) as int));
    assert(madd(x, mmul(z, (Q - 1) as int)) == mmul(r, d)) by {
        vstd::arithmetic::div_mod::lemma_add_mod_noop(z + mmul(r, d), z * (qi - 1), qi);
        assert((z + mmul(r, d)) + z * (qi - 1) == qi * z + mmul(r, d)) by (nonlinear_arith);
        vstd::arithmetic::div_mod::lemma_mod_multiples_vanish(z, mmul(r, d), qi);
        vstd::arithmetic::div_mod::lemma_mod_twice(r * d, qi);
    }
    // Raising to r^-1 cancels r in the exponent.
    crate::group::lemma_powm_mmul(G as int, mmul(r, d), sinv(r));
    assert(mmul(mmul(r, d), sinv(r)) == d) by {
        crate::arith::lemma_mmul_assoc(r, d, sinv(r));
        assert(mmul(r, d) * sinv(r) == sinv(r) * mmul(r, d)) by (nonlinear_arith);
        crate::arith::lemma_mmul_swap(r, d, sinv(r));
        assert(mmul(r, mmul(d, sinv(r))) == mmul(d, mmul(r, sinv(r))));
        assert(mmul(r, sinv(r)) == 1);
        assert(mmul(d, 1) == d) by {
            vstd::arithmetic::div_mod::lemma_small_mod(d as nat, Q as nat);
        }
        assert(mmul(mmul(r, d), sinv(r)) == mmul(r, mmul(d, sinv(r)))) by {
            crate::arith::lemma_mmul_assoc(r, d, sinv(r));
        }
    }
}

/// Recover the public key a signature verifies against.  Fails on malformed
/// `r` or `s`, or when the recovery bit selects a value outside the group.
pub fn recover(signature: Signature, message_hash: u64) -> (r: Result<u64, Error>)
    ensures
        r is Ok <==> (0 < signature.signature_r < Q && 0 < signature.signature_s < Q
            && crate::group::grp(
            if signature.recovery_id {
                signature.signature_r + Q
            } else {
                signature.signature_r as int
            },
        )),
        r is Ok ==> in_group(r->Ok_0) && r->Ok_0 as int == spec_recover(
            signature,
            (message_hash % Q) as int,
        ),
        r is Err ==> r->Err_0 == Error::InvalidScalar,
{
    let z = message_hash % Q;
    if signature.signature_r == 0 || signature.signature_r >= Q || signature.signature_s == 0
        || signature.signature_s >= Q {
        return Err(Error::InvalidScalar);
    }
    let big_r = if signature.recovery_id {
        signature.signature_r + Q
    } else {
        signature.signature_r
    };
    if !is_group_element(big_r) {
        return Err(Error::InvalidScalar);
    }
    let rs = point_pow(big_r, signature.signature_s);
    let gz = generator_pow(z);
    let gz_inv = point_inv(gz);
    let numerator = point_mul(rs, gz_inv);
    let r_inv = scalar_inv(signature.signature_r);
    let q_rec = point_pow(numerator, r_inv);
    Ok(q_rec)
}

} // verus!
