use secretstore::arith::{scalar_add, scalar_inv, scalar_mul, Q};
use secretstore::codec::{
    compute_shadow, decrypt_document_key, encrypt_document_key, key_adapter, EncryptedDocumentKey,
};
use secretstore::dkg::{
    generate_document_key, generate_server_key, generate_server_key_share, run_key_generation,
};
use secretstore::group::{generator_pow, point_inv, point_mul, point_pow, G, P};
use secretstore::interp::reconstruct_at_zero;
use secretstore::polynomial::{check_share, prepare_polynomials, verify_share};
use secretstore::rng::generate_random_scalar;
use secretstore::signer::{recover, require_same_identifiers, sign, verify};
use secretstore::Error;

fn fresh_scalar() -> u64 {
    generate_random_scalar().unwrap()
}

fn ids_upto(n: u64) -> Vec<u64> {
    (1..=n).collect()
}

#[test]
fn test_key_generation() {
    let t: usize = 4;
    let n: usize = 5;
    let secret1 = fresh_scalar();
    let ids: Vec<u64> = ids_upto(5);
    let keys = generate_document_key(t, n, Some(ids), Some(secret1)).unwrap();
    assert_eq!(keys.1.len(), n);
    assert_eq!(keys.0, generator_pow(secret1));
    assert_ne!(keys.0, 1);
}

#[test]
fn test_encryption() {
    let secret = fresh_scalar();
    let a = run_key_generation(1, 3, Some(ids_upto(3)), Some(secret)).unwrap();
    let document_key = generator_pow(fresh_scalar());
    let encrypted = encrypt_document_key(document_key, a.joint_public).unwrap();
    // The mask is a nonidentity group element, so the masked point moved.
    assert_ne!(encrypted.masked_point, document_key);
    assert_ne!(encrypted.common_point, 0);
    assert!(encrypted.common_point < P && encrypted.masked_point < P);
}

#[test]
fn test_decryption() {
    let t: usize = 1;
    let secret = fresh_scalar();
    let a = run_key_generation(t, 3, Some(ids_upto(3)), Some(secret)).unwrap();
    let document_key = generator_pow(7);
    let encrypted = encrypt_document_key(document_key, a.joint_public).unwrap();
    let quorum_ids: Vec<u64> = vec![a.id_numbers[0], a.id_numbers[1]];
    let shadows: Vec<u64> = vec![
        compute_shadow(a.secret_shares[0], encrypted.common_point),
        compute_shadow(a.secret_shares[1], encrypted.common_point),
    ];
    let decrypted = decrypt_document_key(t, &shadows, &quorum_ids, encrypted.masked_point).unwrap();
    assert_eq!(decrypted, document_key);
}

#[test]
fn test_sign() {
    let joint_secret = fresh_scalar();
    let joint_nonce = fresh_scalar();
    let message = fresh_scalar();
    let signature = sign(3, 15, joint_secret, joint_nonce, message).unwrap();
    assert_ne!(signature.signature_r, 0);
    assert_ne!(signature.signature_s, 0);
}

#[test]
fn test_verify() {
    let joint_secret = fresh_scalar();
    let joint_nonce = fresh_scalar();
    let message = fresh_scalar();
    let signature = sign(3, 15, joint_secret, joint_nonce, message).unwrap();
    assert!(verify(recover(signature, message).unwrap(), signature, message));
}

#[test]
fn test_elliptic_key_encryption_example() {
    let alice_secret = fresh_scalar();
    let alice_public = generator_pow(alice_secret);
    let bob_secret = fresh_scalar();
    let bob_public = generator_pow(bob_secret);
    let alice_shared_secret = point_pow(bob_public, alice_secret);
    let bob_shared_secret = point_pow(alice_public, bob_secret);
    assert_eq!(alice_shared_secret, bob_shared_secret);
}

#[test]
fn test_prepare_polynomials_free_terms() {
    for (t, n, s0) in [(0usize, 1usize, 17u64), (1, 3, 999), (3, 7, 1)] {
        let ps = prepare_polynomials(t, n, Some(s0)).unwrap();
        assert_eq!(ps.len(), n);
        let mut sum: u64 = 0;
        for p in &ps {
            assert_eq!(p.len(), t + 1);
            sum = (sum + p[0]) % Q;
        }
        assert_eq!(sum, s0 % Q);
    }
}

#[test]
fn test_verify_share_accepts_honest() {
    for (t, n) in [(1usize, 3usize), (2, 5), (3, 7)] {
        let a = run_key_generation(t, n, None, None).unwrap();
        for dealer in 0..n {
            for holder in 0..n {
                assert!(verify_share(
                    t,
                    a.derived_point,
                    a.id_numbers[holder],
                    a.secrets1[dealer][holder],
                    a.secrets2[dealer][holder],
                    &a.publics[dealer],
                ));
            }
        }
    }
}

#[test]
fn test_verify_share_rejects_tampered() {
    for (t, n) in [(1usize, 3usize), (2, 5)] {
        let a = run_key_generation(t, n, None, None).unwrap();
        let honest = a.secrets1[0][1];
        let flipped = honest ^ 1;
        let tampered = if flipped < Q { flipped } else { honest - 1 };
        assert_ne!(tampered, honest);
        assert!(!verify_share(
            t,
            a.derived_point,
            a.id_numbers[1],
            tampered,
            a.secrets2[0][1],
            &a.publics[0],
        ));
        assert_eq!(
            check_share(t, a.derived_point, a.id_numbers[1], tampered, a.secrets2[0][1], &a.publics[0]),
            Err(Error::VerificationFailed)
        );
    }
}

#[test]
fn test_reconstruction_subsets() {
    // Threshold 1, participants {1, 2, 3}: any two shares reconstruct the
    // same joint secret, consistent with the joint public key.
    let secret = fresh_scalar();
    let a = run_key_generation(1, 3, Some(ids_upto(3)), Some(secret)).unwrap();
    let first = reconstruct_at_zero(
        &vec![a.secret_shares[0], a.secret_shares[1]],
        &vec![a.id_numbers[0], a.id_numbers[1]],
    );
    let second = reconstruct_at_zero(
        &vec![a.secret_shares[0], a.secret_shares[2]],
        &vec![a.id_numbers[0], a.id_numbers[2]],
    );
    assert_eq!(first, second);
    assert_eq!(first, secret);
    assert_eq!(generator_pow(first), a.joint_public);
}

#[test]
fn test_joint_public_from_any_quorum() {
    // Larger run: every pair of a (t+1)-subset family reconstructs the
    // joint secret behind the joint public key.
    let a = run_key_generation(2, 5, Some(ids_upto(5)), None).unwrap();
    let mut seen: Option<u64> = None;
    for subset in [[0usize, 1, 2], [0, 2, 4], [1, 3, 4]] {
        let shares: Vec<u64> = subset.iter().map(|&i| a.secret_shares[i]).collect();
        let ids: Vec<u64> = subset.iter().map(|&i| a.id_numbers[i]).collect();
        let rec = reconstruct_at_zero(&shares, &ids);
        assert_eq!(generator_pow(rec), a.joint_public);
        if let Some(prev) = seen {
            assert_eq!(prev, rec);
        }
        seen = Some(rec);
    }
}

#[test]
fn test_degenerate_nonce_redrawn() {
    // G^506 == 1013 (mod 2027), whose scalar residue is zero: the forced
    // nonce must be rejected and redrawn, never emitted as r == 0.
    assert_eq!(generator_pow(506) % Q, 0);
    let signature = sign(1, 3, 10, 506, 99).unwrap();
    assert_ne!(signature.signature_r, 0);
    assert_ne!(signature.signature_s, 0);
}

#[test]
fn test_signature_formula_exact() {
    // With key 10, nonce 20 and hash 100 the first attempt succeeds, so the
    // signature is exactly (r, s) = (4^20 mod 2027 mod 1013, 20^-1 * (100 + r*10)).
    let signature = sign(1, 3, 10, 20, 100).unwrap();
    assert_eq!(signature.signature_r, 627);
    assert_eq!(signature.signature_s, 825);
    assert!(signature.recovery_id);
    assert!(verify(generator_pow(10), signature, 100));
}

#[test]
fn test_hash_bit_flip_fails_verification() {
    let signature = sign(1, 3, 10, 20, 100).unwrap();
    let public_key = generator_pow(10);
    assert!(verify(public_key, signature, 100));
    assert!(!verify(public_key, signature, 100 ^ 1));
}

#[test]
fn test_invalid_identifiers_rejected() {
    // A zero identifier and a duplicated identifier are both refused.
    assert_eq!(
        run_key_generation(1, 3, Some(vec![0, 1, 2]), None).err(),
        Some(Error::InvalidScalar)
    );
    assert_eq!(
        run_key_generation(1, 3, Some(vec![5, 5, 6]), None).err(),
        Some(Error::InvalidScalar)
    );
    assert_eq!(
        generate_server_key(1, 3, Some(vec![7, 7, 8]), None).err(),
        Some(Error::InvalidScalar)
    );
}

#[test]
fn test_unconstrained_key_not_identity() {
    // Even without a required secret, the joint public key is never the
    // group identity.
    for _ in 0..5 {
        let (public, shares) = generate_server_key(1, 3, None, None).unwrap();
        assert_ne!(public, 1);
        assert_eq!(shares.len(), 3);
    }
}

#[test]
fn test_insufficient_shadows_rejected() {
    let t: usize = 2;
    let a = run_key_generation(t, 5, Some(ids_upto(5)), None).unwrap();
    let document_key = generator_pow(3);
    let encrypted = encrypt_document_key(document_key, a.joint_public).unwrap();
    // Only two shadows where the quorum is t + 1 == 3.
    let shadows = vec![
        compute_shadow(a.secret_shares[0], encrypted.common_point),
        compute_shadow(a.secret_shares[1], encrypted.common_point),
    ];
    let ids = vec![a.id_numbers[0], a.id_numbers[1]];
    assert_eq!(
        decrypt_document_key(t, &shadows, &ids, encrypted.masked_point).err(),
        Some(Error::InsufficientParticipants)
    );
}

#[test]
fn test_identifier_mismatch() {
    assert_eq!(
        require_same_identifiers(&vec![1, 2, 3], &vec![1, 2, 4]).err(),
        Some(Error::IdentifierMismatch)
    );
    assert_eq!(
        require_same_identifiers(&vec![1, 2], &vec![1, 2, 3]).err(),
        Some(Error::IdentifierMismatch)
    );
    assert!(require_same_identifiers(&vec![1, 2, 3], &vec![1, 2, 3]).is_ok());
}

#[test]
fn test_recover_malformed_signature() {
    let bad = secretstore::signer::Signature {
        signature_r: 0,
        signature_s: 5,
        recovery_id: false,
    };
    assert_eq!(recover(bad, 1).err(), Some(Error::InvalidScalar));
}

#[test]
fn test_key_adapter_bytes() {
    let key = EncryptedDocumentKey {
        common_point: 1,
        masked_point: 0x01F3,
    };
    assert_eq!(
        key_adapter(&key),
        vec![0, 0, 0, 0, 0, 0, 0x01, 0xF3, 0, 0, 0, 0, 0, 0, 0, 1]
    );
}

#[test]
fn test_signature_wire_format() {
    let signature = secretstore::signer::Signature {
        signature_r: 627,
        signature_s: 825,
        recovery_id: true,
    };
    let wire = secretstore::signer::serialize_ecdsa_signature(&signature);
    assert_eq!(
        wire,
        vec![0, 0, 0, 0, 0, 0, 0x02, 0x73, 0, 0, 0, 0, 0, 0, 0x03, 0x39, 1]
    );
}

#[test]
fn test_scalar_field_values() {
    assert_eq!(scalar_add(500, 600), 87);
    assert_eq!(scalar_mul(100, 100), 10000 % Q);
    assert_eq!(scalar_inv(1), 1);
    let a = 357;
    assert_eq!(scalar_mul(a, scalar_inv(a)), 1);
}

#[test]
fn test_group_values() {
    assert_eq!(G, 4);
    assert_eq!(P, 2027);
    assert_eq!(generator_pow(1), 4);
    assert_eq!(generator_pow(2), 16);
    assert_eq!(generator_pow(5), 1024);
    assert_eq!(point_mul(4, 4), 16);
    assert_eq!(point_mul(point_inv(16), 16), 1);
}

#[test]
fn test_generate_server_key_share() {
    let secret = fresh_scalar();
    let (public, share) = generate_server_key_share(1, 3, Some(ids_upto(3)), Some(secret), 1)
        .unwrap();
    assert_eq!(public, generator_pow(secret));
    assert!(share < Q);
}

#[test]
fn test_generate_server_key_matches_required() {
    let (public, shares) = generate_server_key(2, 5, None, Some(5)).unwrap();
    assert_eq!(public, 1024);
    assert_eq!(shares.len(), 5);
}
