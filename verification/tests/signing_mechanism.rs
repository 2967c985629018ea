//! Which mechanism and digest a key signs with.

use pulpit_render::sign::{
    load_pkcs12, select_mechanism, DigestAlgorithm, PublicKeyInfo, SigningError, SigningMechanism,
    SigningProfile,
};

#[test]
fn test_rsa_2048_default_digest() {
    let digest = DigestAlgorithm::select_for_rsa_bits(2048).unwrap();
    assert_eq!(digest, DigestAlgorithm::Sha256);
}

#[test]
fn test_rsa_3072_default_digest() {
    let digest = DigestAlgorithm::select_for_rsa_bits(3072).unwrap();
    assert_eq!(digest, DigestAlgorithm::Sha384);
}

#[test]
fn test_rsa_4096_default_digest() {
    let digest = DigestAlgorithm::select_for_rsa_bits(4096).unwrap();
    assert_eq!(digest, DigestAlgorithm::Sha512);
}

#[test]
fn test_ec_p256_default_digest() {
    let digest = DigestAlgorithm::select_for_ec_bits(256).unwrap();
    assert_eq!(digest, DigestAlgorithm::Sha256);
}

#[test]
fn test_ec_p384_default_digest() {
    let digest = DigestAlgorithm::select_for_ec_bits(384).unwrap();
    assert_eq!(digest, DigestAlgorithm::Sha384);
}

#[test]
fn test_ec_p521_default_digest() {
    let digest = DigestAlgorithm::select_for_ec_bits(521).unwrap();
    assert_eq!(digest, DigestAlgorithm::Sha512);
}

#[test]
fn test_mechanism_rsa_2048() {
    let key_info = PublicKeyInfo::Rsa { bits: 2048 };
    let mech = select_mechanism(&key_info, None).unwrap();
    assert_eq!(mech, SigningMechanism::Rsa2048Sha256);
}

#[test]
fn test_mechanism_ed25519_sha512_required() {
    let key_info = PublicKeyInfo::Ed25519;
    let mech = select_mechanism(&key_info, Some(DigestAlgorithm::Sha512)).unwrap();
    assert_eq!(mech, SigningMechanism::Ed25519);
}

#[test]
fn test_mechanism_ed25519_wrong_digest() {
    let key_info = PublicKeyInfo::Ed25519;
    let result = select_mechanism(&key_info, Some(DigestAlgorithm::Sha256));
    assert!(result.is_err());
}

#[test]
fn test_signature_lengths() {
    assert_eq!(SigningMechanism::Rsa2048Sha256.signature_length(), 256);
    assert_eq!(SigningMechanism::Rsa3072Sha384.signature_length(), 384);
    assert_eq!(SigningMechanism::Rsa4096Sha512.signature_length(), 512);
    assert_eq!(SigningMechanism::Ed25519.signature_length(), 64);
}

#[test]
fn test_rsa_2048_sha256_selection() {
    let digest = DigestAlgorithm::select_for_rsa_bits(2048).unwrap();
    assert_eq!(digest, DigestAlgorithm::Sha256);
}

#[test]
fn test_rsa_2000_sha256_selection() {
    let digest = DigestAlgorithm::select_for_rsa_bits(2000).unwrap();
    assert_eq!(digest, DigestAlgorithm::Sha256);
}

#[test]
fn test_rsa_3072_sha384_selection() {
    let digest = DigestAlgorithm::select_for_rsa_bits(3072).unwrap();
    assert_eq!(digest, DigestAlgorithm::Sha384);
}

#[test]
fn test_rsa_2049_sha384_selection() {
    let digest = DigestAlgorithm::select_for_rsa_bits(2049).unwrap();
    assert_eq!(digest, DigestAlgorithm::Sha384);
}

#[test]
fn test_rsa_4096_sha512_selection() {
    let digest = DigestAlgorithm::select_for_rsa_bits(4096).unwrap();
    assert_eq!(digest, DigestAlgorithm::Sha512);
}

#[test]
fn test_rsa_3073_sha512_selection() {
    let digest = DigestAlgorithm::select_for_rsa_bits(3073).unwrap();
    assert_eq!(digest, DigestAlgorithm::Sha512);
}

#[test]
fn test_ec_p256_sha256_selection() {
    let digest = DigestAlgorithm::select_for_ec_bits(256).unwrap();
    assert_eq!(digest, DigestAlgorithm::Sha256);
}

#[test]
fn test_ec_p384_sha384_selection() {
    let digest = DigestAlgorithm::select_for_ec_bits(384).unwrap();
    assert_eq!(digest, DigestAlgorithm::Sha384);
}

#[test]
fn test_ec_p521_sha512_selection() {
    let digest = DigestAlgorithm::select_for_ec_bits(521).unwrap();
    assert_eq!(digest, DigestAlgorithm::Sha512);
}

#[test]
fn test_ec_257_sha384_selection() {
    let digest = DigestAlgorithm::select_for_ec_bits(257).unwrap();
    assert_eq!(digest, DigestAlgorithm::Sha384);
}

#[test]
fn test_ed25519_implies_sha512() {
    let key_info = PublicKeyInfo::Ed25519;
    let result = select_mechanism(&key_info, Some(DigestAlgorithm::Sha256));
    assert!(result.is_err());
}

#[test]
fn test_mechanism_rsa_2048_sha256() {
    let key_info = PublicKeyInfo::Rsa { bits: 2048 };
    let mech = select_mechanism(&key_info, None).unwrap();
    assert_eq!(mech, SigningMechanism::Rsa2048Sha256);
}

#[test]
fn test_mechanism_rsa_3072_sha384() {
    let key_info = PublicKeyInfo::Rsa { bits: 3072 };
    let mech = select_mechanism(&key_info, None).unwrap();
    assert_eq!(mech, SigningMechanism::Rsa3072Sha384);
}

#[test]
fn test_mechanism_rsa_4096_sha512() {
    let key_info = PublicKeyInfo::Rsa { bits: 4096 };
    let mech = select_mechanism(&key_info, None).unwrap();
    assert_eq!(mech, SigningMechanism::Rsa4096Sha512);
}

#[test]
fn test_mechanism_ec_p256() {
    let key_info = PublicKeyInfo::EcP256;
    let mech = select_mechanism(&key_info, None).unwrap();
    assert_eq!(mech, SigningMechanism::EcdsaP256Sha256);
}

#[test]
fn test_mechanism_ec_p384() {
    let key_info = PublicKeyInfo::EcP384;
    let mech = select_mechanism(&key_info, None).unwrap();
    assert_eq!(mech, SigningMechanism::EcdsaP384Sha384);
}

#[test]
fn test_mechanism_ec_p521() {
    let key_info = PublicKeyInfo::EcP521;
    let mech = select_mechanism(&key_info, None).unwrap();
    assert_eq!(mech, SigningMechanism::EcdsaP521Sha512);
}

#[test]
fn test_size_estimation_is_even() {
    let test_len = 100;
    let margin = (test_len / 2) & !1;
    let bytes_reserved = test_len + margin;
    assert_eq!(bytes_reserved % 2, 0);
}

#[test]
fn test_digest_algorithm_oid() {
    assert_eq!(DigestAlgorithm::Sha256.oid(), "2.16.840.1.101.3.4.2.1");
    assert_eq!(DigestAlgorithm::Sha384.oid(), "2.16.840.1.101.3.4.2.2");
    assert_eq!(DigestAlgorithm::Sha512.oid(), "2.16.840.1.101.3.4.2.3");
}

#[test]
fn test_digest_algorithm_hash_len() {
    assert_eq!(DigestAlgorithm::Sha256.hash_len(), 32);
    assert_eq!(DigestAlgorithm::Sha384.hash_len(), 48);
    assert_eq!(DigestAlgorithm::Sha512.hash_len(), 64);
}

#[test]
fn test_signing_mechanism_digest() {
    assert_eq!(
        SigningMechanism::Rsa2048Sha256.digest_algorithm(),
        DigestAlgorithm::Sha256
    );
    assert_eq!(
        SigningMechanism::Rsa3072Sha384.digest_algorithm(),
        DigestAlgorithm::Sha384
    );
    assert_eq!(
        SigningMechanism::EcdsaP256Sha256.digest_algorithm(),
        DigestAlgorithm::Sha256
    );
    assert_eq!(
        SigningMechanism::Ed25519.digest_algorithm(),
        DigestAlgorithm::Sha512
    );
}

#[test]
fn test_signing_profile_adobepkcs7() {
    let profile = SigningProfile::AdbePkcs7Detached;
    assert_eq!(profile, SigningProfile::AdbePkcs7Detached);
}

#[test]
fn test_signing_profile_etsi_cades() {
    let profile = SigningProfile::EtsiCadesDetached;
    assert_eq!(profile, SigningProfile::EtsiCadesDetached);
    assert_ne!(profile, SigningProfile::AdbePkcs7Detached);
}

#[test]
fn test_pkcs12_loading_deferred() {
    let result = load_pkcs12(b"dummy", "password");
    assert!(result.is_err());
}

#[test]
fn test_public_key_info_bits() {
    assert_eq!(PublicKeyInfo::Rsa { bits: 2048 }.bits(), Some(2048));
    assert_eq!(PublicKeyInfo::EcP256.bits(), Some(256));
    assert_eq!(PublicKeyInfo::Ed25519.bits(), None);
}

#[test]
fn a_requested_digest_that_the_key_does_not_imply_is_named_in_the_error() {
    let error = select_mechanism(&PublicKeyInfo::Ed25519, Some(DigestAlgorithm::Sha256))
        .expect_err("Ed25519 signs with SHA-512 only");
    assert!(matches!(
        error,
        SigningError::DigestMechanismMismatch { .. }
    ));
}

#[test]
fn key_types_have_names_and_sizes() {
    assert_eq!(PublicKeyInfo::EcP384.bits(), Some(384));
    assert_eq!(PublicKeyInfo::EcP521.bits(), Some(521));
    assert_eq!(
        SigningMechanism::EcdsaP521Sha512.digest_algorithm(),
        DigestAlgorithm::Sha512
    );
}
