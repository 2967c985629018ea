//! Credentials, and a document signed with one.

use pulpit_render::sign::apply::{refuse_in_place, report, temporary_name};
use pulpit_render::sign::cms_builder::{
    build_cms, build_signed_attributes, estimate_cms_size, signed_attrs_tbs, SigningProfile,
};
use pulpit_render::sign::document::read_layout;
use pulpit_render::sign::generate::{
    check_identity, generate_self_signed_pkcs12, positive_serial, subject_name,
    CredentialGenerationError, NewCredentialIdentity,
};
use pulpit_render::sign::plan::{plan_revision, PreflightOk};
use pulpit_render::sign::refusal::{PreflightRefusal, SignApplyError};
use pulpit_render::sign::request::{SignRequest, SignTarget};
use pulpit_render::sign::revision::sign_document;
use pulpit_render::sign::{
    digest_algorithm_for, load_pkcs12, Credential, DigestAlgorithm, PublicKeyInfo, SigningError,
};
use sha2::Digest;

/// A second in nanoseconds.
const SECOND: i128 = 1_000_000_000;

fn identity(name: &str) -> NewCredentialIdentity {
    NewCredentialIdentity {
        common_name: name.to_string(),
        organization: Some("Pulpit & Co".to_string()),
        email: Some("signer@example.test".to_string()),
        not_before: 1_700_000_000 * SECOND,
        not_after: 1_900_000_000 * SECOND,
    }
}

const PASSPHRASE: &str = "correct horse battery staple";

fn credential() -> Credential {
    let generated =
        generate_self_signed_pkcs12(&identity("Ada Lovelace"), PASSPHRASE).expect("generate");
    load_pkcs12(&generated.bytes, PASSPHRASE).expect("reload")
}

#[test]
fn generated_container_round_trips_through_the_production_loader() {
    let generated = generate_self_signed_pkcs12(&identity("Ada Lovelace"), PASSPHRASE)
        .expect("generate credential");

    assert!(
        generated.summary.subject.contains("Ada Lovelace"),
        "subject was {:?}",
        generated.summary.subject
    );
    assert_eq!(generated.summary.key_algorithm, "EC P-256");
    let loaded = load_pkcs12(&generated.bytes, PASSPHRASE).expect("reload generated PKCS#12");
    assert_eq!(
        loaded.summary().expect("summary").sha256_fingerprint,
        generated.summary.sha256_fingerprint
    );
}

#[test]
fn distinguished_name_metacharacters_are_data_not_structure() {
    let generated = generate_self_signed_pkcs12(
        &identity("Lovelace, Ada + Byron"),
        "a sufficiently long passphrase",
    )
    .expect("generate credential");
    assert!(generated.summary.subject.contains("Lovelace"));
    assert!(generated.summary.subject.contains("Ada"));
}

#[test]
fn empty_name_and_backwards_validity_are_refused() {
    assert!(matches!(
        generate_self_signed_pkcs12(&identity("  "), "passphrase"),
        Err(CredentialGenerationError::MissingCommonName)
    ));
    let mut invalid = identity("Ada");
    invalid.not_after = invalid.not_before;
    assert!(matches!(
        generate_self_signed_pkcs12(&invalid, "passphrase"),
        Err(CredentialGenerationError::InvalidValidity)
    ));
}

#[test]
fn a_wrong_passphrase_is_named() {
    let generated =
        generate_self_signed_pkcs12(&identity("Ada Lovelace"), PASSPHRASE).expect("generate");
    assert!(matches!(
        load_pkcs12(&generated.bytes, "something else"),
        Err(SigningError::WrongPassphrase)
    ));
}

#[test]
fn a_name_is_escaped_and_encoded() {
    assert_eq!(
        subject_name(&identity("Lovelace, Ada")),
        "CN=Lovelace\\, Ada,O=Pulpit & Co,emailAddress=signer@example.test"
    );
    assert!(!check_identity(&identity("Ada")).expect("a name").is_empty());
}

#[test]
fn a_serial_is_positive_and_not_zero() {
    let serial = positive_serial(vec![0xFF; 16]);
    assert_eq!(serial[0] & 0x80, 0);
    assert!(positive_serial(vec![0; 16]).iter().any(|byte| *byte != 0));
}

#[test]
fn signed_attrs_tbs_starts_with_universal_set_of_tag() {
    let attrs = build_signed_attributes(
        &credential(),
        &[0u8; 32],
        SigningProfile::AdbePkcs7Detached,
        Some(1_724_191_200),
    )
    .unwrap();
    let tbs = signed_attrs_tbs(&attrs).unwrap();
    assert_eq!(
        tbs[0], 0x31,
        "signed attrs DER must start with universal SET OF tag (0x31), not [0] IMPLICIT"
    );
}

#[test]
fn a_signature_fits_what_is_reserved_for_it() {
    let credential = credential();
    assert_eq!(credential.public_key_info, PublicKeyInfo::EcP256);
    assert_eq!(
        digest_algorithm_for(&credential).unwrap(),
        DigestAlgorithm::Sha256
    );
    let digest = vec![7u8; 32];
    let reserved = estimate_cms_size(
        &credential,
        &digest,
        SigningProfile::AdbePkcs7Detached,
        false,
        true,
        Some(1_724_191_200),
    )
    .unwrap();
    assert_eq!(reserved % 2, 0);
    let cms = build_cms(
        &credential,
        &digest,
        SigningProfile::AdbePkcs7Detached,
        false,
        None,
        Some(1_724_191_200),
    )
    .unwrap();
    assert!(cms.len() * 2 <= reserved);
    assert!(
        cms.windows(32).any(|window| window == digest),
        "the digest of the document is among the signed attributes"
    );
}

fn one_page() -> Vec<u8> {
    let mut bytes = b"%PDF-1.7\n".to_vec();
    let mut section = "xref\n0 4\n0000000000 65535 f \n".to_string();
    for (index, object) in [
        "<< /Type /Catalog /Pages 2 0 R >>",
        "<< /Type /Pages /Kids [3 0 R] /Count 1 >>",
        "<< /Type /Page /Parent 2 0 R /MediaBox [0 0 612 792] >>",
    ]
    .iter()
    .enumerate()
    {
        section.push_str(&format!("{:010} 00000 n \n", bytes.len()));
        bytes.extend_from_slice(format!("{} 0 obj\n{object}\nendobj\n", index + 1).as_bytes());
    }
    let xref_at = bytes.len();
    section.push_str(&format!(
        "trailer\n<< /Size 4 /Root 1 0 R >>\nstartxref\n{xref_at}\n%%EOF\n"
    ));
    bytes.extend_from_slice(section.as_bytes());
    bytes
}

fn preflight(field: &str) -> Result<PreflightOk, PreflightRefusal> {
    Ok(PreflightOk {
        target_field: field.to_string(),
        seed_value_ignored: false,
    })
}

#[test]
fn a_signed_document_begins_with_its_source_and_is_covered_but_for_the_signature() {
    let source = one_page();
    let layout = read_layout(&source).expect("a layout");
    let request = SignRequest {
        reason: Some("I agree".to_string()),
        signing_time: 1_724_191_200,
        ..SignRequest::default()
    };
    let plan = plan_revision(&source, &layout, 0, preflight(""), &request.field).expect("a plan");
    let credential = credential();
    let candidate =
        sign_document(&source, &layout, &request, &plan, &credential).expect("a signature");
    assert!(candidate.bytes.starts_with(&source));
    assert_eq!(candidate.attempts, 1);

    // The byte range covers everything but the signature itself.
    let text = String::from_utf8_lossy(&candidate.bytes[source.len()..]).into_owned();
    let at = text.find("/ByteRange [").expect("a byte range") + "/ByteRange [".len();
    let range: Vec<usize> = text[at..at + text[at..].find(']').unwrap()]
        .split_whitespace()
        .map(|number| number.parse().unwrap())
        .collect();
    assert_eq!(range[0], 0);
    assert_eq!(range[2] + range[3], candidate.bytes.len());
    assert_eq!(candidate.bytes[range[1]], b'<');
    assert_eq!(candidate.bytes[range[2] - 1], b'>');

    // And the signature is over the digest of that.
    let mut hasher = sha2::Sha256::new();
    hasher.update(&candidate.bytes[..range[1]]);
    hasher.update(&candidate.bytes[range[2]..]);
    let digest = hasher.finalize();
    let signature = hex::decode(&candidate.bytes[range[1] + 1..range[2] - 1]).expect("hex");
    assert!(signature
        .windows(32)
        .any(|window| window == digest.as_slice()));
    assert!(signature[candidate.cms_len..].iter().all(|byte| *byte == 0));

    let made = report(plan, &candidate, 1, candidate.bytes.len() as u64);
    assert_eq!(made.field_name, "Signature1");
    assert_eq!(made.signature_count, 1);
    assert_eq!(made.cms_len, candidate.cms_len);
}

#[test]
fn an_encrypted_document_is_not_signed() {
    let mut layout = read_layout(&one_page()).expect("a layout");
    layout.encrypted = true;
    let error = plan_revision(
        &one_page(),
        &layout,
        0,
        preflight(""),
        &SignTarget::NewInvisibleField { name: None },
    )
    .unwrap_err();
    assert_eq!(
        error,
        SignApplyError::Refused(PreflightRefusal::EncryptedDocument)
    );
}

#[test]
fn a_file_is_not_signed_onto_itself() {
    assert!(refuse_in_place(true, "/talk/deck.pdf").is_err());
    assert!(refuse_in_place(false, "/talk/deck.pdf").is_ok());
}

#[test]
fn temporary_names_are_told_apart_by_their_mark() {
    assert_eq!(
        temporary_name(1234, 0xAB),
        ".pulpit-sign-1234-00000000000000ab"
    );
    assert_ne!(temporary_name(1234, 1), temporary_name(1234, 2));
}
