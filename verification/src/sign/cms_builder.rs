//! Detached CMS `SignedData` with one signer and no encapsulated content.
//!
//! What is signed is the DER encoding of the signed attributes as a `SET OF`;
//! inside the signer's entry the same attributes stand under another tag.

use crate::bytes::{copy_bytes, push_bytes, push_repeated, repeated, same_bytes};
use crate::sign::credential::{
    byte_strings, certificate_views, CertificateFacts, CertificateRecord, Credential,
    CredentialFacts, PublicKeyInfo,
};
use crate::sign::der::{big_endian, encode, tlv, FIELD_FOUR, OCTET_STRING, SEQUENCE};
use crate::sign::digest::{sha256_of, sha256_spans};
use crate::sign::errors::{SigningError, SigningFault};
use crate::sign::mechanism::{
    mechanism_for, select_mechanism, DigestAlgorithm, SigningMechanism,
};
use crate::text::{owned, push_str};
use cms::cert::{CertificateChoices, IssuerAndSerialNumber};
use cms::content_info::{CmsVersion, ContentInfo};
use cms::signed_data::{
    CertificateSet, EncapsulatedContentInfo, SignedData, SignerIdentifier, SignerInfo, SignerInfos,
};
use der::asn1::{Any, ObjectIdentifier, OctetString, SetOfVec, UtcTime};
use der::{Decode, Encode};
use pkcs8::DecodePrivateKey;
use rsa::traits::PrivateKeyParts;
use signature::{SignatureEncoding, Signer};
use spki::AlgorithmIdentifierOwned;
use vstd::prelude::*;
use x509_cert::attr::Attribute;

verus! {

/// Which attributes a signature carries.
#[derive(Debug, Clone, Copy, PartialEq, Eq, Structural)]
pub enum SigningProfile {
    /// `/adbe.pkcs7.detached`, which carries the time of signing.
    AdbePkcs7Detached,
    /// `/ETSI.CAdES.detached`, which does not.
    EtsiCadesDetached,
}

/// What a signature is made over.
#[derive(Debug, Clone)]
pub struct CmsSignatureInfo {
    pub profile: SigningProfile,
    pub document_digest: Vec<u8>,
    pub digest_algorithm: DigestAlgorithm,
    pub embed_roots: bool,
}

/// Bytes, or an error as text.
pub open spec fn encoding(result: Result<Vec<u8>, String>) -> Result<Seq<u8>, Seq<char>> {
    match result {
        Ok(bytes) => Ok(bytes@),
        Err(reason) => Err(reason@),
    }
}

/// How many characters stand between the place `n` of a dotted text and the dot
/// before it.
pub open spec fn digits_before(text: Seq<char>, n: nat) -> nat
    decreases n,
{
    if n == 0 || text[n - 1] == '.' {
        0
    } else {
        digits_before(text, (n - 1) as nat) + 1
    }
}

/// How many characters the longest number has among the first `n` characters of
/// a dotted text.
pub open spec fn longest_number(text: Seq<char>, n: nat) -> nat
    decreases n,
{
    if n == 0 {
        0
    } else if longest_number(text, (n - 1) as nat) < digits_before(text, n) {
        digits_before(text, n)
    } else {
        longest_number(text, (n - 1) as nat)
    }
}

/// A dotted text that is short, and whose numbers are below a thousand million.
pub open spec fn is_short_oid(text: Seq<char>) -> bool {
    text.len() <= 32 && longest_number(text, text.len()) <= 9
}

proof fn lemma_attribute_oids()
    ensures
        is_short_oid("1.2.840.113549.1.7.1"@),
        is_short_oid("1.2.840.113549.1.7.2"@),
        is_short_oid("1.2.840.113549.1.9.3"@),
        is_short_oid("1.2.840.113549.1.9.4"@),
        is_short_oid("1.2.840.113549.1.9.5"@),
        is_short_oid("1.2.840.113549.1.9.16.2.47"@),
{
    reveal_strlit("1.2.840.113549.1.7.1");
    reveal_strlit("1.2.840.113549.1.7.2");
    reveal_strlit("1.2.840.113549.1.9.3");
    reveal_strlit("1.2.840.113549.1.9.4");
    reveal_strlit("1.2.840.113549.1.9.5");
    reveal_strlit("1.2.840.113549.1.9.16.2.47");
    reveal_with_fuel(digits_before, 8);
    reveal_with_fuel(longest_number, 27);
}

proof fn lemma_digest_oids(digest: DigestAlgorithm)
    ensures
        is_short_oid(digest.identifier()),
{
    reveal_strlit("2.16.840.1.101.3.4.2.1");
    reveal_strlit("2.16.840.1.101.3.4.2.2");
    reveal_strlit("2.16.840.1.101.3.4.2.3");
    reveal_with_fuel(digits_before, 5);
    reveal_with_fuel(longest_number, 23);
}

proof fn lemma_signature_oids(mechanism: SigningMechanism)
    ensures
        is_short_oid("1.2.840.113549.1.1.1"@),
        !mechanism.is_rsa() ==> is_short_oid(mechanism.identifier()),
{
    reveal_strlit("1.2.840.113549.1.1.1");
    reveal_strlit("1.2.840.10045.4.3.2");
    reveal_strlit("1.2.840.10045.4.3.3");
    reveal_strlit("1.2.840.10045.4.3.4");
    reveal_strlit("1.3.101.112");
    reveal_with_fuel(digits_before, 8);
    reveal_with_fuel(longest_number, 21);
}

/// What `der::asn1::ObjectIdentifier::new` and its `to_der` make of a dotted
/// text.
pub uninterp spec fn oid_encoding(text: Seq<char>) -> Result<Seq<u8>, Seq<char>>;

/// `der::asn1::ObjectIdentifier::new`, encoded. It computes each number in 32
/// bits without a test, and calls itself for each character, so the text is
/// short and its numbers are.
#[verifier::external_body]
fn oid_der(text: &str) -> (der: Result<Vec<u8>, String>)
    requires
        is_short_oid(text@),
    ensures
        encoding(der) == oid_encoding(text@),
{
    ObjectIdentifier::new(text).map_err(|e| e.to_string())?.to_der().map_err(|e| e.to_string())
}

/// What `x509_cert::attr::Attribute::to_der` makes of an attribute with one
/// value, given the object identifier and the value in DER.
pub uninterp spec fn attribute_encoding(oid: Seq<u8>, value: Seq<u8>) -> Result<
    Seq<u8>,
    Seq<char>,
>;

/// `x509_cert::attr::Attribute` with one value, encoded.
#[verifier::external_body]
fn attribute_der(oid: &[u8], value: &[u8]) -> (der: Result<Vec<u8>, String>)
    ensures
        encoding(der) == attribute_encoding(oid@, value@),
{
    let make = || -> der::Result<Vec<u8>> {
        let values = SetOfVec::try_from([Any::from_der(value)?])?;
        Attribute { oid: ObjectIdentifier::from_der(oid)?, values }.to_der()
    };
    make().map_err(|e| e.to_string())
}

/// What `der::asn1::SetOfVec` of attributes, given in DER, is encoded as.
pub uninterp spec fn attribute_set_encoding(attributes: Seq<Seq<u8>>) -> Result<
    Seq<u8>,
    Seq<char>,
>;

/// `der::asn1::SetOfVec::try_from` on attributes, encoded. The encoding starts
/// with the tag of a `SET OF`.
#[verifier::external_body]
fn attribute_set_der(attributes: &[Vec<u8>]) -> (der: Result<Vec<u8>, String>)
    ensures
        encoding(der) == attribute_set_encoding(byte_strings(attributes@)),
        der matches Ok(bytes) ==> bytes@.len() > 0 && bytes@[0] == crate::sign::der::SET,
{
    let make = || -> der::Result<Vec<u8>> {
        let all: der::Result<Vec<Attribute>> = attributes.iter().map(|a| Attribute::from_der(a)).collect();
        SetOfVec::try_from(all?)?.to_der()
    };
    make().map_err(|e| e.to_string())
}

/// What `der::asn1::UtcTime::from_unix_duration` and its `to_der` make of a
/// number of seconds since 1970.
pub uninterp spec fn utc_time_encoding(seconds: nat) -> Result<Seq<u8>, Seq<char>>;

/// `der::asn1::UtcTime::from_unix_duration`, encoded.
#[verifier::external_body]
fn utc_time_der(seconds: u64) -> (der: Result<Vec<u8>, String>)
    ensures
        encoding(der) == utc_time_encoding(seconds as nat),
{
    UtcTime::from_unix_duration(std::time::Duration::from_secs(seconds))
        .and_then(|time| time.to_der())
        .map_err(|e| e.to_string())
}

/// What `cms::signed_data::SignerInfo::to_der` makes of its fields, each given
/// in DER but for the bytes of the signature.
pub uninterp spec fn signer_info_encoding(
    version: Seq<u8>,
    signer: Seq<u8>,
    digest_algorithm: Seq<u8>,
    attributes: Seq<u8>,
    signature_algorithm: Seq<u8>,
    signature: Seq<u8>,
) -> Result<Seq<u8>, Seq<char>>;

/// `cms::signed_data::SignerInfo` without unsigned attributes, encoded.
#[verifier::external_body]
fn signer_info_der(
    version: &[u8],
    signer: &[u8],
    digest_algorithm: &[u8],
    attributes: &[u8],
    signature_algorithm: &[u8],
    signature: &[u8],
) -> (der: Result<Vec<u8>, String>)
    ensures
        encoding(der) == signer_info_encoding(
            version@,
            signer@,
            digest_algorithm@,
            attributes@,
            signature_algorithm@,
            signature@,
        ),
{
    let make = || -> der::Result<Vec<u8>> {
        SignerInfo {
            version: CmsVersion::from_der(version)?,
            sid: SignerIdentifier::IssuerAndSerialNumber(IssuerAndSerialNumber::from_der(signer)?),
            digest_alg: AlgorithmIdentifierOwned::from_der(digest_algorithm)?,
            signed_attrs: Some(SetOfVec::from_der(attributes)?),
            signature_algorithm: AlgorithmIdentifierOwned::from_der(signature_algorithm)?,
            signature: OctetString::new(signature)?,
            unsigned_attrs: None,
        }.to_der()
    };
    make().map_err(|e| e.to_string())
}

/// What `cms::signed_data::CertificateSet` of certificates, given in DER, is
/// encoded as.
pub uninterp spec fn certificate_set_encoding(certificates: Seq<Seq<u8>>) -> Result<
    Seq<u8>,
    Seq<char>,
>;

/// `cms::signed_data::CertificateSet` of `der::asn1::SetOfVec::try_from` on
/// certificates, encoded.
#[verifier::external_body]
fn certificate_set_der(certificates: &[Vec<u8>]) -> (der: Result<Vec<u8>, String>)
    ensures
        encoding(der) == certificate_set_encoding(byte_strings(certificates@)),
{
    let make = || -> der::Result<Vec<u8>> {
        let chosen: der::Result<Vec<CertificateChoices>> = certificates.iter().map(|c| CertificateChoices::from_der(c)).collect();
        CertificateSet(SetOfVec::try_from(chosen?)?).to_der()
    };
    make().map_err(|e| e.to_string())
}

/// What `cms::signed_data::SignedData::to_der` makes of its fields, each given
/// in DER.
pub uninterp spec fn signed_data_encoding(
    version: Seq<u8>,
    digest_algorithm: Seq<u8>,
    content_type: Seq<u8>,
    certificates: Seq<u8>,
    signer_info: Seq<u8>,
) -> Result<Seq<u8>, Seq<char>>;

/// `cms::signed_data::SignedData` with one digest algorithm, one signer and no
/// content, encoded.
#[verifier::external_body]
fn signed_data_der(
    version: &[u8],
    digest_algorithm: &[u8],
    content_type: &[u8],
    certificates: &[u8],
    signer_info: &[u8],
) -> (der: Result<Vec<u8>, String>)
    ensures
        encoding(der) == signed_data_encoding(
            version@,
            digest_algorithm@,
            content_type@,
            certificates@,
            signer_info@,
        ),
{
    let make = || -> der::Result<Vec<u8>> {
        SignedData {
            version: CmsVersion::from_der(version)?,
            digest_algorithms: SetOfVec::try_from([AlgorithmIdentifierOwned::from_der(digest_algorithm)?])?,
            encap_content_info: EncapsulatedContentInfo { econtent_type: ObjectIdentifier::from_der(content_type)?, econtent: None },
            certificates: Some(CertificateSet::from_der(certificates)?),
            crls: None,
            signer_infos: SignerInfos(SetOfVec::try_from([SignerInfo::from_der(signer_info)?])?),
        }.to_der()
    };
    make().map_err(|e| e.to_string())
}

/// What `cms::content_info::ContentInfo::to_der` makes of a content type and a
/// content, both given in DER.
pub uninterp spec fn content_info_encoding(content_type: Seq<u8>, content: Seq<u8>) -> Result<
    Seq<u8>,
    Seq<char>,
>;

/// `cms::content_info::ContentInfo`, encoded.
#[verifier::external_body]
fn content_info_der(content_type: &[u8], content: &[u8]) -> (der: Result<Vec<u8>, String>)
    ensures
        encoding(der) == content_info_encoding(content_type@, content@),
{
    let make = || -> der::Result<Vec<u8>> {
        ContentInfo { content_type: ObjectIdentifier::from_der(content_type)?, content: Any::from_der(content)? }.to_der()
    };
    make().map_err(|e| e.to_string())
}

/// Why a key made no signature.
pub enum KeyFailure {
    /// The key cannot be read.
    Unreadable(String),
    /// The key refused to sign.
    Refused(String),
}

/// Why a key made no signature, by its value.
pub enum KeyFault {
    Unreadable(Seq<char>),
    Refused(Seq<char>),
}

/// A signature, or why there is none.
pub open spec fn signature_outcome(result: Result<Vec<u8>, KeyFailure>) -> Result<
    Seq<u8>,
    KeyFault,
> {
    match result {
        Ok(bytes) => Ok(bytes@),
        Err(KeyFailure::Unreadable(reason)) => Err(KeyFault::Unreadable(reason@)),
        Err(KeyFailure::Refused(reason)) => Err(KeyFault::Refused(reason@)),
    }
}

/// What `rsa::RsaPrivateKey::from_pkcs8_der` and `primes` find in a key: its
/// prime factors, each with the highest byte first and no leading zero; nothing
/// where the key cannot be read.
pub uninterp spec fn rsa_primes(key: Seq<u8>) -> Option<Seq<Seq<u8>>>;

/// `rsa::traits::PrivateKeyParts::primes` of a key in PKCS#8.
#[verifier::external_body]
fn read_rsa_primes(key: &[u8]) -> (primes: Option<Vec<Vec<u8>>>)
    ensures
        match primes {
            Some(found) => rsa_primes(key@) == Some(byte_strings(found@)),
            None => rsa_primes(key@) is None,
        },
{
    let key = rsa::RsaPrivateKey::from_pkcs8_der(key).ok()?;
    Some(key.primes().iter().map(|prime| prime.to_bytes_be()).collect())
}

/// Two prime factors of which the second is at most one byte longer than the
/// first.
pub open spec fn are_balanced(primes: Seq<Seq<u8>>) -> bool {
    primes.len() == 2 && primes[1].len() <= primes[0].len() + 1
}

/// Are the prime factors two, of which the second is at most one byte longer
/// than the first?
pub fn balanced_primes(primes: &[Vec<u8>]) -> (balanced: bool)
    ensures
        balanced == are_balanced(byte_strings(primes@)),
{
    primes.len() == 2 && (primes[1].len() <= primes[0].len() || primes[1].len() - 1
        <= primes[0].len())
}

/// A key that signs in few steps: signing adds the first prime factor to a
/// number below the second until it is not negative. A key that cannot be read
/// takes no step.
pub open spec fn signs_soon(key: Seq<u8>) -> bool {
    match rsa_primes(key) {
        Some(primes) => are_balanced(primes),
        None => true,
    }
}

/// What `rsa::pkcs1v15::SigningKey` with SHA-256 signs a message with, given
/// the key in PKCS#8.
pub uninterp spec fn rsa_sha256_signature(key: Seq<u8>, message: Seq<u8>) -> Result<
    Seq<u8>,
    KeyFault,
>;

/// `rsa::pkcs1v15::SigningKey::<Sha256>::try_sign`.
#[verifier::external_body]
fn sign_rsa_sha256(key: &[u8], message: &[u8]) -> (signed: Result<Vec<u8>, KeyFailure>)
    requires
        signs_soon(key@),
    ensures
        signature_outcome(signed) == rsa_sha256_signature(key@, message@),
{
    let key = rsa::RsaPrivateKey::from_pkcs8_der(key).map_err(|e| KeyFailure::Unreadable(e.to_string()))?;
    let signed = rsa::pkcs1v15::SigningKey::<sha2::Sha256>::new(key).try_sign(message);
    signed.map(|signature| signature.to_vec()).map_err(|e| KeyFailure::Refused(e.to_string()))
}

/// What `rsa::pkcs1v15::SigningKey` with SHA-384 signs a message with, given
/// the key in PKCS#8.
pub uninterp spec fn rsa_sha384_signature(key: Seq<u8>, message: Seq<u8>) -> Result<
    Seq<u8>,
    KeyFault,
>;

/// `rsa::pkcs1v15::SigningKey::<Sha384>::try_sign`.
#[verifier::external_body]
fn sign_rsa_sha384(key: &[u8], message: &[u8]) -> (signed: Result<Vec<u8>, KeyFailure>)
    requires
        signs_soon(key@),
    ensures
        signature_outcome(signed) == rsa_sha384_signature(key@, message@),
{
    let key = rsa::RsaPrivateKey::from_pkcs8_der(key).map_err(|e| KeyFailure::Unreadable(e.to_string()))?;
    let signed = rsa::pkcs1v15::SigningKey::<sha2::Sha384>::new(key).try_sign(message);
    signed.map(|signature| signature.to_vec()).map_err(|e| KeyFailure::Refused(e.to_string()))
}

/// What `rsa::pkcs1v15::SigningKey` with SHA-512 signs a message with, given
/// the key in PKCS#8.
pub uninterp spec fn rsa_sha512_signature(key: Seq<u8>, message: Seq<u8>) -> Result<
    Seq<u8>,
    KeyFault,
>;

/// `rsa::pkcs1v15::SigningKey::<Sha512>::try_sign`.
#[verifier::external_body]
fn sign_rsa_sha512(key: &[u8], message: &[u8]) -> (signed: Result<Vec<u8>, KeyFailure>)
    requires
        signs_soon(key@),
    ensures
        signature_outcome(signed) == rsa_sha512_signature(key@, message@),
{
    let key = rsa::RsaPrivateKey::from_pkcs8_der(key).map_err(|e| KeyFailure::Unreadable(e.to_string()))?;
    let signed = rsa::pkcs1v15::SigningKey::<sha2::Sha512>::new(key).try_sign(message);
    signed.map(|signature| signature.to_vec()).map_err(|e| KeyFailure::Refused(e.to_string()))
}

/// What `p256::ecdsa::SigningKey` signs a message with, in DER, given the key
/// in PKCS#8.
pub uninterp spec fn p256_signature(key: Seq<u8>, message: Seq<u8>) -> Result<Seq<u8>, KeyFault>;

/// `p256::ecdsa::SigningKey::try_sign`, which draws no random numbers.
#[verifier::external_body]
fn sign_p256(key: &[u8], message: &[u8]) -> (signed: Result<Vec<u8>, KeyFailure>)
    ensures
        signature_outcome(signed) == p256_signature(key@, message@),
{
    let key = p256::ecdsa::SigningKey::from_pkcs8_der(key).map_err(|e| KeyFailure::Unreadable(e.to_string()))?;
    let signed: Result<p256::ecdsa::Signature, _> = key.try_sign(message);
    signed.map(|signature| signature.to_der().as_bytes().to_vec()).map_err(|e| KeyFailure::Refused(e.to_string()))
}

/// What `p384::ecdsa::SigningKey` signs a message with, in DER, given the key
/// in PKCS#8.
pub uninterp spec fn p384_signature(key: Seq<u8>, message: Seq<u8>) -> Result<Seq<u8>, KeyFault>;

/// `p384::ecdsa::SigningKey::try_sign`, which draws no random numbers.
#[verifier::external_body]
fn sign_p384(key: &[u8], message: &[u8]) -> (signed: Result<Vec<u8>, KeyFailure>)
    ensures
        signature_outcome(signed) == p384_signature(key@, message@),
{
    let key = p384::ecdsa::SigningKey::from_pkcs8_der(key).map_err(|e| KeyFailure::Unreadable(e.to_string()))?;
    let signed: Result<p384::ecdsa::Signature, _> = key.try_sign(message);
    signed.map(|signature| signature.to_der().as_bytes().to_vec()).map_err(|e| KeyFailure::Refused(e.to_string()))
}

/// What `ed25519_dalek::SigningKey` signs a message with, given the key in
/// PKCS#8.
pub uninterp spec fn ed25519_signature(key: Seq<u8>, message: Seq<u8>) -> Result<
    Seq<u8>,
    KeyFault,
>;

/// `ed25519_dalek::SigningKey::try_sign`.
#[verifier::external_body]
fn sign_ed25519(key: &[u8], message: &[u8]) -> (signed: Result<Vec<u8>, KeyFailure>)
    ensures
        signature_outcome(signed) == ed25519_signature(key@, message@),
{
    let key = ed25519_dalek::SigningKey::from_pkcs8_der(key).map_err(|e| KeyFailure::Unreadable(e.to_string()))?;
    let signed = key.try_sign(message);
    signed.map(|signature| signature.to_bytes().to_vec()).map_err(|e| KeyFailure::Refused(e.to_string()))
}

/// A fault of an encoding, behind what was being encoded.
pub open spec fn der_fault(what: Seq<char>, reason: Seq<char>) -> SigningFault {
    SigningFault::DerEncodingFailed(what + reason)
}

fn der_error(what: &str, reason: &str) -> (error: SigningError)
    ensures
        error@ == der_fault(what@, reason@),
{
    let mut text = owned(what);
    push_str(&mut text, reason);
    SigningError::DerEncodingFailed(text)
}

/// Bytes, or the fault.
pub open spec fn bytes_outcome(result: Result<Vec<u8>, SigningError>) -> Result<
    Seq<u8>,
    SigningFault,
> {
    match result {
        Ok(bytes) => Ok(bytes@),
        Err(error) => Err(error@),
    }
}

/// An encoding, or the fault that says what was being encoded.
pub open spec fn or_fault(
    result: Result<Seq<u8>, Seq<char>>,
    what: Seq<char>,
) -> Result<Seq<u8>, SigningFault> {
    match result {
        Ok(bytes) => Ok(bytes),
        Err(reason) => Err(der_fault(what, reason)),
    }
}

fn or_error(result: Result<Vec<u8>, String>, what: &str) -> (mapped: Result<Vec<u8>, SigningError>)
    ensures
        bytes_outcome(mapped) == or_fault(encoding(result), what@),
{
    match result {
        Ok(bytes) => Ok(bytes),
        Err(reason) => Err(der_error(what, reason.as_str())),
    }
}

/// An attribute with one value.
pub open spec fn attribute_of(oid: Seq<char>, value: Seq<u8>) -> Result<Seq<u8>, SigningFault> {
    match oid_encoding(oid) {
        Err(reason) => Err(der_fault("object identifier: "@, reason)),
        Ok(encoded) => or_fault(attribute_encoding(encoded, value), "attribute value: "@),
    }
}

fn attribute(oid: &str, value: &[u8]) -> (der: Result<Vec<u8>, SigningError>)
    requires
        is_short_oid(oid@),
    ensures
        bytes_outcome(der) == attribute_of(oid@, value@),
{
    match oid_der(oid) {
        Err(reason) => Err(der_error("object identifier: ", reason.as_str())),
        Ok(encoded) => or_error(
            attribute_der(encoded.as_slice(), value),
            "attribute value: ",
        ),
    }
}

/// The value of the attribute that names the certificate of the signer: its
/// SHA-256 digest, its issuer and its serial number. SHA-256 is the default, so
/// the digest algorithm is not named.
pub open spec fn signing_certificate_value(signer: CertificateFacts) -> Seq<u8> {
    let issuer_names = tlv(SEQUENCE, tlv(FIELD_FOUR, signer.issuer));
    let issuer_serial = tlv(SEQUENCE, issuer_names + signer.serial);
    let certificate_id = tlv(SEQUENCE, tlv(OCTET_STRING, sha256_of(signer.der)) + issuer_serial);
    tlv(SEQUENCE, tlv(SEQUENCE, certificate_id))
}

fn encode_signing_certificate(signer: &CertificateRecord) -> (value: Vec<u8>)
    ensures
        value@ == signing_certificate_value(signer@),
{
    let nothing: Vec<u8> = Vec::new();
    let hash = sha256_spans(signer.der.as_slice(), nothing.as_slice());
    assert(signer.der@ + nothing@ =~= signer.der@);
    let name = encode(FIELD_FOUR, signer.issuer.as_slice());
    let mut issuer_serial = encode(SEQUENCE, name.as_slice());
    push_bytes(&mut issuer_serial, signer.serial.as_slice());
    let issuer_serial = encode(SEQUENCE, issuer_serial.as_slice());
    let mut certificate_id = encode(OCTET_STRING, hash.as_slice());
    push_bytes(&mut certificate_id, issuer_serial.as_slice());
    let certificate_id = encode(SEQUENCE, certificate_id.as_slice());
    let certificates = encode(SEQUENCE, certificate_id.as_slice());
    encode(SEQUENCE, certificates.as_slice())
}

/// The moment that a signature states, where its profile states one.
pub open spec fn stated_moment(profile: SigningProfile, signing_time: Option<i64>) -> Option<nat> {
    match (profile, signing_time) {
        (SigningProfile::AdbePkcs7Detached, Some(seconds)) => Some(
            if seconds < 0 {
                0
            } else {
                seconds as nat
            },
        ),
        _ => None,
    }
}

/// The attributes that are always signed: the content type, the digest of the
/// document, and the certificate of the signer.
pub open spec fn common_attributes(signer: CertificateFacts, digest: Seq<u8>) -> Result<
    Seq<Seq<u8>>,
    SigningFault,
> {
    match oid_encoding("1.2.840.113549.1.7.1"@) {
        Err(reason) => Err(der_fault("object identifier: "@, reason)),
        Ok(data) => match attribute_of("1.2.840.113549.1.9.3"@, data) {
            Err(fault) => Err(fault),
            Ok(content_type) => match attribute_of(
                "1.2.840.113549.1.9.4"@,
                tlv(OCTET_STRING, digest),
            ) {
                Err(fault) => Err(fault),
                Ok(message_digest) => match attribute_of(
                    "1.2.840.113549.1.9.16.2.47"@,
                    signing_certificate_value(signer),
                ) {
                    Err(fault) => Err(fault),
                    Ok(certificate) => Ok(seq![content_type, message_digest, certificate]),
                },
            },
        },
    }
}

/// The attribute that states a moment.
pub open spec fn moment_attribute(seconds: nat) -> Result<Seq<u8>, SigningFault> {
    match utc_time_encoding(seconds) {
        Err(reason) => Err(der_fault("signing-time: "@, reason)),
        Ok(time) => attribute_of("1.2.840.113549.1.9.5"@, time),
    }
}

/// The signed attributes as a `SET OF` in DER.
pub open spec fn signed_attributes_of(
    signer: CertificateFacts,
    digest: Seq<u8>,
    profile: SigningProfile,
    signing_time: Option<i64>,
) -> Result<Seq<u8>, SigningFault> {
    match common_attributes(signer, digest) {
        Err(fault) => Err(fault),
        Ok(common) => match stated_moment(profile, signing_time) {
            None => or_fault(attribute_set_encoding(common), "signed attrs: "@),
            Some(seconds) => match moment_attribute(seconds) {
                Err(fault) => Err(fault),
                Ok(moment) => or_fault(
                    attribute_set_encoding(common.push(moment)),
                    "signed attrs: "@,
                ),
            },
        },
    }
}

/// Signed attributes as a `SET OF` in DER.
#[derive(Debug, PartialEq, Eq)]
pub struct SignedAttributes {
    der: Vec<u8>,
}

impl View for SignedAttributes {
    type V = Seq<u8>;

    closed spec fn view(&self) -> Seq<u8> {
        self.der@
    }
}

/// Signed attributes, or the fault.
pub open spec fn attributes_outcome(result: Result<SignedAttributes, SigningError>) -> Result<
    Seq<u8>,
    SigningFault,
> {
    match result {
        Ok(attributes) => Ok(attributes@),
        Err(error) => Err(error@),
    }
}

fn build_common_attributes(signer: &CertificateRecord, digest: &[u8]) -> (attributes: Result<
    Vec<Vec<u8>>,
    SigningError,
>)
    ensures
        match attributes {
            Ok(all) => common_attributes(signer@, digest@) == Ok::<Seq<Seq<u8>>, SigningFault>(
                byte_strings(all@),
            ),
            Err(error) => common_attributes(signer@, digest@) == Err::<
                Seq<Seq<u8>>,
                SigningFault,
            >(error@),
        },
{
    proof {
        lemma_attribute_oids();
    }
    let data = match oid_der("1.2.840.113549.1.7.1") {
        Ok(data) => data,
        Err(reason) => return Err(der_error("object identifier: ", reason.as_str())),
    };
    let content_type = match attribute("1.2.840.113549.1.9.3", data.as_slice()) {
        Ok(der) => der,
        Err(error) => return Err(error),
    };
    let octets = encode(OCTET_STRING, digest);
    let message_digest = match attribute("1.2.840.113549.1.9.4", octets.as_slice()) {
        Ok(der) => der,
        Err(error) => return Err(error),
    };
    let value = encode_signing_certificate(signer);
    let certificate = match attribute("1.2.840.113549.1.9.16.2.47", value.as_slice()) {
        Ok(der) => der,
        Err(error) => return Err(error),
    };
    let ghost expected = seq![content_type@, message_digest@, certificate@];
    let mut all: Vec<Vec<u8>> = Vec::new();
    all.push(content_type);
    all.push(message_digest);
    all.push(certificate);
    assert(byte_strings(all@) =~= expected);
    Ok(all)
}

/// Builds the signed attributes. The time of signing is among them only where
/// the profile carries it and a time is given.
pub fn build_signed_attributes(
    credential: &Credential,
    document_digest: &[u8],
    profile: SigningProfile,
    signing_time: Option<i64>,
) -> (attributes: Result<SignedAttributes, SigningError>)
    ensures
        attributes_outcome(attributes) == signed_attributes_of(
            credential@.signer,
            document_digest@,
            profile,
            signing_time,
        ),
        attributes matches Ok(set) ==> set@.len() > 0 && set@[0] == crate::sign::der::SET,
{
    let mut all = match build_common_attributes(credential.signer(), document_digest) {
        Ok(all) => all,
        Err(error) => return Err(error),
    };
    if let (SigningProfile::AdbePkcs7Detached, Some(unix_seconds)) = (profile, signing_time) {
        let seconds: u64 = if unix_seconds < 0 {
            0
        } else {
            unix_seconds as u64
        };
        let time = match utc_time_der(seconds) {
            Ok(time) => time,
            Err(reason) => return Err(der_error("signing-time: ", reason.as_str())),
        };
        proof {
            lemma_attribute_oids();
        }
        let moment = match attribute("1.2.840.113549.1.9.5", time.as_slice()) {
            Ok(der) => der,
            Err(error) => return Err(error),
        };
        let ghost before = byte_strings(all@);
        let ghost stated = moment@;
        all.push(moment);
        assert(byte_strings(all@) =~= before.push(stated));
    }
    match attribute_set_der(all.as_slice()) {
        Ok(der) => Ok(SignedAttributes { der }),
        Err(reason) => Err(der_error("signed attrs: ", reason.as_str())),
    }
}

/// The bytes that are signed: the attributes as a `SET OF` in DER.
pub fn signed_attrs_tbs(attrs: &SignedAttributes) -> (tbs: Result<Vec<u8>, SigningError>)
    ensures
        tbs matches Ok(bytes) && bytes@ == attrs@,
{
    Ok(copy_bytes(attrs.der.as_slice()))
}

/// An algorithm identifier: an object identifier, and a null where the
/// algorithm takes parameters.
pub open spec fn algorithm_identifier(oid: Seq<char>, null: bool) -> Result<
    Seq<u8>,
    SigningFault,
> {
    match oid_encoding(oid) {
        Err(reason) => Err(der_fault("object identifier: "@, reason)),
        Ok(encoded) => Ok(
            tlv(
                SEQUENCE,
                if null {
                    encoded + seq![5u8, 0u8]
                } else {
                    encoded
                },
            ),
        ),
    }
}

fn encode_algorithm(oid: &str, null: bool) -> (der: Result<Vec<u8>, SigningError>)
    requires
        is_short_oid(oid@),
    ensures
        bytes_outcome(der) == algorithm_identifier(oid@, null),
{
    let mut content = match oid_der(oid) {
        Ok(encoded) => encoded,
        Err(reason) => return Err(der_error("object identifier: ", reason.as_str())),
    };
    if null {
        let ghost before = content@;
        content.push(5);
        content.push(0);
        assert(content@ =~= before + seq![5u8, 0u8]);
    }
    Ok(encode(SEQUENCE, content.as_slice()))
}

/// The algorithm identifier of a signature. Every RSA signature is identified
/// by its key, whatever the digest.
pub open spec fn signature_algorithm(mechanism: SigningMechanism) -> Result<
    Seq<u8>,
    SigningFault,
> {
    if mechanism.is_rsa() {
        algorithm_identifier("1.2.840.113549.1.1.1"@, true)
    } else {
        algorithm_identifier(mechanism.identifier(), false)
    }
}

fn signature_algorithm_identifier(mechanism: SigningMechanism) -> (der: Result<
    Vec<u8>,
    SigningError,
>)
    ensures
        bytes_outcome(der) == signature_algorithm(mechanism),
{
    proof {
        lemma_signature_oids(mechanism);
    }
    match mechanism {
        SigningMechanism::Rsa2048Sha256
        | SigningMechanism::Rsa3072Sha384
        | SigningMechanism::Rsa4096Sha512 => encode_algorithm("1.2.840.113549.1.1.1", true),
        _ => encode_algorithm(mechanism.signature_algorithm_oid(), false),
    }
}

/// A certificate whose issuer is its subject.
pub open spec fn is_self_signed(certificate: CertificateFacts) -> bool {
    certificate.issuer == certificate.subject
}

/// The certificates of a chain, among the first `n`, that go into a signature:
/// all of them, or those that are not self-signed.
pub open spec fn embedded_chain(chain: Seq<CertificateFacts>, embed_roots: bool, n: nat) -> Seq<
    Seq<u8>,
>
    decreases n,
{
    if n == 0 {
        Seq::empty()
    } else if embed_roots || !is_self_signed(chain[n - 1]) {
        embedded_chain(chain, embed_roots, (n - 1) as nat).push(chain[n - 1].der)
    } else {
        embedded_chain(chain, embed_roots, (n - 1) as nat)
    }
}

/// The certificates that go into a signature: the signer's first.
pub open spec fn embedded_certificates(credential: CredentialFacts, embed_roots: bool) -> Seq<
    Seq<u8>,
> {
    seq![credential.signer.der] + embedded_chain(
        credential.chain,
        embed_roots,
        credential.chain.len(),
    )
}

fn collect_certificates(credential: &Credential, embed_roots: bool) -> (certificates: Vec<Vec<u8>>)
    ensures
        byte_strings(certificates@) == embedded_certificates(credential@, embed_roots),
{
    let chain = credential.chain();
    let ghost facts = credential@.chain;
    let ghost first = seq![credential@.signer.der];
    let mut certificates: Vec<Vec<u8>> = Vec::new();
    certificates.push(copy_bytes(credential.signer().der.as_slice()));
    assert(byte_strings(certificates@) =~= first + embedded_chain(facts, embed_roots, 0));
    let mut i: usize = 0;
    while i < chain.len()
        invariant
            i <= chain@.len(),
            facts == certificate_views(chain@),
            byte_strings(certificates@) == first + embedded_chain(facts, embed_roots, i as nat),
        decreases chain@.len() - i,
    {
        let ghost before = byte_strings(certificates@);
        assert(facts[i as int] == chain@[i as int]@);
        if embed_roots || !same_bytes(chain[i].issuer.as_slice(), chain[i].subject.as_slice()) {
            certificates.push(copy_bytes(chain[i].der.as_slice()));
            assert(byte_strings(certificates@) =~= before.push(facts[i as int].der));
        }
        i += 1;
        assert(byte_strings(certificates@) =~= first + embedded_chain(
            facts,
            embed_roots,
            i as nat,
        ));
    }
    certificates
}

/// The version that both the signed data and the signer's entry have, in DER.
pub open spec fn version_one() -> Seq<u8> {
    seq![2u8, 1u8, 1u8]
}

/// A signature with everything that goes with it, in DER.
pub open spec fn assembled(
    credential: CredentialFacts,
    mechanism: SigningMechanism,
    embed_roots: bool,
    attributes: Seq<u8>,
    signature: Seq<u8>,
) -> Result<Seq<u8>, SigningFault> {
    match certificate_set_encoding(embedded_certificates(credential, embed_roots)) {
        Err(reason) => Err(der_fault("certificate set: "@, reason)),
        Ok(set) => match algorithm_identifier(mechanism.digest().identifier(), true) {
            Err(fault) => Err(fault),
            Ok(digest_algorithm) => match signature_algorithm(mechanism) {
                Err(fault) => Err(fault),
                Ok(algorithm) => {
                    let signer = tlv(
                        SEQUENCE,
                        credential.signer.issuer + credential.signer.serial,
                    );
                    match signer_info_encoding(
                        version_one(),
                        signer,
                        digest_algorithm,
                        attributes,
                        algorithm,
                        signature,
                    ) {
                        Err(reason) => Err(der_fault("signer infos: "@, reason)),
                        Ok(info) => wrapped(digest_algorithm, set, info),
                    }
                },
            },
        },
    }
}

/// A signer's entry inside signed data, inside a content info.
pub open spec fn wrapped(
    digest_algorithm: Seq<u8>,
    certificates: Seq<u8>,
    signer_info: Seq<u8>,
) -> Result<Seq<u8>, SigningFault> {
    match oid_encoding("1.2.840.113549.1.7.1"@) {
        Err(reason) => Err(der_fault("object identifier: "@, reason)),
        Ok(data) => match signed_data_encoding(
            version_one(),
            digest_algorithm,
            data,
            certificates,
            signer_info,
        ) {
            Err(reason) => Err(der_fault("signed data: "@, reason)),
            Ok(signed_data) => match oid_encoding("1.2.840.113549.1.7.2"@) {
                Err(reason) => Err(der_fault("object identifier: "@, reason)),
                Ok(kind) => or_fault(
                    content_info_encoding(kind, signed_data),
                    "content info: "@,
                ),
            },
        },
    }
}

fn version_der() -> (version: Vec<u8>)
    ensures
        version@ == version_one(),
{
    let mut version: Vec<u8> = Vec::new();
    version.push(2);
    version.push(1);
    version.push(1);
    assert(version@ =~= version_one());
    version
}

fn wrap(digest_algorithm: &[u8], certificates: &[u8], signer_info: &[u8]) -> (der: Result<
    Vec<u8>,
    SigningError,
>)
    ensures
        bytes_outcome(der) == wrapped(
            digest_algorithm@,
            certificates@,
            signer_info@,
        ),
{
    proof {
        lemma_attribute_oids();
    }
    let data = match oid_der("1.2.840.113549.1.7.1") {
        Ok(data) => data,
        Err(reason) => return Err(der_error("object identifier: ", reason.as_str())),
    };
    let version = version_der();
    let signed_data = match signed_data_der(
        version.as_slice(),
        digest_algorithm,
        data.as_slice(),
        certificates,
        signer_info,
    ) {
        Ok(der) => der,
        Err(reason) => return Err(der_error("signed data: ", reason.as_str())),
    };
    let kind = match oid_der("1.2.840.113549.1.7.2") {
        Ok(kind) => kind,
        Err(reason) => return Err(der_error("object identifier: ", reason.as_str())),
    };
    or_error(content_info_der(kind.as_slice(), signed_data.as_slice()), "content info: ")
}

/// Assembles a signature with everything that goes with it.
pub fn assemble(
    credential: &Credential,
    mechanism: SigningMechanism,
    embed_roots: bool,
    signed_attrs: SignedAttributes,
    signature_bytes: Vec<u8>,
) -> (der: Result<Vec<u8>, SigningError>)
    ensures
        bytes_outcome(der) == assembled(
            credential@,
            mechanism,
            embed_roots,
            signed_attrs@,
            signature_bytes@,
        ),
{
    proof {
        lemma_digest_oids(mechanism.digest());
    }
    let certificates = collect_certificates(credential, embed_roots);
    let set = match certificate_set_der(certificates.as_slice()) {
        Ok(der) => der,
        Err(reason) => return Err(der_error("certificate set: ", reason.as_str())),
    };
    let digest_algorithm = match encode_algorithm(mechanism.digest_algorithm().oid(), true) {
        Ok(der) => der,
        Err(error) => return Err(error),
    };
    let algorithm = match signature_algorithm_identifier(mechanism) {
        Ok(der) => der,
        Err(error) => return Err(error),
    };
    let mut signer = copy_bytes(credential.signer().issuer.as_slice());
    push_bytes(&mut signer, credential.signer().serial.as_slice());
    let signer = encode(SEQUENCE, signer.as_slice());
    let version = version_der();
    let info = match signer_info_der(
        version.as_slice(),
        signer.as_slice(),
        digest_algorithm.as_slice(),
        signed_attrs.der.as_slice(),
        algorithm.as_slice(),
        signature_bytes.as_slice(),
    ) {
        Ok(der) => der,
        Err(reason) => return Err(der_error("signer infos: ", reason.as_str())),
    };
    wrap(digest_algorithm.as_slice(), set.as_slice(), info.as_slice())
}

/// What an RSA key answers that does not sign in few steps.
pub open spec fn unbalanced() -> KeyFault {
    KeyFault::Refused("the prime factors of the key differ too much in size"@)
}

/// What a key signs a message with, and what its failure is called. An RSA key
/// whose prime factors differ too much in size is refused.
pub open spec fn raw_signature(key: Seq<u8>, message: Seq<u8>, mechanism: SigningMechanism) -> (
    Result<Seq<u8>, KeyFault>,
    Seq<char>,
) {
    if mechanism.is_rsa() && !signs_soon(key) {
        (Err(unbalanced()), "RSA"@)
    } else {
        signed_by(key, message, mechanism)
    }
}

/// What a key that signs in few steps signs a message with.
pub open spec fn signed_by(key: Seq<u8>, message: Seq<u8>, mechanism: SigningMechanism) -> (
    Result<Seq<u8>, KeyFault>,
    Seq<char>,
) {
    match mechanism {
        SigningMechanism::Rsa2048Sha256 => (rsa_sha256_signature(key, message), "RSA"@),
        SigningMechanism::Rsa3072Sha384 => (rsa_sha384_signature(key, message), "RSA"@),
        SigningMechanism::Rsa4096Sha512 => (rsa_sha512_signature(key, message), "RSA"@),
        SigningMechanism::EcdsaP256Sha256 => (p256_signature(key, message), "P-256"@),
        SigningMechanism::EcdsaP384Sha384 => (p384_signature(key, message), "P-384"@),
        _ => (ed25519_signature(key, message), "Ed25519"@),
    }
}

/// The signature of a message under a mechanism. P-521 keys cannot be used yet.
pub open spec fn signature_of(key: Seq<u8>, message: Seq<u8>, mechanism: SigningMechanism) -> Result<
    Seq<u8>,
    SigningFault,
> {
    if mechanism == SigningMechanism::EcdsaP521Sha512 {
        Err(
            SigningFault::UnsupportedKeyAlgorithm(
                "P-521 key parsing deferred (see mechanism.rs)"@,
            ),
        )
    } else {
        match raw_signature(key, message, mechanism) {
            (Ok(signature), _) => Ok(signature),
            (Err(KeyFault::Unreadable(reason)), name) => Err(
                SigningFault::SignatureOperationFailed(
                    "Failed to parse "@ + name + " key: "@ + reason,
                ),
            ),
            (Err(KeyFault::Refused(reason)), name) => Err(
                SigningFault::SignatureOperationFailed(name + " signature failed: "@ + reason),
            ),
        }
    }
}

fn signature_or_error(result: Result<Vec<u8>, KeyFailure>, name: &str) -> (signature: Result<
    Vec<u8>,
    SigningError,
>)
    ensures
        bytes_outcome(signature) == match signature_outcome(result) {
            Ok(bytes) => Ok::<Seq<u8>, SigningFault>(bytes),
            Err(KeyFault::Unreadable(reason)) => Err(
                SigningFault::SignatureOperationFailed(
                    "Failed to parse "@ + name@ + " key: "@ + reason,
                ),
            ),
            Err(KeyFault::Refused(reason)) => Err(
                SigningFault::SignatureOperationFailed(name@ + " signature failed: "@ + reason),
            ),
        },
{
    match result {
        Ok(signature) => Ok(signature),
        Err(KeyFailure::Unreadable(reason)) => {
            let mut text = owned("Failed to parse ");
            push_str(&mut text, name);
            push_str(&mut text, " key: ");
            push_str(&mut text, reason.as_str());
            Err(SigningError::SignatureOperationFailed(text))
        },
        Err(KeyFailure::Refused(reason)) => {
            let mut text = owned(name);
            push_str(&mut text, " signature failed: ");
            push_str(&mut text, reason.as_str());
            Err(SigningError::SignatureOperationFailed(text))
        },
    }
}

fn is_rsa_mechanism(mechanism: SigningMechanism) -> (rsa: bool)
    ensures
        rsa == mechanism.is_rsa(),
{
    matches!(
        mechanism,
        SigningMechanism::Rsa2048Sha256 | SigningMechanism::Rsa3072Sha384
        | SigningMechanism::Rsa4096Sha512
    )
}

/// Signs the encoded attributes with the key of a credential. The key digests
/// them itself.
pub fn sign_tbs(credential: &Credential, tbs: &[u8], mechanism: SigningMechanism) -> (signature:
    Result<Vec<u8>, SigningError>)
    ensures
        bytes_outcome(signature) == signature_of(credential@.key, tbs@, mechanism),
{
    let key = credential.private_key_der();
    if is_rsa_mechanism(mechanism) {
        if let Some(primes) = read_rsa_primes(key) {
            if !balanced_primes(primes.as_slice()) {
                let refusal = KeyFailure::Refused(
                    owned("the prime factors of the key differ too much in size"),
                );
                return signature_or_error(Err(refusal), "RSA");
            }
        }
    }
    match mechanism {
        SigningMechanism::Rsa2048Sha256 => signature_or_error(sign_rsa_sha256(key, tbs), "RSA"),
        SigningMechanism::Rsa3072Sha384 => signature_or_error(sign_rsa_sha384(key, tbs), "RSA"),
        SigningMechanism::Rsa4096Sha512 => signature_or_error(sign_rsa_sha512(key, tbs), "RSA"),
        SigningMechanism::EcdsaP256Sha256 => signature_or_error(sign_p256(key, tbs), "P-256"),
        SigningMechanism::EcdsaP384Sha384 => signature_or_error(sign_p384(key, tbs), "P-384"),
        SigningMechanism::EcdsaP521Sha512 => Err(
            SigningError::UnsupportedKeyAlgorithm {
                algorithm: owned("P-521 key parsing deferred (see mechanism.rs)"),
            },
        ),
        SigningMechanism::Ed25519 => signature_or_error(sign_ed25519(key, tbs), "Ed25519"),
    }
}

/// The most bytes that a signature under a mechanism can have: as many as the
/// modulus of an RSA key, and for an elliptic curve two numbers of the size of
/// a coordinate with what DER adds to them.
pub open spec fn longest_signature(mechanism: SigningMechanism, key: PublicKeyInfo) -> nat {
    match mechanism {
        SigningMechanism::EcdsaP256Sha256 => 2 * 32 + 9,
        SigningMechanism::EcdsaP384Sha384 => 2 * 48 + 9,
        SigningMechanism::EcdsaP521Sha512 => 2 * 66 + 9,
        SigningMechanism::Ed25519 => 64,
        _ => match key.size() {
            Some(bits) => ((bits + 7) / 8) as nat,
            None => 256,
        },
    }
}

/// The most bytes that a signature under a mechanism can have.
pub fn max_signature_len(mechanism: SigningMechanism, key_info: &PublicKeyInfo) -> (length: usize)
    ensures
        length == longest_signature(mechanism, *key_info),
{
    match mechanism {
        SigningMechanism::Rsa2048Sha256
        | SigningMechanism::Rsa3072Sha384
        | SigningMechanism::Rsa4096Sha512 => {
            let bits: usize = match key_info.bits() {
                Some(bits) => bits,
                None => 2048,
            };
            if bits % 8 == 0 {
                bits / 8
            } else {
                bits / 8 + 1
            }
        },
        SigningMechanism::EcdsaP256Sha256 => 2 * 32 + 9,
        SigningMechanism::EcdsaP384Sha384 => 2 * 48 + 9,
        SigningMechanism::EcdsaP521Sha512 => 2 * 66 + 9,
        SigningMechanism::Ed25519 => 64,
    }
}

/// The signature of a document by its digest.
pub open spec fn cms_of(
    credential: CredentialFacts,
    digest: Seq<u8>,
    profile: SigningProfile,
    embed_roots: bool,
    requested: Option<DigestAlgorithm>,
    signing_time: Option<i64>,
) -> Result<Seq<u8>, SigningFault> {
    match mechanism_for(credential.key_info, requested) {
        Err(fault) => Err(fault),
        Ok(mechanism) => match signed_attributes_of(
            credential.signer,
            digest,
            profile,
            signing_time,
        ) {
            Err(fault) => Err(fault),
            Ok(attributes) => match signature_of(credential.key, attributes, mechanism) {
                Err(fault) => Err(fault),
                Ok(signature) => assembled(
                    credential,
                    mechanism,
                    embed_roots,
                    attributes,
                    signature,
                ),
            },
        },
    }
}

/// Signs a document by its digest.
pub fn build_cms(
    credential: &Credential,
    document_digest: &[u8],
    profile: SigningProfile,
    embed_roots: bool,
    requested_digest: Option<DigestAlgorithm>,
    signing_time: Option<i64>,
) -> (cms: Result<Vec<u8>, SigningError>)
    ensures
        bytes_outcome(cms) == cms_of(
            credential@,
            document_digest@,
            profile,
            embed_roots,
            requested_digest,
            signing_time,
        ),
{
    let mechanism = match select_mechanism(&credential.key_info(), requested_digest) {
        Ok(mechanism) => mechanism,
        Err(error) => return Err(error),
    };
    let attributes = match build_signed_attributes(
        credential,
        document_digest,
        profile,
        signing_time,
    ) {
        Ok(attributes) => attributes,
        Err(error) => return Err(error),
    };
    let tbs = match signed_attrs_tbs(&attributes) {
        Ok(tbs) => tbs,
        Err(error) => return Err(error),
    };
    let signature = match sign_tbs(credential, tbs.as_slice(), mechanism) {
        Ok(signature) => signature,
        Err(error) => return Err(error),
    };
    assemble(credential, mechanism, embed_roots, attributes, signature)
}

/// How many hexadecimal digits to reserve for a signature of this many bytes:
/// two to the byte, and half as many again unless the estimate is to be tight.
pub open spec fn reservation(length: nat, tight: bool) -> nat {
    if tight {
        2 * length
    } else {
        2 * length + (length / 2) * 2
    }
}

/// A reservation holds whole bytes, and a signature of the size it was made for
/// fits it.
pub proof fn law_a_reservation_holds_the_signature(length: nat, tight: bool)
    ensures
        reservation(length, tight) % 2 == 0,
        2 * length <= reservation(length, tight),
        tight ==> reservation(length, tight) == 2 * length,
        !tight ==> 3 * length - 1 <= reservation(length, tight) <= 3 * length,
{
}

/// The signature of a document whose digest is not known: zeros stand for the
/// digest and for the signature.
pub open spec fn dry_run(
    credential: CredentialFacts,
    digest_len: nat,
    profile: SigningProfile,
    embed_roots: bool,
    signing_time: Option<i64>,
) -> Result<Seq<u8>, SigningFault> {
    match mechanism_for(credential.key_info, None) {
        Err(fault) => Err(fault),
        Ok(mechanism) => match signed_attributes_of(
            credential.signer,
            repeated(0, digest_len),
            profile,
            signing_time,
        ) {
            Err(fault) => Err(fault),
            Ok(attributes) => assembled(
                credential,
                mechanism,
                embed_roots,
                attributes,
                repeated(0, longest_signature(mechanism, credential.key_info)),
            ),
        },
    }
}

/// Estimates how many hexadecimal digits a signature needs.
pub fn estimate_cms_size(
    credential: &Credential,
    document_digest: &[u8],
    profile: SigningProfile,
    embed_roots: bool,
    tight_size_estimates: bool,
    signing_time: Option<i64>,
) -> (size: Result<usize, SigningError>)
    ensures
        match dry_run(credential@, document_digest@.len(), profile, embed_roots, signing_time) {
            Err(fault) => size matches Err(error) && error@ == fault,
            Ok(cms) => if cms.len() <= usize::MAX / 3 {
                size == Ok::<usize, SigningError>(
                    reservation(cms.len(), tight_size_estimates) as usize,
                )
            } else {
                size matches Err(error) && error@ == SigningFault::CmsConstructionFailed(
                    "the signature is too large to reserve"@,
                )
            },
        },
{
    let mechanism = match select_mechanism(&credential.key_info(), None) {
        Ok(mechanism) => mechanism,
        Err(error) => return Err(error),
    };
    let mut zeros: Vec<u8> = Vec::new();
    push_repeated(&mut zeros, 0, document_digest.len());
    assert(zeros@ =~= repeated(0, document_digest@.len()));
    let attributes = match build_signed_attributes(
        credential,
        zeros.as_slice(),
        profile,
        signing_time,
    ) {
        Ok(attributes) => attributes,
        Err(error) => return Err(error),
    };
    let mut placeholder: Vec<u8> = Vec::new();
    let longest: usize = max_signature_len(mechanism, &credential.key_info());
    push_repeated(&mut placeholder, 0, longest);
    assert(placeholder@ =~= repeated(0, longest as nat));
    let cms = match assemble(credential, mechanism, embed_roots, attributes, placeholder) {
        Ok(cms) => cms,
        Err(error) => return Err(error),
    };
    let length: usize = cms.len();
    if length > usize::MAX / 3 {
        return Err(
            SigningError::CmsConstructionFailed(owned("the signature is too large to reserve")),
        );
    }
    if tight_size_estimates {
        Ok(2 * length)
    } else {
        Ok(2 * length + (length / 2) * 2)
    }
}

/// The digest that signatures with a credential are made over.
pub fn digest_algorithm_for(credential: &Credential) -> (digest: Result<
    DigestAlgorithm,
    SigningError,
>)
    ensures
        match mechanism_for(credential@.key_info, None) {
            Ok(mechanism) => digest == Ok::<DigestAlgorithm, SigningError>(mechanism.digest()),
            Err(fault) => digest matches Err(error) && error@ == fault,
        },
{
    match select_mechanism(&credential.key_info(), None) {
        Ok(mechanism) => Ok(mechanism.digest_algorithm()),
        Err(error) => Err(error),
    }
}

/// The certificates of a chain that go into a signature are those that are
/// wanted, in the order of the chain.
pub proof fn law_the_chain_keeps_its_order(chain: Seq<CertificateFacts>, embed_roots: bool, n: nat)
    requires
        n <= chain.len(),
    ensures
        embedded_chain(chain, embed_roots, n) == chain.take(n as int).filter(
            |certificate: CertificateFacts|
                embed_roots || certificate.issuer != certificate.subject,
        ).map_values(|certificate: CertificateFacts| certificate.der),
    decreases n,
{
    let wanted = |certificate: CertificateFacts|
        embed_roots || certificate.issuer != certificate.subject;
    let encoded = |certificate: CertificateFacts| certificate.der;
    reveal(Seq::filter);
    if n > 0 {
        law_the_chain_keeps_its_order(chain, embed_roots, (n - 1) as nat);
        let all = chain.take(n as int);
        let last = chain[n - 1];
        assert(all.drop_last() =~= chain.take(n - 1));
        assert(all.last() == last);
        let before = all.drop_last().filter(wanted);
        if wanted(last) {
            assert(all.filter(wanted) =~= before.push(last));
            assert(before.push(last).map_values(encoded) =~= before.map_values(encoded).push(
                encoded(last),
            ));
        } else {
            assert(all.filter(wanted) =~= before);
        }
        assert(embedded_chain(chain, embed_roots, n) =~= all.filter(wanted).map_values(encoded));
    } else {
        assert(chain.take(0).filter(wanted) =~= Seq::empty());
        assert(embedded_chain(chain, embed_roots, n) =~= chain.take(0).filter(wanted).map_values(
            encoded,
        ));
    }
}

/// Only the profile that carries the time of signing states a moment, and it is
/// the one that was given, or the first where that is before it.
pub proof fn law_one_profile_states_the_moment(profile: SigningProfile, signing_time: Option<i64>)
    ensures
        stated_moment(profile, signing_time) is Some <==> profile
            == SigningProfile::AdbePkcs7Detached && signing_time is Some,
        stated_moment(profile, signing_time) matches Some(moment) ==> moment
            >= signing_time.unwrap() && (moment == 0 || moment == signing_time.unwrap()),
{
}

/// Which digest an RSA signature is made with does not show in its algorithm,
/// only in that of the digest.
pub proof fn law_rsa_signatures_are_named_alike(one: SigningMechanism, other: SigningMechanism)
    requires
        one.is_rsa(),
        other.is_rsa(),
    ensures
        signature_algorithm(one) == signature_algorithm(other),
        one.digest() == other.digest() ==> one == other,
{
}

/// No signature needs more than the most that is counted for it: one by an elliptic
/// curve is a sequence of two numbers, each as long as a coordinate with at most one
/// byte before it, and one by an RSA key has as many bits as the key, in whole bytes.
pub proof fn law_no_signature_is_longer(
    mechanism: SigningMechanism,
    key: PublicKeyInfo,
    coordinate: nat,
    one: Seq<u8>,
    two: Seq<u8>,
)
    requires
        one.len() <= coordinate + 1,
        two.len() <= coordinate + 1,
    ensures
        mechanism == SigningMechanism::EcdsaP256Sha256 && coordinate * 8 == 256 ==> tlv(
            SEQUENCE,
            tlv(2, one) + tlv(2, two),
        ).len() <= longest_signature(mechanism, key),
        mechanism == SigningMechanism::EcdsaP384Sha384 && coordinate * 8 == 384 ==> tlv(
            SEQUENCE,
            tlv(2, one) + tlv(2, two),
        ).len() <= longest_signature(mechanism, key),
        mechanism == SigningMechanism::EcdsaP521Sha512 && coordinate == 66 ==> tlv(
            SEQUENCE,
            tlv(2, one) + tlv(2, two),
        ).len() <= longest_signature(mechanism, key),
        mechanism.is_rsa() ==> (key matches PublicKeyInfo::Rsa { bits } ==> bits
            <= longest_signature(mechanism, key) * 8 < bits + 8),
{
    if coordinate <= 66 {
        let parts = tlv(2, one) + tlv(2, two);
        assert(parts.len() == one.len() + two.len() + 4);
        if parts.len() >= 128 {
            assert(big_endian(parts.len()).len() == 1);
        }
        assert(tlv(SEQUENCE, parts).len() <= parts.len() + 3);
        assert(parts.len() < 128 ==> tlv(SEQUENCE, parts).len() == parts.len() + 2);
    }
}

/// The certificate of the signer comes before those of the chain, whatever of the
/// chain goes into a signature.
pub proof fn law_the_signers_certificate_comes_first(
    credential: CredentialFacts,
    embed_roots: bool,
)
    ensures
        embedded_certificates(credential, embed_roots)[0] == credential.signer.der,
        embedded_certificates(credential, embed_roots).drop_first() == embedded_chain(
            credential.chain,
            embed_roots,
            credential.chain.len(),
        ),
{
    assert(embedded_certificates(credential, embed_roots).drop_first() =~= embedded_chain(
        credential.chain,
        embed_roots,
        credential.chain.len(),
    ));
}

} // verus!
