//! Credentials: a certificate, its chain, and the key that goes with it.

use crate::bytes::copy_bytes;
use crate::sign::digest::{hex_text, lower_hex, sha256_of, sha256_spans};
use crate::sign::errors::{SigningError, SigningFault};
use crate::text::{owned, push_str, same_text};
use der::{Decode, Encode};
use pkcs8::DecodePrivateKey;
use rsa::traits::PublicKeyParts;
use vstd::prelude::*;

verus! {

/// What kind of key a credential has.
#[derive(Debug, Clone, Copy, PartialEq, Eq, Structural)]
pub enum PublicKeyInfo {
    Rsa { bits: usize },
    EcP256,
    EcP384,
    EcP521,
    Ed25519,
}

impl PublicKeyInfo {
    /// The size of the key in bits, where it has one.
    pub open spec fn size(self) -> Option<usize> {
        match self {
            PublicKeyInfo::Rsa { bits } => Some(bits),
            PublicKeyInfo::EcP256 => Some(256),
            PublicKeyInfo::EcP384 => Some(384),
            PublicKeyInfo::EcP521 => Some(521),
            PublicKeyInfo::Ed25519 => None,
        }
    }

    /// What the key is called.
    pub open spec fn label(self) -> Seq<char> {
        match self {
            PublicKeyInfo::Rsa { .. } => "RSA"@,
            PublicKeyInfo::EcP256 => "EC P-256"@,
            PublicKeyInfo::EcP384 => "EC P-384"@,
            PublicKeyInfo::EcP521 => "EC P-521"@,
            PublicKeyInfo::Ed25519 => "Ed25519"@,
        }
    }

    /// The size of the key in bits, where it has one.
    pub fn bits(&self) -> (bits: Option<usize>)
        ensures
            bits == self.size(),
    {
        match self {
            PublicKeyInfo::Rsa { bits } => Some(*bits),
            PublicKeyInfo::EcP256 => Some(256),
            PublicKeyInfo::EcP384 => Some(384),
            PublicKeyInfo::EcP521 => Some(521),
            PublicKeyInfo::Ed25519 => None,
        }
    }

    /// What the key is called.
    pub fn key_type_name(&self) -> (name: &'static str)
        ensures
            name@ == self.label(),
    {
        match self {
            PublicKeyInfo::Rsa { .. } => "RSA",
            PublicKeyInfo::EcP256 => "EC P-256",
            PublicKeyInfo::EcP384 => "EC P-384",
            PublicKeyInfo::EcP521 => "EC P-521",
            PublicKeyInfo::Ed25519 => "Ed25519",
        }
    }
}

/// What a certificate says.
#[derive(Debug, Clone, PartialEq, Eq)]
pub struct CertificateRecord {
    /// The certificate in DER.
    pub der: Vec<u8>,
    /// The distinguished name of the issuer in DER.
    pub issuer: Vec<u8>,
    /// The distinguished name of the subject in DER.
    pub subject: Vec<u8>,
    /// The serial number as a DER integer.
    pub serial: Vec<u8>,
    /// The bytes of the serial number.
    pub serial_bytes: Vec<u8>,
    pub subject_text: String,
    pub issuer_text: String,
    pub not_before: String,
    pub not_after: String,
}

/// What a certificate says, by its value.
pub struct CertificateFacts {
    pub der: Seq<u8>,
    pub issuer: Seq<u8>,
    pub subject: Seq<u8>,
    pub serial: Seq<u8>,
    pub serial_bytes: Seq<u8>,
    pub subject_text: Seq<char>,
    pub issuer_text: Seq<char>,
    pub not_before: Seq<char>,
    pub not_after: Seq<char>,
}

impl View for CertificateRecord {
    type V = CertificateFacts;

    open spec fn view(&self) -> CertificateFacts {
        CertificateFacts {
            der: self.der@,
            issuer: self.issuer@,
            subject: self.subject@,
            serial: self.serial@,
            serial_bytes: self.serial_bytes@,
            subject_text: self.subject_text@,
            issuer_text: self.issuer_text@,
            not_before: self.not_before@,
            not_after: self.not_after@,
        }
    }
}

/// What `x509_cert::Certificate::from_der` reads from a byte string: the fields
/// of the certificate, or its error as text.
pub uninterp spec fn certificate_of(der: Seq<u8>) -> Result<CertificateFacts, Seq<char>>;

/// `x509_cert::Certificate::from_der`, with the fields that are used here
/// encoded again or as text.
#[verifier::external_body]
pub(crate) fn read_certificate(bytes: &[u8]) -> (record: Result<CertificateRecord, String>)
    ensures
        match record {
            Ok(found) => certificate_of(bytes@) == Ok::<CertificateFacts, Seq<char>>(found@),
            Err(reason) => certificate_of(bytes@) == Err::<CertificateFacts, Seq<char>>(reason@),
        },
{
    let certificate = x509_cert::Certificate::from_der(bytes).map_err(|e| e.to_string())?;
    let fields = &certificate.tbs_certificate;
    Ok(CertificateRecord {
        der: certificate.to_der().map_err(|e| e.to_string())?,
        issuer: fields.issuer.to_der().map_err(|e| e.to_string())?,
        subject: fields.subject.to_der().map_err(|e| e.to_string())?,
        serial: fields.serial_number.to_der().map_err(|e| e.to_string())?,
        serial_bytes: fields.serial_number.as_bytes().to_vec(),
        subject_text: fields.subject.to_string(),
        issuer_text: fields.issuer.to_string(),
        not_before: fields.validity.not_before.to_string(),
        not_after: fields.validity.not_after.to_string(),
    })
}

/// The algorithm that `pkcs8::PrivateKeyInfo::from_der` reads from a private
/// key: its object identifier, and the one that stands as its parameter if one
/// does; or the error as text.
pub uninterp spec fn key_algorithm_of(key: Seq<u8>) -> Result<
    (Seq<char>, Option<Seq<char>>),
    Seq<char>,
>;

/// `pkcs8::PrivateKeyInfo::from_der`, and the algorithm of the key.
#[verifier::external_body]
pub(crate) fn read_key_algorithm(key: &[u8]) -> (algorithm: Result<(String, Option<String>), String>)
    ensures
        match algorithm {
            Ok((oid, Some(parameter))) => key_algorithm_of(key@) == Ok::<
                (Seq<char>, Option<Seq<char>>),
                Seq<char>,
            >((oid@, Some(parameter@))),
            Ok((oid, None)) => key_algorithm_of(key@) == Ok::<
                (Seq<char>, Option<Seq<char>>),
                Seq<char>,
            >((oid@, None)),
            Err(reason) => key_algorithm_of(key@) == Err::<
                (Seq<char>, Option<Seq<char>>),
                Seq<char>,
            >(reason@),
        },
{
    let info = pkcs8::PrivateKeyInfo::from_der(key).map_err(|e| e.to_string())?;
    let parameter = info.algorithm.parameters_oid().ok().map(|oid| oid.to_string());
    Ok((info.algorithm.oid.to_string(), parameter))
}

/// How many bytes the modulus of an RSA key has, where
/// `rsa::RsaPrivateKey::from_pkcs8_der` reads the key.
pub uninterp spec fn rsa_modulus_len(key: Seq<u8>) -> Option<usize>;

/// `rsa::RsaPrivateKey::from_pkcs8_der`, and `size` of the key.
#[verifier::external_body]
pub(crate) fn read_rsa_modulus_len(key: &[u8]) -> (size: Option<usize>)
    ensures
        size == rsa_modulus_len(key@),
{
    rsa::RsaPrivateKey::from_pkcs8_der(key).ok().map(|key| key.size())
}

/// A certificate, its chain, and the key that goes with it.
pub struct Credential {
    pub signer_certificate: CertificateRecord,
    pub cert_chain: Vec<CertificateRecord>,
    key_material: Vec<u8>,
    pub public_key_info: PublicKeyInfo,
}

/// A credential, by its value.
pub struct CredentialFacts {
    pub signer: CertificateFacts,
    pub chain: Seq<CertificateFacts>,
    pub key: Seq<u8>,
    pub key_info: PublicKeyInfo,
}

/// Certificates, each by its value.
pub open spec fn certificate_views(records: Seq<CertificateRecord>) -> Seq<CertificateFacts> {
    records.map_values(|record: CertificateRecord| record@)
}

impl View for Credential {
    type V = CredentialFacts;

    closed spec fn view(&self) -> CredentialFacts {
        CredentialFacts {
            signer: self.signer_certificate@,
            chain: certificate_views(self.cert_chain@),
            key: self.key_material@,
            key_info: self.public_key_info,
        }
    }
}

/// The certificates of a chain that can be read, among the first `n`.
pub open spec fn readable_chain(chain: Seq<Seq<u8>>, n: nat) -> Seq<CertificateFacts>
    decreases n,
{
    if n == 0 {
        Seq::empty()
    } else {
        match certificate_of(chain[n - 1]) {
            Ok(facts) => readable_chain(chain, (n - 1) as nat).push(facts),
            Err(_) => readable_chain(chain, (n - 1) as nat),
        }
    }
}

/// The size of an RSA key in bits; 2048 when it cannot be read.
pub open spec fn rsa_bits(key: Seq<u8>) -> usize {
    match rsa_modulus_len(key) {
        Some(size) => if size * 8 <= usize::MAX {
            (size * 8) as usize
        } else {
            2048
        },
        None => 2048,
    }
}

/// The kind of key that an object identifier stands for, if it is one that
/// signatures are made with.
pub open spec fn key_kind(oid: Seq<char>, key: Seq<u8>) -> Option<PublicKeyInfo> {
    if oid == "1.2.840.113549.1.1.1"@ {
        Some(PublicKeyInfo::Rsa { bits: rsa_bits(key) })
    } else if oid == "1.2.840.10045.3.1.7"@ {
        Some(PublicKeyInfo::EcP256)
    } else if oid == "1.3.132.1.12.0"@ {
        Some(PublicKeyInfo::EcP384)
    } else if oid == "1.3.132.1.12.1"@ {
        Some(PublicKeyInfo::EcP521)
    } else if oid == "1.3.101.112"@ {
        Some(PublicKeyInfo::Ed25519)
    } else {
        None
    }
}

/// The kind of a private key: what its algorithm stands for, or, for an
/// elliptic-curve key whose parameter names P-256, that curve.
pub open spec fn private_key_kind(key: Seq<u8>) -> Result<PublicKeyInfo, SigningFault> {
    match key_algorithm_of(key) {
        Err(reason) => Err(SigningFault::InvalidCertificate("Invalid key: "@ + reason)),
        Ok((oid, parameter)) => {
            if oid == "1.2.840.10045.2.1"@ && parameter == Some("1.2.840.10045.3.1.7"@) {
                Ok(PublicKeyInfo::EcP256)
            } else {
                match key_kind(oid, key) {
                    Some(kind) => Ok(kind),
                    None => Err(SigningFault::UnsupportedKeyAlgorithm(oid)),
                }
            }
        },
    }
}

/// The credential that a certificate, a key and a chain make. What cannot be
/// read of the chain is left out.
pub open spec fn credential_of(cert: Seq<u8>, key: Seq<u8>, chain: Seq<Seq<u8>>) -> Result<
    CredentialFacts,
    SigningFault,
> {
    match certificate_of(cert) {
        Err(reason) => Err(SigningFault::InvalidCertificate("Invalid cert: "@ + reason)),
        Ok(signer) => match private_key_kind(key) {
            Err(fault) => Err(fault),
            Ok(key_info) => Ok(
                CredentialFacts {
                    signer,
                    chain: readable_chain(chain, chain.len()),
                    key,
                    key_info,
                },
            ),
        },
    }
}

/// What was made, or the fault.
pub open spec fn credential_outcome(result: Result<Credential, SigningError>) -> Result<
    CredentialFacts,
    SigningFault,
> {
    match result {
        Ok(credential) => Ok(credential@),
        Err(error) => Err(error@),
    }
}

fn kind_of(oid: &str, key: &[u8]) -> (kind: Option<PublicKeyInfo>)
    ensures
        kind == key_kind(oid@, key@),
{
    if same_text(oid, "1.2.840.113549.1.1.1") {
        let bits: usize = match read_rsa_modulus_len(key) {
            Some(size) => if size <= usize::MAX / 8 {
                size * 8
            } else {
                2048
            },
            None => 2048,
        };
        return Some(PublicKeyInfo::Rsa { bits });
    }
    if same_text(oid, "1.2.840.10045.3.1.7") {
        return Some(PublicKeyInfo::EcP256);
    }
    if same_text(oid, "1.3.132.1.12.0") {
        return Some(PublicKeyInfo::EcP384);
    }
    if same_text(oid, "1.3.132.1.12.1") {
        return Some(PublicKeyInfo::EcP521);
    }
    if same_text(oid, "1.3.101.112") {
        return Some(PublicKeyInfo::Ed25519);
    }
    None
}

/// The kind of a private key.
fn analyze_private_key(key: &[u8]) -> (kind: Result<PublicKeyInfo, SigningError>)
    ensures
        match kind {
            Ok(found) => private_key_kind(key@) == Ok::<PublicKeyInfo, SigningFault>(found),
            Err(error) => private_key_kind(key@) == Err::<PublicKeyInfo, SigningFault>(error@),
        },
{
    let (oid, parameter) = match read_key_algorithm(key) {
        Ok(algorithm) => algorithm,
        Err(reason) => {
            let mut text = owned("Invalid key: ");
            push_str(&mut text, reason.as_str());
            return Err(SigningError::InvalidCertificate(text));
        },
    };
    if let Some(curve) = parameter {
        if same_text(oid.as_str(), "1.2.840.10045.2.1") && same_text(
            curve.as_str(),
            "1.2.840.10045.3.1.7",
        ) {
            return Ok(PublicKeyInfo::EcP256);
        }
    }
    match kind_of(oid.as_str(), key) {
        Some(kind) => Ok(kind),
        None => Err(SigningError::UnsupportedKeyAlgorithm { algorithm: oid }),
    }
}

fn read_chain_certificates(chain: &[Vec<u8>]) -> (records: Vec<CertificateRecord>)
    ensures
        certificate_views(records@) == readable_chain(byte_strings(chain@), chain@.len()),
{
    let ghost ders = byte_strings(chain@);
    let mut records: Vec<CertificateRecord> = Vec::new();
    let mut i: usize = 0;
    assert(certificate_views(records@) =~= Seq::empty());
    while i < chain.len()
        invariant
            i <= chain@.len(),
            ders == byte_strings(chain@),
            certificate_views(records@) == readable_chain(ders, i as nat),
        decreases chain@.len() - i,
    {
        let ghost before = certificate_views(records@);
        assert(ders[i as int] == chain@[i as int]@);
        match read_certificate(chain[i].as_slice()) {
            Ok(record) => {
                let ghost facts = record@;
                records.push(record);
                assert(certificate_views(records@) =~= before.push(facts));
            },
            Err(_) => {},
        }
        i += 1;
    }
    records
}

/// Byte strings, each by its view.
pub open spec fn byte_strings(strings: Seq<Vec<u8>>) -> Seq<Seq<u8>> {
    strings.map_values(|string: Vec<u8>| string@)
}

/// Makes a credential of a certificate, a key and a chain, all in DER.
pub fn from_parts(cert_der: &[u8], key_der: &[u8], chain: Vec<Vec<u8>>) -> (credential: Result<
    Credential,
    SigningError,
>)
    ensures
        credential_outcome(credential) == credential_of(cert_der@, key_der@, byte_strings(chain@)),
{
    let signer_certificate = match read_certificate(cert_der) {
        Ok(record) => record,
        Err(reason) => {
            let mut text = owned("Invalid cert: ");
            push_str(&mut text, reason.as_str());
            return Err(SigningError::InvalidCertificate(text));
        },
    };
    let cert_chain = read_chain_certificates(chain.as_slice());
    let public_key_info = match analyze_private_key(key_der) {
        Ok(kind) => kind,
        Err(error) => return Err(error),
    };
    Ok(Credential { signer_certificate, cert_chain, key_material: copy_bytes(key_der), public_key_info })
}

/// What there is to show of a credential.
#[derive(Debug, Clone, PartialEq, Eq)]
pub struct CredentialSummary {
    pub subject: String,
    pub issuer: String,
    pub serial: String,
    pub not_before: String,
    pub not_after: String,
    pub sha256_fingerprint: String,
    pub key_algorithm: String,
    pub key_bits: Option<usize>,
}

impl CredentialSummary {
    /// Is this what there is to show of a credential?
    pub open spec fn describes(self, facts: CredentialFacts) -> bool {
        &&& self.subject@ == facts.signer.subject_text
        &&& self.issuer@ == facts.signer.issuer_text
        &&& self.serial@ == lower_hex(facts.signer.serial_bytes)
        &&& self.not_before@ == facts.signer.not_before
        &&& self.not_after@ == facts.signer.not_after
        &&& self.sha256_fingerprint@ == lower_hex(sha256_of(facts.signer.der))
        &&& self.key_algorithm@ == facts.key_info.label()
        &&& self.key_bits == facts.key_info.size()
    }
}

impl Credential {
    /// The private key in DER.
    pub(crate) fn private_key_der(&self) -> (key: &[u8])
        ensures
            key@ == self@.key,
    {
        self.key_material.as_slice()
    }

    /// The certificate of the signer.
    pub(crate) fn signer(&self) -> (record: &CertificateRecord)
        ensures
            record@ == self@.signer,
    {
        &self.signer_certificate
    }

    /// The certificates of the chain.
    pub(crate) fn chain(&self) -> (records: &[CertificateRecord])
        ensures
            certificate_views(records@) == self@.chain,
    {
        self.cert_chain.as_slice()
    }

    /// The kind of the key.
    pub(crate) fn key_info(&self) -> (kind: PublicKeyInfo)
        ensures
            kind == self@.key_info,
    {
        self.public_key_info
    }

    /// What there is to show of the credential.
    pub fn summary(&self) -> (summary: Result<CredentialSummary, SigningError>)
        ensures
            summary matches Ok(found) && found.describes(self@),
    {
        let signer = &self.signer_certificate;
        let nothing: Vec<u8> = Vec::new();
        let fingerprint = sha256_spans(signer.der.as_slice(), nothing.as_slice());
        assert(signer.der@ + nothing@ =~= signer.der@);
        Ok(
            CredentialSummary {
                subject: owned(signer.subject_text.as_str()),
                issuer: owned(signer.issuer_text.as_str()),
                serial: hex_text(signer.serial_bytes.as_slice()),
                not_before: owned(signer.not_before.as_str()),
                not_after: owned(signer.not_after.as_str()),
                sha256_fingerprint: hex_text(fingerprint.as_slice()),
                key_algorithm: owned(self.public_key_info.key_type_name()),
                key_bits: self.public_key_info.bits(),
            },
        )
    }
}

/// The certificates of a chain that can be read are kept in the order of the
/// chain, and the others are passed over.
pub proof fn law_the_readable_chain_keeps_its_order(chain: Seq<Seq<u8>>, n: nat)
    requires
        n <= chain.len(),
    ensures
        readable_chain(chain, n) == chain.take(n as int).filter(
            |der: Seq<u8>| certificate_of(der) is Ok,
        ).map_values(|der: Seq<u8>| certificate_of(der)->Ok_0),
    decreases n,
{
    let readable = |der: Seq<u8>| certificate_of(der) is Ok;
    let facts = |der: Seq<u8>| certificate_of(der)->Ok_0;
    reveal(Seq::filter);
    if n > 0 {
        law_the_readable_chain_keeps_its_order(chain, (n - 1) as nat);
        let all = chain.take(n as int);
        let last = chain[n - 1];
        assert(all.drop_last() =~= chain.take(n - 1));
        assert(all.last() == last);
        let before = all.drop_last().filter(readable);
        if readable(last) {
            assert(all.filter(readable) =~= before.push(last));
            assert(before.push(last).map_values(facts) =~= before.map_values(facts).push(
                facts(last),
            ));
        } else {
            assert(all.filter(readable) =~= before);
        }
        assert(readable_chain(chain, n) =~= all.filter(readable).map_values(facts));
    } else {
        assert(chain.take(0).filter(readable) =~= Seq::empty());
        assert(readable_chain(chain, n) =~= chain.take(0).filter(readable).map_values(facts));
    }
}

/// A credential holds the certificate and the key that it is made of, and of the
/// chain no more than what can be read; it is made only where the certificate can be
/// read and the key is of a kind that signs.
pub proof fn law_a_credential_holds_what_it_is_made_of(
    cert: Seq<u8>,
    key: Seq<u8>,
    chain: Seq<Seq<u8>>,
)
    ensures
        credential_of(cert, key, chain) is Ok <==> certificate_of(cert) is Ok && private_key_kind(
            key,
        ) is Ok,
        credential_of(cert, key, chain) matches Ok(made) ==> {
            &&& made.key == key
            &&& certificate_of(cert) == Ok::<CertificateFacts, Seq<char>>(made.signer)
            &&& private_key_kind(key) == Ok::<PublicKeyInfo, SigningFault>(made.key_info)
            &&& made.chain.len() <= chain.len()
            &&& forall|i: int|
                0 <= i < made.chain.len() ==> exists|k: int|
                    0 <= k < chain.len() && certificate_of(#[trigger] chain[k]) == Ok::<
                        CertificateFacts,
                        Seq<char>,
                    >(#[trigger] made.chain[i])
        },
{
    lemma_readable(chain, chain.len());
}

proof fn lemma_readable(chain: Seq<Seq<u8>>, n: nat)
    requires
        n <= chain.len(),
    ensures
        readable_chain(chain, n).len() <= n,
        forall|i: int|
            0 <= i < readable_chain(chain, n).len() ==> exists|k: int|
                0 <= k < chain.len() && certificate_of(#[trigger] chain[k]) == Ok::<
                    CertificateFacts,
                    Seq<char>,
                >(#[trigger] readable_chain(chain, n)[i]),
    decreases n,
{
    if n > 0 {
        lemma_readable(chain, (n - 1) as nat);
        let before = readable_chain(chain, (n - 1) as nat);
        let all = readable_chain(chain, n);
        assert forall|i: int| 0 <= i < all.len() implies exists|k: int|
            0 <= k < chain.len() && certificate_of(#[trigger] chain[k]) == Ok::<
                CertificateFacts,
                Seq<char>,
            >(#[trigger] all[i]) by {
            if i < before.len() {
                assert(all[i] == before[i]);
            } else {
                assert(certificate_of(chain[n - 1]) == Ok::<CertificateFacts, Seq<char>>(all[i]));
            }
        }
    }
}

} // verus!
