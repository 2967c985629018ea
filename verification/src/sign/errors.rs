//! What can go wrong when a signature is made.

use crate::text::{decimal_text, owned, push_decimal, push_str};
use vstd::prelude::*;

verus! {

/// Why a signature could not be made. The document is unchanged in each case.
#[derive(Debug, Clone, PartialEq, Eq)]
pub enum SigningError {
    KeyLoadFailed(String),
    WrongPassphrase,
    UnsupportedKeyAlgorithm { algorithm: String },
    DigestMechanismMismatch { implied: String, requested: String },
    CmsConstructionFailed(String),
    SignatureTooLarge { reserved: usize, required: usize },
    InvalidCertificate(String),
    DerEncodingFailed(String),
    SignatureOperationFailed(String),
}

/// What a [`SigningError`] says.
pub enum SigningFault {
    KeyLoadFailed(Seq<char>),
    WrongPassphrase,
    UnsupportedKeyAlgorithm(Seq<char>),
    DigestMechanismMismatch { implied: Seq<char>, requested: Seq<char> },
    CmsConstructionFailed(Seq<char>),
    SignatureTooLarge { reserved: nat, required: nat },
    InvalidCertificate(Seq<char>),
    DerEncodingFailed(Seq<char>),
    SignatureOperationFailed(Seq<char>),
}

impl View for SigningError {
    type V = SigningFault;

    open spec fn view(&self) -> SigningFault {
        match *self {
            SigningError::KeyLoadFailed(reason) => SigningFault::KeyLoadFailed(reason@),
            SigningError::WrongPassphrase => SigningFault::WrongPassphrase,
            SigningError::UnsupportedKeyAlgorithm { algorithm } =>
                SigningFault::UnsupportedKeyAlgorithm(algorithm@),
            SigningError::DigestMechanismMismatch { implied, requested } =>
                SigningFault::DigestMechanismMismatch { implied: implied@, requested: requested@ },
            SigningError::CmsConstructionFailed(reason) => SigningFault::CmsConstructionFailed(
                reason@,
            ),
            SigningError::SignatureTooLarge { reserved, required } =>
                SigningFault::SignatureTooLarge {
                reserved: reserved as nat,
                required: required as nat,
            },
            SigningError::InvalidCertificate(reason) => SigningFault::InvalidCertificate(reason@),
            SigningError::DerEncodingFailed(reason) => SigningFault::DerEncodingFailed(reason@),
            SigningError::SignatureOperationFailed(reason) =>
                SigningFault::SignatureOperationFailed(reason@),
        }
    }
}

/// A fault as a sentence.
pub open spec fn signing_sentence(fault: SigningFault) -> Seq<char> {
    match fault {
        SigningFault::KeyLoadFailed(reason) => "Could not load PKCS#12 credential: "@ + reason,
        SigningFault::WrongPassphrase => "Wrong passphrase for PKCS#12 credential"@,
        SigningFault::UnsupportedKeyAlgorithm(algorithm) => "Unsupported key algorithm: "@
            + algorithm,
        SigningFault::DigestMechanismMismatch { implied, requested } =>
            "Digest mechanism mismatch: algorithm implies "@ + implied + " but "@ + requested
            + " was requested"@,
        SigningFault::CmsConstructionFailed(reason) => "CMS construction failed: "@ + reason,
        SigningFault::SignatureTooLarge { reserved, required } => "Signature too large: reserved "@
            + decimal_text(reserved) + " bytes but need "@ + decimal_text(required),
        SigningFault::InvalidCertificate(reason) => "Invalid certificate: "@ + reason,
        SigningFault::DerEncodingFailed(reason) => "DER encoding failed: "@ + reason,
        SigningFault::SignatureOperationFailed(reason) => "Signature operation failed: "@ + reason,
    }
}

fn sentence_of(start: &str, reason: &str) -> (text: String)
    ensures
        text@ == start@ + reason@,
{
    let mut text = owned(start);
    push_str(&mut text, reason);
    text
}

impl SigningError {
    /// The error as a sentence.
    pub fn message(&self) -> (text: String)
        ensures
            text@ == signing_sentence(self@),
    {
        match self {
            SigningError::KeyLoadFailed(reason) => sentence_of(
                "Could not load PKCS#12 credential: ",
                reason.as_str(),
            ),
            SigningError::WrongPassphrase => owned("Wrong passphrase for PKCS#12 credential"),
            SigningError::UnsupportedKeyAlgorithm { algorithm } => sentence_of(
                "Unsupported key algorithm: ",
                algorithm.as_str(),
            ),
            SigningError::DigestMechanismMismatch { implied, requested } => {
                let mut text = owned("Digest mechanism mismatch: algorithm implies ");
                push_str(&mut text, implied.as_str());
                push_str(&mut text, " but ");
                push_str(&mut text, requested.as_str());
                push_str(&mut text, " was requested");
                text
            },
            SigningError::CmsConstructionFailed(reason) => sentence_of(
                "CMS construction failed: ",
                reason.as_str(),
            ),
            SigningError::SignatureTooLarge { reserved, required } => {
                let mut text = owned("Signature too large: reserved ");
                push_decimal(&mut text, *reserved as u64);
                push_str(&mut text, " bytes but need ");
                push_decimal(&mut text, *required as u64);
                text
            },
            SigningError::InvalidCertificate(reason) => sentence_of(
                "Invalid certificate: ",
                reason.as_str(),
            ),
            SigningError::DerEncodingFailed(reason) => sentence_of(
                "DER encoding failed: ",
                reason.as_str(),
            ),
            SigningError::SignatureOperationFailed(reason) => sentence_of(
                "Signature operation failed: ",
                reason.as_str(),
            ),
        }
    }
}

} // verus!
