//! Why a document is not signed.

use crate::pdfwrite::error::PdfWriteError;
use crate::pdfwrite::writer::{append_reason, open_error, AppendRefusal, OpenRefusal};
use crate::sign::errors::{signing_sentence, SigningError, SigningFault};
use crate::text::{decimal_text, owned, push_decimal, push_str};
use vstd::prelude::*;

verus! {

/// Why a look at the document, before anything is written, refuses to sign it.
#[derive(Debug, Clone, PartialEq, Eq)]
pub enum PreflightRefusal {
    /// The document is encrypted, and nothing here writes encrypted objects.
    EncryptedDocument,
    /// The request cannot be carried out on this document.
    InvalidState(String),
    /// The field is signed already, or is locked, or an earlier signature
    /// allows no change; the sentence says which.
    Forbidden(String),
}

/// What a [`PreflightRefusal`] says.
pub enum PreflightFault {
    EncryptedDocument,
    InvalidState(Seq<char>),
    Forbidden(Seq<char>),
}

impl View for PreflightRefusal {
    type V = PreflightFault;

    open spec fn view(&self) -> PreflightFault {
        match *self {
            PreflightRefusal::EncryptedDocument => PreflightFault::EncryptedDocument,
            PreflightRefusal::InvalidState(detail) => PreflightFault::InvalidState(detail@),
            PreflightRefusal::Forbidden(detail) => PreflightFault::Forbidden(detail@),
        }
    }
}

/// Why the structure of a document cannot be followed.
#[derive(Debug, Clone, Copy, PartialEq, Eq, Structural)]
pub enum VerifyError {
    /// The cross-reference data cannot be read.
    NoCrossReferences,
    /// The trailer names no catalog.
    NoCatalog,
    /// No object of this number stands in the document.
    ObjectNotFound(u32),
}

impl VerifyError {
    /// The error as a sentence.
    pub open spec fn sentence(self) -> Seq<char> {
        match self {
            VerifyError::NoCrossReferences => "the cross-reference data cannot be read"@,
            VerifyError::NoCatalog => "the trailer names no catalog"@,
            VerifyError::ObjectNotFound(number) => "object "@ + decimal_text(number as nat)
                + " was not found"@,
        }
    }

    /// The error as a sentence.
    pub fn message(&self) -> (text: String)
        ensures
            text@ == self.sentence(),
    {
        match self {
            VerifyError::NoCrossReferences => owned("the cross-reference data cannot be read"),
            VerifyError::NoCatalog => owned("the trailer names no catalog"),
            VerifyError::ObjectNotFound(number) => {
                let mut text = owned("object ");
                push_decimal(&mut text, *number as u64);
                push_str(&mut text, " was not found");
                text
            },
        }
    }
}

/// Why a document was not signed.
#[derive(Debug, Clone, PartialEq, Eq)]
pub enum SignApplyError {
    /// A refusal from the look before, passed on unchanged.
    Refused(PreflightRefusal),
    /// A change that an append-only document does not allow.
    ContentChangeInAppendOnlyMode { detail: String },
    /// The signed document did not stand up to being read again.
    PostSignVerificationFailed { detail: String },
    Signing(SigningError),
    Write(PdfWriteError),
    Verify(VerifyError),
    Unsupported(String),
    Io { path: String, source: String },
}

/// Why a document is not signed, each reason by what decided it.
pub enum Refusal {
    Preflight(PreflightFault),
    /// A field cannot be added to a document with this many signatures.
    AlreadySigned(nat),
    /// The field to sign is not among the fields of the document.
    FieldNotLocated(Seq<char>),
    /// A field of that name is there already.
    NameTaken(Seq<char>),
    Structure(VerifyError),
    NotADictionary(nat),
    TooDeep,
    Malformed,
    NoPageTree,
    PageTreeTooDeep,
    /// An appearance was asked for on another page than the first.
    OtherPage(nat),
    Open(OpenRefusal),
    Append(AppendRefusal),
    ByteRangeMissing,
    ContentsMissing,
    OddReservation(nat),
    ReservationMoved,
    RangeTooWide(nat),
    /// The document has no object numbers left.
    NoNumbersLeft,
    Signing(SigningFault),
    /// The signed document did not stand up to being read again.
    NotVerified(Seq<char>),
}

/// The sentence of a refusal that is reported as unsupported.
pub open spec fn unsupported_sentence(refusal: Refusal) -> Option<Seq<char>> {
    match refusal {
        Refusal::FieldNotLocated(name) => Some(
            "signature field '"@ + name + "' could not be located"@,
        ),
        Refusal::NameTaken(name) => Some("a field named '"@ + name + "' already exists"@),
        Refusal::NotADictionary(number) => Some(
            "object "@ + decimal_text(number)
                + " is not a dictionary; this document cannot be signed by pulpit"@,
        ),
        Refusal::TooDeep => Some("value nesting too deep"@),
        Refusal::Malformed => Some("the document's object structure is malformed"@),
        Refusal::NoPageTree => Some("the catalog has no indirect /Pages tree"@),
        Refusal::PageTreeTooDeep => Some(
            "the page tree is deeper than 64 levels or contains a cycle"@,
        ),
        Refusal::OtherPage(index) => Some(
            "signature appearance requested on page_index "@ + decimal_text(index)
                + ", but only page_index 0 is currently supported for visible signature appearances"@,
        ),
        Refusal::ByteRangeMissing => Some("the /ByteRange placeholder went missing"@),
        Refusal::ContentsMissing => Some("the /Contents placeholder went missing"@),
        Refusal::ReservationMoved => Some(
            "the /Contents reservation is not the size it was written at"@,
        ),
        Refusal::NoNumbersLeft => Some("the document has no object numbers left"@),
        _ => None,
    }
}

/// Is this how a refusal is reported?
pub open spec fn reports(error: SignApplyError, refusal: Refusal) -> bool {
    match refusal {
        Refusal::Preflight(fault) => error matches SignApplyError::Refused(found) && found@
            == fault,
        Refusal::AlreadySigned(count) =>
            error matches SignApplyError::ContentChangeInAppendOnlyMode { detail } && detail@
            == "the document already carries "@ + decimal_text(count)
            + " signature(s); creating a signature field edits the AcroForm and a page's annotations, so only an existing empty field may be signed"@,
        Refusal::Structure(found) => error == SignApplyError::Verify(found),
        Refusal::Open(found) => error matches SignApplyError::Write(inner) && open_error(
            found,
            inner,
        ),
        Refusal::Append(found) =>
            error matches SignApplyError::Write(PdfWriteError::Unsupported(reason)) && reason@
            == append_reason(found),
        Refusal::OddReservation(size) =>
            error matches SignApplyError::Write(PdfWriteError::OddReservationSize(found)) && found
            == size,
        Refusal::RangeTooWide(size) =>
            error matches SignApplyError::Write(PdfWriteError::ByteRangeOverflow(found)) && found
            == size,
        Refusal::Signing(fault) => error matches SignApplyError::Signing(found) && found@ == fault,
        Refusal::NotVerified(text) =>
            error matches SignApplyError::PostSignVerificationFailed { detail } && detail@ == text,
        _ => error matches SignApplyError::Unsupported(detail) && unsupported_sentence(refusal)
            == Some(detail@),
    }
}

/// The error for a refusal that is reported as unsupported.
pub(crate) fn unsupported(detail: &str) -> (error: SignApplyError)
    ensures
        error matches SignApplyError::Unsupported(found) && found@ == detail@,
{
    SignApplyError::Unsupported(owned(detail))
}

impl SignApplyError {
    /// The error as a sentence.
    pub open spec fn sentence(self) -> Seq<char> {
        match self {
            SignApplyError::Refused(PreflightRefusal::EncryptedDocument) =>
                "the document is encrypted"@,
            SignApplyError::Refused(PreflightRefusal::InvalidState(detail)) => detail@,
            SignApplyError::Refused(PreflightRefusal::Forbidden(detail)) => detail@,
            SignApplyError::ContentChangeInAppendOnlyMode { detail } =>
                "content change refused in append-only mode: "@ + detail@,
            SignApplyError::PostSignVerificationFailed { detail } =>
                "post-sign verification failed: "@ + detail@
                + "; the source is unchanged and no output was written"@,
            SignApplyError::Signing(error) => signing_sentence(error@),
            SignApplyError::Write(error) => error.sentence(),
            SignApplyError::Verify(error) => error.sentence(),
            SignApplyError::Unsupported(detail) => "the document cannot be signed: "@ + detail@,
            SignApplyError::Io { path, source } => "I/O error on "@ + path@ + ": "@ + source@,
        }
    }

    /// The error as a sentence.
    pub fn message(&self) -> (text: String)
        ensures
            text@ == self.sentence(),
    {
        match self {
            SignApplyError::Refused(PreflightRefusal::EncryptedDocument) => owned(
                "the document is encrypted",
            ),
            SignApplyError::Refused(PreflightRefusal::InvalidState(detail)) => owned(
                detail.as_str(),
            ),
            SignApplyError::Refused(PreflightRefusal::Forbidden(detail)) => owned(detail.as_str()),
            SignApplyError::ContentChangeInAppendOnlyMode { detail } => {
                let mut text = owned("content change refused in append-only mode: ");
                push_str(&mut text, detail.as_str());
                text
            },
            SignApplyError::PostSignVerificationFailed { detail } => {
                let mut text = owned("post-sign verification failed: ");
                push_str(&mut text, detail.as_str());
                push_str(&mut text, "; the source is unchanged and no output was written");
                text
            },
            SignApplyError::Signing(error) => error.message(),
            SignApplyError::Write(error) => error.message(),
            SignApplyError::Verify(error) => error.message(),
            SignApplyError::Unsupported(detail) => {
                let mut text = owned("the document cannot be signed: ");
                push_str(&mut text, detail.as_str());
                text
            },
            SignApplyError::Io { path, source } => {
                let mut text = owned("I/O error on ");
                push_str(&mut text, path.as_str());
                push_str(&mut text, ": ");
                push_str(&mut text, source.as_str());
                text
            },
        }
    }
}

} // verus!
