//! What can go wrong when a PDF is written.

use crate::text::{decimal_text, owned, push_decimal, push_str};
use vstd::prelude::*;

verus! {

/// Why a PDF could not be written.
#[derive(Debug, Clone, PartialEq, Eq)]
pub enum PdfWriteError {
    OddReservationSize(usize),
    SignatureTooLarge { required: usize, reserved: usize },
    ByteRangeOverflow(usize),
    IncrementalWriteFailed(String),
    HybridXrefRefused,
    ParseError(String),
    /// A document this writer understands but cannot represent.
    Unsupported(String),
}

impl PdfWriteError {
    /// The error as a sentence.
    pub open spec fn sentence(self) -> Seq<char> {
        match self {
            PdfWriteError::OddReservationSize(size) => "signature reservation is odd-sized ("@
                + decimal_text(size as nat) + " bytes); must be even"@,
            PdfWriteError::SignatureTooLarge { required, reserved } => "signature too large: "@
                + decimal_text(required as nat) + " bytes needed, only "@
                + decimal_text(reserved as nat) + " reserved"@,
            PdfWriteError::ByteRangeOverflow(size) =>
                "the byte-range placeholder does not fit in 62 bytes (needs "@
                + decimal_text(size as nat) + ")"@,
            PdfWriteError::IncrementalWriteFailed(reason) => "incremental write failed: "@ + reason@,
            PdfWriteError::HybridXrefRefused =>
                "hybrid-reference PDFs (/XRefStm) are not supported"@,
            PdfWriteError::ParseError(reason) => "failed to parse PDF structure: "@ + reason@,
            PdfWriteError::Unsupported(reason) => reason@,
        }
    }

    /// The error as a sentence.
    pub fn message(&self) -> (text: String)
        ensures
            text@ == self.sentence(),
    {
        match self {
            PdfWriteError::OddReservationSize(size) => {
                let mut text = owned("signature reservation is odd-sized (");
                push_decimal(&mut text, *size as u64);
                push_str(&mut text, " bytes); must be even");
                text
            },
            PdfWriteError::SignatureTooLarge { required, reserved } => {
                let mut text = owned("signature too large: ");
                push_decimal(&mut text, *required as u64);
                push_str(&mut text, " bytes needed, only ");
                push_decimal(&mut text, *reserved as u64);
                push_str(&mut text, " reserved");
                text
            },
            PdfWriteError::ByteRangeOverflow(size) => {
                let mut text = owned("the byte-range placeholder does not fit in 62 bytes (needs ");
                push_decimal(&mut text, *size as u64);
                push_str(&mut text, ")");
                text
            },
            PdfWriteError::IncrementalWriteFailed(reason) => {
                let mut text = owned("incremental write failed: ");
                push_str(&mut text, reason.as_str());
                text
            },
            PdfWriteError::HybridXrefRefused => owned(
                "hybrid-reference PDFs (/XRefStm) are not supported",
            ),
            PdfWriteError::ParseError(reason) => {
                let mut text = owned("failed to parse PDF structure: ");
                push_str(&mut text, reason.as_str());
                text
            },
            PdfWriteError::Unsupported(reason) => owned(reason.as_str()),
        }
    }
}

} // verus!
