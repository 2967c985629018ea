//! The decisions around a signing operation that reads and writes files: what
//! is refused before anything is read, and what is reported at the end.

use crate::sign::plan::RevisionPlan;
use crate::sign::refusal::{PreflightRefusal, SignApplyError};
use crate::sign::request::SignReport;
use crate::sign::revision::Candidate;
use crate::text::{
    decimal_text, owned, padded_hexadecimal, push_decimal, push_padded_hexadecimal, push_str,
};
use vstd::prelude::*;

pub use crate::sign::appearance::{AppearanceContent, SignAppearance};
pub use crate::sign::gate::verification_gate;
pub use crate::sign::plan::plan_revision;
pub use crate::sign::refusal::Refusal;
pub use crate::sign::request::{SignRequest, SignTarget};
pub use crate::sign::revision::sign_document;

verus! {

/// Refuses to sign a document onto itself, because the document that is signed
/// stays as it is. `same_file` says whether both names mean one file.
pub fn refuse_in_place(same_file: bool, source: &str) -> (allowed: Result<(), SignApplyError>)
    ensures
        if same_file {
            &&& allowed matches Err(
                SignApplyError::Refused(PreflightRefusal::InvalidState(detail)),
            )
            &&& detail@ == "the destination is the source file ("@ + source@
                + "); signing in place is refused because the source must be left untouched"@
        } else {
            allowed is Ok
        },
{
    if same_file {
        let mut detail = owned("the destination is the source file (");
        push_str(&mut detail, source);
        push_str(
            &mut detail,
            "); signing in place is refused because the source must be left untouched",
        );
        return Err(SignApplyError::Refused(PreflightRefusal::InvalidState(detail)));
    }
    Ok(())
}

/// The name of the file that a signed document is written to before it takes its
/// place. What keeps anything else from standing there is that the file is
/// created, never opened; the mark tells one attempt from another.
pub fn temporary_name(process: u32, mark: u64) -> (name: String)
    ensures
        name@ == ".pulpit-sign-"@ + decimal_text(process as nat) + "-"@ + padded_hexadecimal(
            mark as nat,
            16,
        ),
{
    let mut name = owned(".pulpit-sign-");
    push_decimal(&mut name, process as u64);
    push_str(&mut name, "-");
    push_padded_hexadecimal(&mut name, mark, 16);
    name
}

/// What there is to tell of a signed document.
pub fn report(plan: RevisionPlan, candidate: &Candidate, signature_count: usize, output_len: u64) -> (
report: SignReport)
    ensures
        report.field_name@ == plan@.field_name,
        report.signature_count == signature_count,
        report.bytes_reserved == candidate@.reserved,
        report.cms_len == candidate@.cms_len,
        report.attempts == candidate@.attempts,
        report.output_len == output_len,
        report.seed_value_ignored == plan@.seed_value_ignored,
{
    SignReport {
        field_name: plan.field_name,
        signature_count,
        bytes_reserved: candidate.bytes_reserved,
        cms_len: candidate.cms_len,
        attempts: candidate.attempts,
        output_len,
        seed_value_ignored: plan.seed_value_ignored,
    }
}

} // verus!
