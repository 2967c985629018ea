//! Whether a signed document may take its place: what is read back from it must
//! be the document that was signed, with one more signature that holds.

use crate::bytes::same_bytes;
use crate::sign::refusal::{reports, Refusal, SignApplyError};
use crate::text::{decimal_text, owned, push_decimal, push_str, push_wide_decimal, same_text};
use vstd::prelude::*;
use vstd::slice::slice_subrange;

verus! {

/// How much of a document a signature covers.
#[derive(Debug, Clone, Copy, PartialEq, Eq, Structural)]
pub enum SignatureCoverage {
    /// The whole file but the signature itself.
    EntireFile,
    /// The whole revision that the signature closed.
    EntireRevision,
    /// Less than that.
    Partial,
}

impl SignatureCoverage {
    /// The name of the coverage.
    pub open spec fn label(self) -> Seq<char> {
        match self {
            SignatureCoverage::EntireFile => "EntireFile"@,
            SignatureCoverage::EntireRevision => "EntireRevision"@,
            SignatureCoverage::Partial => "Partial"@,
        }
    }

    fn name(&self) -> (name: &'static str)
        ensures
            name@ == self.label(),
    {
        match self {
            SignatureCoverage::EntireFile => "EntireFile",
            SignatureCoverage::EntireRevision => "EntireRevision",
            SignatureCoverage::Partial => "Partial",
        }
    }
}

/// What was found of a signature.
#[derive(Debug, Clone, PartialEq, Eq)]
pub struct SignatureStatus {
    pub field_name: String,
    /// The digest of the document is the one that was signed.
    pub intact: bool,
    /// The signature was made by the key of its certificate.
    pub valid: bool,
    pub coverage: SignatureCoverage,
}

/// One signature of a document that was read back.
#[derive(Debug, Clone, PartialEq, Eq)]
pub enum SignatureVerification {
    Checked(SignatureStatus),
    /// The signature cannot be read.
    Broken { field_name: String, reason: String },
}

/// One signature of a document that was read back, by its value.
pub enum Verified {
    Checked { field_name: Seq<char>, intact: bool, valid: bool, coverage: SignatureCoverage },
    Broken { field_name: Seq<char>, reason: Seq<char> },
}

impl View for SignatureVerification {
    type V = Verified;

    open spec fn view(&self) -> Verified {
        match *self {
            SignatureVerification::Checked(status) => Verified::Checked {
                field_name: status.field_name@,
                intact: status.intact,
                valid: status.valid,
                coverage: status.coverage,
            },
            SignatureVerification::Broken { field_name, reason } => Verified::Broken {
                field_name: field_name@,
                reason: reason@,
            },
        }
    }
}

/// Signatures, each by its value.
pub open spec fn verified_views(verifications: Seq<SignatureVerification>) -> Seq<Verified> {
    verifications.map_values(|verification: SignatureVerification| verification@)
}

/// The coverage that a signature must have: the newest covers the whole file,
/// and every other the revision that it closed.
pub open spec fn required_coverage(newest: bool) -> SignatureCoverage {
    if newest {
        SignatureCoverage::EntireFile
    } else {
        SignatureCoverage::EntireRevision
    }
}

/// A signature that holds.
pub open spec fn holds(signature: Verified, new_field: Seq<char>) -> bool {
    match signature {
        Verified::Checked { field_name, intact, valid, coverage } => intact && valid && coverage
            == required_coverage(field_name == new_field),
        Verified::Broken { .. } => false,
    }
}

/// What is wrong with a signature.
pub open spec fn complaint(signature: Verified, new_field: Seq<char>) -> Seq<char> {
    match signature {
        Verified::Broken { field_name, reason } => "signature '"@ + field_name
            + "' is broken after signing: "@ + reason,
        Verified::Checked { field_name, intact, valid, coverage } => if !intact {
            "signature '"@ + field_name + "' is not intact after signing"@
        } else if !valid {
            "signature '"@ + field_name + "' is not valid after signing"@
        } else {
            "signature '"@ + field_name + "' has coverage "@ + coverage.label() + ", expected "@
                + required_coverage(field_name == new_field).label()
        },
    }
}

/// A signature of this field.
pub open spec fn is_on(signature: Verified, field: Seq<char>) -> bool {
    match signature {
        Verified::Checked { field_name, .. } => field_name == field,
        Verified::Broken { .. } => false,
    }
}

/// The first signature, from `from` on, that does not hold, or the end.
pub open spec fn first_broken(signatures: Seq<Verified>, new_field: Seq<char>, from: int) -> int
    decreases signatures.len() - from,
{
    if from >= signatures.len() || !holds(signatures[from], new_field) {
        from
    } else {
        first_broken(signatures, new_field, from + 1)
    }
}

/// What was read back: the signatures of a document, or why they cannot be
/// read.
pub open spec fn read_back(
    verifications: Result<Vec<SignatureVerification>, String>,
) -> Result<Seq<Verified>, Seq<char>> {
    match verifications {
        Ok(found) => Ok(verified_views(found@)),
        Err(reason) => Err(reason@),
    }
}

/// How many signatures a document that may take its place has, or why it may
/// not.
pub open spec fn gate_outcome(
    source: Seq<u8>,
    candidate: Seq<u8>,
    verifications: Result<Seq<Verified>, Seq<char>>,
    previous: nat,
    new_field: Seq<char>,
) -> Result<nat, Seq<char>> {
    if candidate.len() < source.len() {
        Err(
            "the output is shorter than the source ("@ + decimal_text(candidate.len()) + " < "@
                + decimal_text(source.len()) + " bytes)"@,
        )
    } else if candidate.take(source.len() as int) != source {
        Err("the bytes preceding the appended revision differ from the source"@)
    } else {
        match verifications {
            Err(reason) => Err("cannot re-read: "@ + reason),
            Ok(signatures) => if signatures.len() != previous + 1 {
                Err(
                    "expected "@ + decimal_text(previous + 1)
                        + " signature(s) in the output, found "@ + decimal_text(signatures.len()),
                )
            } else if first_broken(signatures, new_field, 0) < signatures.len() {
                Err(complaint(signatures[first_broken(signatures, new_field, 0)], new_field))
            } else if !exists|i: int|
                0 <= i < signatures.len() && is_on(#[trigger] signatures[i], new_field) {
                Err(
                    "the output does not report a signature on field '"@ + new_field + "'"@,
                )
            } else {
                Ok(signatures.len())
            },
        }
    }
}

proof fn lemma_first_broken(signatures: Seq<Verified>, new_field: Seq<char>, from: int)
    requires
        0 <= from <= signatures.len(),
    ensures
        from <= first_broken(signatures, new_field, from) <= signatures.len(),
        forall|i: int|
            from <= i < first_broken(signatures, new_field, from) ==> holds(
                #[trigger] signatures[i],
                new_field,
            ),
        first_broken(signatures, new_field, from) < signatures.len() ==> !holds(
            signatures[first_broken(signatures, new_field, from)],
            new_field,
        ),
    decreases signatures.len() - from,
{
    if from < signatures.len() && holds(signatures[from], new_field) {
        lemma_first_broken(signatures, new_field, from + 1);
    }
}

/// A document passes exactly when it starts with the document that was signed,
/// has one signature more, every signature holds, and one is on the new field.
pub proof fn law_the_gate_opens_exactly_when_everything_holds(
    source: Seq<u8>,
    candidate: Seq<u8>,
    signatures: Seq<Verified>,
    previous: nat,
    new_field: Seq<char>,
)
    ensures
        gate_outcome(source, candidate, Ok(signatures), previous, new_field) is Ok <==> {
            &&& candidate.len() >= source.len()
            &&& candidate.take(source.len() as int) == source
            &&& signatures.len() == previous + 1
            &&& forall|i: int|
                0 <= i < signatures.len() ==> holds(#[trigger] signatures[i], new_field)
            &&& exists|i: int|
                0 <= i < signatures.len() && is_on(#[trigger] signatures[i], new_field)
        },
{
    lemma_first_broken(signatures, new_field, 0);
}

fn failed(detail: String) -> (error: SignApplyError)
    ensures
        reports(error, Refusal::NotVerified(detail@)),
{
    SignApplyError::PostSignVerificationFailed { detail }
}

fn complain(verification: &SignatureVerification, new_field: &str) -> (found: Option<String>)
    ensures
        match found {
            Some(text) => !holds(verification@, new_field@) && text@ == complaint(
                verification@,
                new_field@,
            ),
            None => holds(verification@, new_field@),
        },
{
    match verification {
        SignatureVerification::Broken { field_name, reason } => {
            let mut text = owned("signature '");
            push_str(&mut text, field_name.as_str());
            push_str(&mut text, "' is broken after signing: ");
            push_str(&mut text, reason.as_str());
            Some(text)
        },
        SignatureVerification::Checked(status) => {
            let newest = same_text(status.field_name.as_str(), new_field);
            let required = if newest {
                SignatureCoverage::EntireFile
            } else {
                SignatureCoverage::EntireRevision
            };
            if status.intact && status.valid && status.coverage == required {
                return None;
            }
            let mut text = owned("signature '");
            push_str(&mut text, status.field_name.as_str());
            if !status.intact {
                push_str(&mut text, "' is not intact after signing");
            } else if !status.valid {
                push_str(&mut text, "' is not valid after signing");
            } else {
                push_str(&mut text, "' has coverage ");
                push_str(&mut text, status.coverage.name());
                push_str(&mut text, ", expected ");
                push_str(&mut text, required.name());
            }
            Some(text)
        },
    }
}

/// Decides whether a signed document may take its place, and says how many
/// signatures it has. `verifications` is what was read back from it.
pub fn verification_gate(
    source: &[u8],
    candidate: &[u8],
    verifications: Result<Vec<SignatureVerification>, String>,
    previous_signatures: usize,
    new_field: &str,
) -> (count: Result<usize, SignApplyError>)
    ensures
        match gate_outcome(
            source@,
            candidate@,
            read_back(verifications),
            previous_signatures as nat,
            new_field@,
        ) {
            Ok(signatures) => count matches Ok(found) && found == signatures,
            Err(detail) => count matches Err(error) && reports(
                error,
                Refusal::NotVerified(detail),
            ),
        },
{
    if candidate.len() < source.len() {
        let mut detail = owned("the output is shorter than the source (");
        push_decimal(&mut detail, candidate.len() as u64);
        push_str(&mut detail, " < ");
        push_decimal(&mut detail, source.len() as u64);
        push_str(&mut detail, " bytes)");
        return Err(failed(detail));
    }
    let start = slice_subrange(candidate, 0, source.len());
    assert(start@ =~= candidate@.take(source@.len() as int));
    if !same_bytes(start, source) {
        return Err(
            failed(owned("the bytes preceding the appended revision differ from the source")),
        );
    }
    let found = match verifications {
        Ok(found) => found,
        Err(reason) => {
            let mut detail = owned("cannot re-read: ");
            push_str(&mut detail, reason.as_str());
            return Err(failed(detail));
        },
    };
    let ghost signatures = verified_views(found@);
    if found.len() == 0 || found.len() - 1 != previous_signatures {
        let mut detail = owned("expected ");
        push_wide_decimal(&mut detail, previous_signatures as u128 + 1);
        push_str(&mut detail, " signature(s) in the output, found ");
        push_decimal(&mut detail, found.len() as u64);
        return Err(failed(detail));
    }
    let mut saw_new_field = false;
    let mut i: usize = 0;
    while i < found.len()
        invariant
            i <= found@.len(),
            signatures == verified_views(found@),
            signatures.len() == found@.len(),
            signatures.len() == previous_signatures + 1,
            candidate@.len() >= source@.len(),
            candidate@.take(source@.len() as int) == source@,
            read_back(verifications) == Ok::<Seq<Verified>, Seq<char>>(signatures),
            first_broken(signatures, new_field@, i as int) == first_broken(
                signatures,
                new_field@,
                0,
            ),
            saw_new_field == exists|j: int|
                0 <= j < i && is_on(#[trigger] signatures[j], new_field@),
        decreases found@.len() - i,
    {
        assert(signatures[i as int] == found@[i as int]@);
        if let Some(detail) = complain(&found[i], new_field) {
            return Err(failed(detail));
        }
        if let SignatureVerification::Checked(status) = &found[i] {
            if same_text(status.field_name.as_str(), new_field) {
                saw_new_field = true;
                assert(is_on(signatures[i as int], new_field@));
            }
        }
        i += 1;
    }
    if !saw_new_field {
        let mut detail = owned("the output does not report a signature on field '");
        push_str(&mut detail, new_field);
        push_str(&mut detail, "'");
        return Err(failed(detail));
    }
    Ok(found.len())
}

/// In a document that passes, every signature is intact and valid; the one on the new
/// field covers the whole file, and each of the others the revision that it closed. A
/// document with a signature of which any of this is not so does not pass.
pub proof fn law_the_newest_signature_covers_the_file(
    source: Seq<u8>,
    candidate: Seq<u8>,
    signatures: Seq<Verified>,
    previous: nat,
    new_field: Seq<char>,
    i: int,
)
    requires
        gate_outcome(source, candidate, Ok(signatures), previous, new_field) is Ok,
        0 <= i < signatures.len(),
    ensures
        signatures[i] matches Verified::Checked { field_name, intact, valid, coverage } && intact
            && valid && (field_name == new_field ==> coverage == SignatureCoverage::EntireFile) && (
        field_name != new_field ==> coverage == SignatureCoverage::EntireRevision),
{
    law_the_gate_opens_exactly_when_everything_holds(
        source,
        candidate,
        signatures,
        previous,
        new_field,
    );
    assert(holds(signatures[i], new_field));
}

/// Sound signatures let a document pass, once it has one more than before and one of
/// them is on the new field.
pub proof fn law_sound_signatures_let_a_document_pass(
    source: Seq<u8>,
    appended: Seq<u8>,
    signatures: Seq<Verified>,
    new_field: Seq<char>,
    newest: int,
)
    requires
        0 <= newest < signatures.len(),
        forall|i: int|
            0 <= i < signatures.len() ==> ((#[trigger] signatures[i]) matches Verified::Checked {
                field_name,
                intact,
                valid,
                coverage,
            } && intact && valid && (if i == newest {
                field_name == new_field && coverage == SignatureCoverage::EntireFile
            } else {
                field_name != new_field && coverage == SignatureCoverage::EntireRevision
            })),
    ensures
        gate_outcome(
            source,
            source + appended,
            Ok(signatures),
            (signatures.len() - 1) as nat,
            new_field,
        ) == Ok::<nat, Seq<char>>(signatures.len()),
{
    let candidate = source + appended;
    assert(candidate.take(source.len() as int) =~= source);
    assert forall|i: int| 0 <= i < signatures.len() implies holds(
        #[trigger] signatures[i],
        new_field,
    ) by {}
    assert(signatures[newest] is Checked);
    assert(is_on(signatures[newest], new_field));
    law_the_gate_opens_exactly_when_everything_holds(
        source,
        candidate,
        signatures,
        (signatures.len() - 1) as nat,
        new_field,
    );
}

} // verus!
