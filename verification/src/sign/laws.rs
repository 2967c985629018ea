//! What holds of every document that was signed.

use crate::bytes::{hex, lemma_hex_len};
use crate::pdfread::value::{hex_digit_values, paired};
use crate::pdfwrite::laws::{law_hexadecimal_reads_back, law_update_keeps_the_file};
use crate::pdfwrite::writer::{open_outcome, PlaceholderOffsets};
use crate::sign::cms_builder::{cms_of, SigningProfile};
use crate::sign::credential::CredentialFacts;
use crate::sign::document::Layout;
use crate::sign::mechanism::DigestAlgorithm;
use crate::sign::plan::Plan;
use crate::sign::request::SignRequest;
use crate::sign::revision::{
    assembled_revision, attempt, document_digest, filled, in_order, law_an_update_places_its_objects,
    law_placeholders_fit, place_under,
    placeholders_fit, revision_objects, signed_document, with_range,
};
use vstd::prelude::*;

verus! {

/// The signature stands in the reservation, in hexadecimal; the digits that it
/// does not need are as they were.
pub proof fn law_the_reservation_holds_the_signature(
    bytes: Seq<u8>,
    offsets: PlaceholderOffsets,
    cms: Seq<u8>,
)
    requires
        placeholders_fit(bytes, offsets),
        2 * cms.len() <= offsets.bytes_reserved,
    ensures
        filled(bytes, offsets, cms).len() == bytes.len(),
        ({
            let start = offsets.sig_start + 1;
            let end = start + 2 * cms.len();
            &&& paired(hex_digit_values(filled(bytes, offsets, cms).subrange(start, end))) == cms
            &&& filled(bytes, offsets, cms).take(start) == bytes.take(start)
            &&& filled(bytes, offsets, cms).skip(end) == bytes.skip(end)
        }),
{
    lemma_hex_len(cms);
    law_hexadecimal_reads_back(cms);
    let out = filled(bytes, offsets, cms);
    let start = offsets.sig_start + 1;
    let end = start + 2 * cms.len();
    assert(out.subrange(start, end) =~= hex(cms));
    assert(out.take(start) =~= bytes.take(start));
    assert(out.skip(end) =~= bytes.skip(end));
}

/// Writing the signature does not change what was signed: the digest of
/// everything but the reservation is the same before and after.
pub proof fn law_the_signature_is_not_part_of_what_is_signed(
    bytes: Seq<u8>,
    offsets: PlaceholderOffsets,
    cms: Seq<u8>,
    algorithm: DigestAlgorithm,
)
    requires
        placeholders_fit(bytes, offsets),
        2 * cms.len() <= offsets.bytes_reserved,
    ensures
        document_digest(filled(bytes, offsets, cms), offsets, algorithm) == document_digest(
            bytes,
            offsets,
            algorithm,
        ),
{
    lemma_hex_len(cms);
    let out = filled(bytes, offsets, cms);
    assert(out.take(offsets.sig_start as int) =~= bytes.take(offsets.sig_start as int));
    assert(out.skip(offsets.sig_end as int) =~= bytes.skip(offsets.sig_end as int));
}

/// The two spans that `/ByteRange` names are everything but the reservation:
/// they and the reservation make up the whole document.
pub proof fn law_the_spans_cover_everything_else(bytes: Seq<u8>, offsets: PlaceholderOffsets)
    requires
        placeholders_fit(bytes, offsets),
    ensures
        bytes.take(offsets.sig_start as int) + bytes.subrange(
            offsets.sig_start as int,
            offsets.sig_end as int,
        ) + bytes.skip(offsets.sig_end as int) == bytes,
        offsets.sig_end - offsets.sig_start == offsets.bytes_reserved + 2,
{
    assert(bytes.take(offsets.sig_start as int) + bytes.subrange(
        offsets.sig_start as int,
        offsets.sig_end as int,
    ) + bytes.skip(offsets.sig_end as int) =~= bytes);
}

/// A signed document carries a signature over itself: what is in its
/// reservation is the signature of the digest of everything else in it.
pub proof fn law_the_signature_is_over_the_document(
    bytes: Seq<u8>,
    offsets: PlaceholderOffsets,
    credential: CredentialFacts,
    profile: SigningProfile,
    signing_time: i64,
    algorithm: DigestAlgorithm,
)
    requires
        placeholders_fit(bytes, offsets),
    ensures
        signed_document(
            bytes,
            offsets,
            credential,
            profile,
            signing_time,
            algorithm,
        ) matches Ok((signed, length)) ==> {
            let start = offsets.sig_start + 1;
            &&& signed.len() == bytes.len()
            &&& start + 2 * length < offsets.sig_end
            &&& cms_of(
                credential,
                document_digest(signed, offsets, algorithm),
                profile,
                false,
                None,
                Some(signing_time),
            ) == Ok::<Seq<u8>, crate::sign::errors::SigningFault>(
                paired(hex_digit_values(signed.subrange(start, start + 2 * length))),
            )
        },
{
    if let Ok((signed, length)) = signed_document(
        bytes,
        offsets,
        credential,
        profile,
        signing_time,
        algorithm,
    ) {
        let ranged = with_range(bytes, offsets)->Ok_0;
        assert(ranged.len() == bytes.len());
        let cms = cms_of(
            credential,
            document_digest(ranged, offsets, algorithm),
            profile,
            false,
            None,
            Some(signing_time),
        )->Ok_0;
        law_the_reservation_holds_the_signature(ranged, offsets, cms);
        law_the_signature_is_not_part_of_what_is_signed(ranged, offsets, cms, algorithm);
    }
}

/// Signing only ever appends: a signed document starts with every byte of the
/// document that was signed.
pub proof fn law_signing_keeps_the_source(
    bytes: Seq<u8>,
    layout: Layout,
    request: SignRequest,
    plan: Plan,
    credential: CredentialFacts,
    algorithm: DigestAlgorithm,
    reserved: nat,
)
    requires
        reserved <= usize::MAX,
        assembled_revision(bytes, layout, request.wishes(), plan, reserved) matches Ok(
            (output, _),
        ) ==> output.len() <= usize::MAX,
    ensures
        attempt(
            bytes,
            layout,
            request,
            plan,
            credential,
            algorithm,
            reserved,
        ) matches Ok((signed, _)) ==> {
            &&& signed.len() >= bytes.len()
            &&& signed.take(bytes.len() as int) == bytes
        },
{
    reveal(assembled_revision);
    if let Ok((output, offsets)) = assembled_revision(
        bytes,
        layout,
        request.wishes(),
        plan,
        reserved,
    ) {
        let file = open_outcome(bytes)->Ok_0;
        let objects = revision_objects(
            bytes,
            layout,
            request.wishes(),
            plan,
            reserved,
            file.next_object_number,
        )->Ok_0;
        law_update_keeps_the_file(file, 0, in_order(objects, objects.len()), request.wishes().id2);
        let ordered = in_order(objects, objects.len());
        let places = crate::pdfwrite::writer::append_outcome(
            file,
            0,
            ordered,
            request.wishes().id2,
        )->Ok_0.1;
        law_an_update_places_its_objects(
            file,
            ordered,
            request.wishes().id2,
            file.next_object_number,
        );
        law_placeholders_fit(
            output,
            place_under(places, file.next_object_number, bytes.len()),
            reserved,
        );
        if let Ok((signed, length)) = attempt(
            bytes,
            layout,
            request,
            plan,
            credential,
            algorithm,
            reserved,
        ) {
            let ranged = with_range(output, offsets)->Ok_0;
            let cms = cms_of(
                credential,
                document_digest(ranged, offsets, algorithm),
                request.profile,
                false,
                None,
                Some(request.signing_time),
            )->Ok_0;
            lemma_hex_len(cms);
            assert(output.take(bytes.len() as int) == bytes);
            assert forall|i: int| 0 <= i < bytes.len() implies signed[i] == bytes[i] by {
                assert(output.take(bytes.len() as int)[i] == output[i]);
            }
            assert(signed.take(bytes.len() as int) =~= bytes);
        }
    }
}

} // verus!
