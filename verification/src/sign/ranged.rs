//! What a signature covers, by the numbers that are written for it.

use crate::bytes::{decimal, occurs_at, repeated, utf8};
use crate::pdfwrite::object::{array_body, pdf_bytes, PdfValue};
use crate::pdfwrite::writer::{
    byte_range_bytes, law_overwriting_is_local, PlaceholderOffsets, BYTE_RANGE_WIDTH,
};
use crate::sign::digest::digest_of;
use crate::sign::mechanism::DigestAlgorithm;
use crate::sign::revision::{document_digest, placeholders_fit, with_range};
use vstd::prelude::*;
use vstd::utf8::is_ascii_chars_encode_utf8;

verus! {

/// An array of four numbers.
pub open spec fn four_numbers(a: int, b: int, c: int, d: int) -> PdfValue {
    PdfValue::Array(
        seq![
            PdfValue::Integer(a),
            PdfValue::Integer(b),
            PdfValue::Integer(c),
            PdfValue::Integer(d),
        ],
    )
}

proof fn lemma_range(start: nat, end: nat, rest: nat)
    ensures
        byte_range_bytes(start, end, rest) == pdf_bytes(
            four_numbers(0, start as int, end as int, rest as int),
        ),
{
    let items = seq![
        PdfValue::Integer(0),
        PdfValue::Integer(start as int),
        PdfValue::Integer(end as int),
        PdfValue::Integer(rest as int),
    ];
    reveal_strlit("[0 ");
    reveal_strlit("[");
    reveal_strlit(" ");
    is_ascii_chars_encode_utf8("[0 "@);
    is_ascii_chars_encode_utf8("["@);
    is_ascii_chars_encode_utf8(" "@);
    assert(decimal(0) =~= seq![48u8]);
    assert(utf8("[0 "@) =~= utf8("["@) + decimal(0) + utf8(" "@));
    assert(pdf_bytes(items[0]) == decimal(0));
    assert(pdf_bytes(items[1]) == decimal(start));
    assert(pdf_bytes(items[2]) == decimal(end));
    assert(pdf_bytes(items[3]) == decimal(rest));
    assert(array_body(items, 0) =~= Seq::empty());
    assert(array_body(items, 1) =~= decimal(0));
    assert(array_body(items, 2) =~= decimal(0) + utf8(" "@) + decimal(start));
    assert(array_body(items, 3) =~= decimal(0) + utf8(" "@) + decimal(start) + utf8(" "@) + decimal(
        end,
    ));
    assert(array_body(items, 4) =~= decimal(0) + utf8(" "@) + decimal(start) + utf8(" "@) + decimal(
        end,
    ) + utf8(" "@) + decimal(rest));
    assert(byte_range_bytes(start, end, rest) =~= pdf_bytes(
        four_numbers(0, start as int, end as int, rest as int),
    ));
}

/// The numbers that are written for a signature name two spans, each by where it
/// starts and how long it is. The first starts where the document does and goes up to
/// the reservation, and the second goes from there to the end; what is signed is the
/// digest of the two.
pub proof fn law_the_range_names_what_is_signed(
    bytes: Seq<u8>,
    offsets: PlaceholderOffsets,
    algorithm: DigestAlgorithm,
)
    requires
        placeholders_fit(bytes, offsets),
        with_range(bytes, offsets) is Ok,
    ensures
        ({
            let ranged = with_range(bytes, offsets)->Ok_0;
            let (first, before) = (0int, offsets.sig_start as int);
            let (second, behind) = (offsets.sig_end as int, ranged.len() - offsets.sig_end);
            let range = pdf_bytes(four_numbers(first, before, second, behind));
            let end = offsets.byterange_start + BYTE_RANGE_WIDTH;
            &&& ranged.len() == bytes.len()
            &&& occurs_at(ranged, range, offsets.byterange_start as int)
            &&& forall|i: int|
                offsets.byterange_start + range.len() <= i < end ==> #[trigger] ranged[i] == 32
            &&& first + before + offsets.bytes_reserved + 2 == second
            &&& second + behind == ranged.len()
            &&& document_digest(ranged, offsets, algorithm) == digest_of(
                algorithm,
                ranged.subrange(first, first + before) + ranged.subrange(second, second + behind),
            )
        }),
{
    let ranged = with_range(bytes, offsets)->Ok_0;
    let behind = (bytes.len() - offsets.sig_end) as nat;
    let range = byte_range_bytes(offsets.sig_start as nat, offsets.sig_end as nat, behind);
    lemma_range(offsets.sig_start as nat, offsets.sig_end as nat, behind);
    let at = offsets.byterange_start as nat;
    let new = range + repeated(32, (BYTE_RANGE_WIDTH - range.len()) as nat);
    law_overwriting_is_local(bytes, at, new);
    assert(ranged.subrange(at as int, (at + new.len()) as int) == new);
    assert forall|i: int| at <= i < at + new.len() implies #[trigger] ranged[i] == new[i - at] by {
        assert(ranged.subrange(at as int, (at + new.len()) as int)[i - at] == new[i - at]);
    }
    assert(ranged.subrange(at as int, (at + range.len()) as int) =~= range);
    assert(ranged.take(offsets.sig_start as int) =~= ranged.subrange(0, offsets.sig_start as int));
    assert(ranged.skip(offsets.sig_end as int) =~= ranged.subrange(
        offsets.sig_end as int,
        ranged.len() as int,
    ));
}

} // verus!
