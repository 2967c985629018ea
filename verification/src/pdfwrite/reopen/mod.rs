//! An update can be read again: what its cross-reference data and its trailer
//! say is what was written.

pub mod fits;
pub mod lines;
pub mod rows;
pub mod stream;
pub mod table;

use crate::pdfread::dictionary::lookup;
use crate::pdfread::xref::{section_at, Section, XRefKind};
use crate::pdfwrite::laws::lemma_places;
use crate::pdfwrite::reopen::fits::{lemma_opened_fits, lemma_past_highest};
use crate::pdfwrite::reopen::lines::{lemma_regroup, updated_trailer};
use crate::pdfwrite::reopen::rows::{
    in_use, law_rows_lead_to_their_objects, lemma_near, offset_of,
};
use crate::pdfwrite::reopen::stream::{lemma_stream_end, lemma_stream_section};
use crate::pdfwrite::reopen::table::{lemma_table_end, lemma_table_section, listed};
use crate::pdfwrite::section::{
    first_far, ordered, rows_of, table_bytes, Place, Row,
};
use crate::pdfwrite::writer::{
    append_outcome, lemma_few_rows, max_of, objects_bytes, open_outcome, past_highest, startxref_of,
    stream_section,
    table_trailer, trailer_of, AppendRefusal, Numbered, OpenRefusal, Opened,
};
use vstd::prelude::*;

verus! {

/// The size that an update declares: one past every object number, its own
/// cross-reference stream among them.
pub open spec fn update_size(file: Opened, objects: Seq<Numbered>) -> nat {
    let size = max_of(file.next_object_number, past_highest(objects, objects.len()));
    match file.kind {
        XRefKind::Table => size,
        XRefKind::Stream => size + 1,
    }
}

/// The objects that an update with its cross-reference data at `at` lists: a
/// table those it holds, and a stream those and itself in the order of their
/// numbers.
pub open spec fn updated_offsets(
    file: Opened,
    objects: Seq<Numbered>,
    places: Seq<Place>,
    at: nat,
) -> Seq<(u32, u64)> {
    match file.kind {
        XRefKind::Table => listed(places),
        XRefKind::Stream => {
            let size = max_of(file.next_object_number, past_highest(objects, objects.len()));
            let all = rows_of(places, (size as u32, 0, at as u64));
            in_use(ordered(all, all.len()), 0)
        },
    }
}

/// Is this the section of an update with its cross-reference data at `at`? It
/// says of the document what was said of it before, names the section before
/// it, and has the size and the second identifier that were asked for. It lists
/// each object at its place, speaks of no encryption, and leads to each object
/// that the update holds and to none that it does not.
pub open spec fn is_update_section(
    section: Section,
    file: Opened,
    objects: Seq<Numbered>,
    second: Seq<u8>,
    places: Seq<Place>,
    at: nat,
) -> bool {
    &&& section.kind == file.kind
    &&& trailer_of(section.trailer) == updated_trailer(file, update_size(file, objects), second)
    &&& section.offsets == updated_offsets(file, objects, places, at)
    &&& lookup(section.trailer, "Encrypt"@) is None
    &&& forall|number: u32|
        is_found(file, number) && number < max_of(
            file.next_object_number,
            past_highest(objects, objects.len()),
        ) ==> #[trigger] offset_of(section.offsets, number as nat) == offset_of(
            listed(places),
            number as nat,
        )
}

/// Can an object of this number be found in an update? A cross-reference stream
/// keeps number 0 for the head of the free list.
pub open spec fn is_found(file: Opened, number: u32) -> bool {
    file.kind == XRefKind::Stream ==> number > 0
}

proof fn lemma_update_with_table(
    original: Seq<u8>,
    file: Opened,
    objects: Seq<Numbered>,
    second: Seq<u8>,
    bytes: Seq<u8>,
    places: Seq<Place>,
)
    requires
        open_outcome(original) == Ok::<Opened, OpenRefusal>(file),
        file.kind == XRefKind::Table,
        append_outcome(file, 0, objects, second) == Ok::<(Seq<u8>, Seq<Place>), AppendRefusal>(
            (bytes, places),
        ),
        bytes.len() <= 0x7FFF_FFFF_FFFF_FFFF,
    ensures
        ({
            let at = original.len() + objects_bytes(objects, objects.len()).len();
            &&& startxref_of(bytes) == Some(at)
            &&& section_at(bytes, at) matches Some(section) && is_update_section(
                section,
                file,
                objects,
                second,
                places,
                at,
            )
        }),
{
    lemma_opened_fits(original, file);
    let n = objects.len();
    let body = original + objects_bytes(objects, n);
    let at = body.len();
    let size = max_of(file.next_object_number, past_highest(objects, n));
    reveal(section_at);
    let table = table_bytes(places);
    let trailer = table_trailer(file, size, second, at);
    lemma_regroup(body, table, trailer);
    assert(bytes.skip(at as int) =~= table + trailer);
    assert forall|k: int| 0 <= k < places.len() implies #[trigger] places[k].0 < u32::MAX by {
        if n > 0 {
            lemma_places(objects, original.len(), n, 0);
            lemma_places(objects, original.len(), n, k);
            lemma_past_highest(objects, n, k);
        }
    }
    lemma_table_section(file, places, size, second, at);
    lemma_table_end(file, size, second, at, body + table);
}

proof fn lemma_update_with_stream(
    original: Seq<u8>,
    file: Opened,
    objects: Seq<Numbered>,
    second: Seq<u8>,
    bytes: Seq<u8>,
    places: Seq<Place>,
)
    requires
        open_outcome(original) == Ok::<Opened, OpenRefusal>(file),
        file.kind == XRefKind::Stream,
        append_outcome(file, 0, objects, second) == Ok::<(Seq<u8>, Seq<Place>), AppendRefusal>(
            (bytes, places),
        ),
        bytes.len() <= 0x7FFF_FFFF_FFFF_FFFF,
    ensures
        ({
            let at = original.len() + objects_bytes(objects, objects.len()).len();
            &&& startxref_of(bytes) == Some(at)
            &&& section_at(bytes, at) matches Some(section) && is_update_section(
                section,
                file,
                objects,
                second,
                places,
                at,
            )
        }),
{
    lemma_opened_fits(original, file);
    let n = objects.len();
    let body = original + objects_bytes(objects, n);
    let at = body.len();
    let size = max_of(file.next_object_number, past_highest(objects, n));
    reveal(section_at);
    let all = rows_of(places, (size as u32, 0, at as u64));
    let rows = ordered(all, all.len());
    let section = stream_section(file, size, size + 1, rows, second, at);
    assert(bytes.skip(at as int) =~= section);
    lemma_stream_end(file, size, size + 1, rows, second, at, body);
    lemma_first_far(rows, 0);
    lemma_near(rows, 0);
    lemma_few_rows(objects, places, original.len(), rows, (size as u32, 0, at as u64));
    lemma_stream_section(file, size, size + 1, rows, second, at);
    assert forall|number: u32| 0 < number < size implies #[trigger] offset_of(
        in_use(rows, 0),
        number as nat,
    ) == offset_of(listed(places), number as nat) by {
        law_rows_lead_to_their_objects(places, (size as u32, 0, at as u64), number);
    }
}

proof fn lemma_first_far(rows: Seq<Row>, from: int)
    requires
        0 <= from <= rows.len(),
    ensures
        first_far(rows, from) <= rows.len(),
    decreases rows.len() - from,
{
    if from < rows.len() {
        lemma_first_far(rows, from + 1);
    }
}

/// An update is read back: its end leads to its cross-reference data, which
/// says of the document what was said of it before, names the section before
/// it, lists each object at its place, and has the size and the second
/// identifier that were asked for. So the updated file can be opened again,
/// unless no object number is left.
pub proof fn law_an_update_is_read_back(
    original: Seq<u8>,
    file: Opened,
    objects: Seq<Numbered>,
    second: Seq<u8>,
    bytes: Seq<u8>,
    places: Seq<Place>,
)
    requires
        open_outcome(original) == Ok::<Opened, OpenRefusal>(file),
        append_outcome(file, 0, objects, second) == Ok::<(Seq<u8>, Seq<Place>), AppendRefusal>(
            (bytes, places),
        ),
        bytes.len() <= 0x7FFF_FFFF_FFFF_FFFF,
    ensures
        ({
            let at = original.len() + objects_bytes(objects, objects.len()).len();
            let trailer = updated_trailer(file, update_size(file, objects), second);
            &&& startxref_of(bytes) == Some(at)
            &&& section_at(bytes, at) matches Some(section) && is_update_section(
                section,
                file,
                objects,
                second,
                places,
                at,
            )
            &&& update_size(file, objects) < u32::MAX ==> (open_outcome(bytes) matches Ok(again)
                && again.original == bytes && again.kind == file.kind && again.prev_startxref == at
                && again.trailer == trailer && again.next_object_number >= trailer.size)
        }),
{
    lemma_opened_fits(original, file);
    match file.kind {
        XRefKind::Table => {
            lemma_update_with_table(original, file, objects, second, bytes, places);
        },
        XRefKind::Stream => {
            lemma_update_with_stream(original, file, objects, second, bytes, places);
        },
    }
}

} // verus!
