//! What is read from a file fits what an update has room for.

use crate::bytes::utf8;
use crate::number::unsigned_of;
use crate::pdfread::dictionary::{entry_index, lemma_entry_index, lookup, Entries};
use crate::pdfread::value::{entries_at, value_at};
use crate::pdfread::xref::{
    chain_at, highest_in_chain, highest_in_index, larger, number_under, rows_in_use, section_at,
    section_of, table_at, Section, XRefKind, MAX_SECTIONS,
};
use crate::pdfwrite::object::PdfValue;
use crate::pdfwrite::reopen::lines::reference_fits;
use crate::pdfwrite::tokenizer::object_tokens;
use crate::pdfwrite::writer::{
    open_outcome, past_highest, startxref_of, Numbered, OpenRefusal, Opened,
};
use vstd::prelude::*;
use vstd::utf8::decode_utf8;

verus! {

/// A reference that was read has numbers of the size that references have.
spec fn value_fits(value: PdfValue) -> bool {
    value matches PdfValue::IndirectRef { obj_num, gen_num } ==> obj_num <= u32::MAX && gen_num
        <= u16::MAX
}

/// So have the references of a dictionary.
spec fn entries_fit(entries: Entries) -> bool {
    forall|i: int| 0 <= i < entries.len() ==> value_fits((#[trigger] entries[i]).1)
}

proof fn lemma_entries_fit(tokens: Seq<Seq<u8>>, at: int, depth: nat, before: Entries)
    requires
        entries_fit(before),
    ensures
        entries_at(tokens, at, depth, before) matches Ok((entries, _)) ==> entries_fit(entries),
    decreases tokens.len() - at,
{
    if 0 <= at < tokens.len() {
        if let Ok((value, next)) = value_at(tokens, at + 1, depth + 1) {
            assert(value_fits(value));
            if at + 1 < next <= tokens.len() {
                let longer = before.push((decode_utf8(tokens[at]).drop_first(), value));
                assert forall|i: int| 0 <= i < longer.len() implies value_fits(
                    (#[trigger] longer[i]).1,
                ) by {
                    if i < before.len() {
                        assert(longer[i] == before[i]);
                    }
                }
                lemma_entries_fit(tokens, next, depth, longer);
            }
        }
    }
}

/// A number, where there is one, is the number of an object.
spec fn number_fits(n: Option<nat>) -> bool {
    n matches Some(n) ==> n <= u32::MAX
}

proof fn lemma_table_fits(
    tokens: Seq<Seq<u8>>,
    at: int,
    before: Seq<(u32, u64)>,
    highest: Option<nat>,
)
    requires
        number_fits(highest),
    ensures
        table_at(tokens, at, before, highest) matches Some((_, top, _)) ==> number_fits(top),
    decreases tokens.len() - at,
{
    if 0 <= at && at + 1 < tokens.len() && tokens[at] != utf8("trailer"@) {
        if let (Some(first), Some(count)) = (
            unsigned_of(tokens[at], u32::MAX as nat),
            unsigned_of(tokens[at + 1], u32::MAX as nat),
        ) {
            if at + 2 + 3 * count <= tokens.len() && first + count <= 0x1_0000_0000 {
                let top = larger(
                    highest,
                    if count == 0 {
                        None
                    } else {
                        Some((first + count - 1) as nat)
                    },
                );
                lemma_table_fits(
                    tokens,
                    at + 2 + 3 * count,
                    before + rows_in_use(tokens, at + 2, first, count),
                    top,
                );
            }
        }
    }
}

proof fn lemma_index_fits(items: Seq<PdfValue>, pairs: nat)
    ensures
        number_fits(highest_in_index(items, pairs)),
    decreases pairs,
{
    if pairs > 0 && 2 * pairs <= items.len() {
        lemma_index_fits(items, (pairs - 1) as nat);
    }
}

proof fn lemma_section_fits(tokens: Seq<Seq<u8>>, rest: Seq<u8>)
    ensures
        section_of(tokens, rest) matches Some(section) ==> entries_fit(section.trailer) && number_fits(
            section.highest,
        ),
{
    lemma_table_fits(tokens, 1, Seq::empty(), None);
    if let Some(section) = section_of(tokens, rest) {
        if section.kind == XRefKind::Table {
            let (_, _, at) = table_at(tokens, 1, Seq::empty(), None)->0;
            lemma_entries_fit(tokens, at + 1, 0, Seq::empty());
        } else {
            lemma_entries_fit(tokens, 4, 0, Seq::empty());
            if let Some(PdfValue::Array(items)) = lookup(section.trailer, "Index"@) {
                lemma_index_fits(items, items.len() / 2);
            }
        }
    }
}

proof fn lemma_chain_fits(bytes: Seq<u8>, at: nat, most: nat)
    ensures
        chain_at(bytes, at, most) matches Some(sections) ==> forall|i: int|
            0 <= i < sections.len() ==> number_fits((#[trigger] sections[i]).highest),
    decreases most,
{
    if most > 0 {
        reveal(section_at);
        if at <= bytes.len() {
            lemma_section_fits(object_tokens(bytes.skip(at as int), 0), bytes.skip(at as int));
        }
        if let Some(section) = section_at(bytes, at) {
            if let Some(prev) = number_under(section.trailer, "Prev"@) {
                lemma_chain_fits(bytes, prev, (most - 1) as nat);
            }
        }
    }
}

proof fn lemma_highest_fits(sections: Seq<Section>)
    requires
        forall|i: int| 0 <= i < sections.len() ==> number_fits((#[trigger] sections[i]).highest),
    ensures
        number_fits(highest_in_chain(sections)),
    decreases sections.len(),
{
    if sections.len() > 0 {
        let before = sections.drop_last();
        assert forall|i: int| 0 <= i < before.len() implies number_fits(
            (#[trigger] before[i]).highest,
        ) by {
            assert(before[i] == sections[i]);
        }
        lemma_highest_fits(before);
        assert(number_fits(sections[sections.len() - 1].highest));
    }
}

/// What was read from a file fits what an update has room for.
pub proof fn lemma_opened_fits(original: Seq<u8>, file: Opened)
    requires
        open_outcome(original) == Ok::<Opened, OpenRefusal>(file),
    ensures
        file.original == original,
        file.prev_startxref <= original.len(),
        file.next_object_number <= u32::MAX,
        reference_fits(file.trailer.root),
        reference_fits(file.trailer.info),
        file.trailer.id matches Some(strings) ==> strings.len() > 0,
{
    reveal(section_at);
    let at = startxref_of(original)->0;
    lemma_section_fits(object_tokens(original.skip(at as int), 0), original.skip(at as int));
    let entries = section_at(original, at)->0.trailer;
    assert(entry_index(entries, "Root"@, 0) >= 0 && entry_index(entries, "Info"@, 0) >= 0) by {
        lemma_entry_index(entries, "Root"@, 0);
        lemma_entry_index(entries, "Info"@, 0);
    }
    lemma_chain_fits(original, at, MAX_SECTIONS as nat);
    if let Some(sections) = chain_at(original, at, MAX_SECTIONS as nat) {
        lemma_highest_fits(sections);
    }
}

pub proof fn lemma_past_highest(objects: Seq<Numbered>, n: nat, i: int)
    requires
        0 <= i < n <= objects.len(),
    ensures
        objects[i].0 < past_highest(objects, n),
    decreases n,
{
    if i < n - 1 {
        lemma_past_highest(objects, (n - 1) as nat, i);
    }
}

} // verus!
