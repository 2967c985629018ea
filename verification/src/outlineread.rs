//! Bookmarks that were written are read back: the catalog leads to their root,
//! and the root says how many they are.

use crate::bytes::utf8;
use crate::number::{is_digit, unsigned_of};
use crate::pdfoutline::{
    child_entries, law_bookmarks_are_numbered_in_order, lemma_level_grows, level_len,
    level_objects, number_of, outline_objects, outline_outcome, outline_parts, OutlineEntry,
};
use crate::pdfread::dictionary::{entry_index, lookup, with_entry, Entries};
use crate::pdfread::filter::decoded;
use crate::pdfread::rows::{
    row_at, row_width, rows_by_run, rows_from, rows_read, run_in, runs_in, runs_of, widths_of, Widths,
};
use crate::pdfread::value::{entries_at, items_at, scalar_at, value_at, MAX_VALUE_DEPTH};
use crate::pdfread::xref::{
    chain_at, highest_in_index, highest_in_stream, larger, number_under, rows_in_use, section_at,
    table_at, Section, XRefKind, MAX_SECTIONS,
};
use crate::pdfwrite::laws::{law_places_point_at_their_objects, lemma_highest_in_chain};
use crate::pdfwrite::object::{is_escaped_in_name, name_body, PdfValue};
use crate::pdfwrite::readback::law_an_appended_object_is_found;
use crate::pdfwrite::readback::scalars::{ascii_text, lemma_ascii_text};
use crate::pdfwrite::readback::values::{
    are_writable, entries_read, have_writable_values, is_writable, read_as,
};
use crate::pdfwrite::reopen::fits::lemma_past_highest;
use crate::pdfwrite::reopen::{is_found, law_an_update_is_read_back};
use crate::pdfwrite::reopen::lines::lemma_entry_at;
use crate::pdfwrite::reopen::rows::{lemma_object_index, offset_of};
use crate::pdfwrite::reopen::table::listed;
use crate::pdfwrite::tokenizer::{object_tokens, stream_tail};
use crate::pdfwrite::writer::{
    append_outcome, max_of, objects_bytes, open_outcome, past_highest, startxref_of, trailer_of, Numbered,
    Opened,
};
use crate::sign::appearance::reference_to;
use crate::sign::document::{
    dictionary_of, layout_of, lemma_unspoken, lemma_unspoken_first, listed_objects, obj_index,
    object_index, unspoken, value_start, Layout,
};
use crate::sign::refusal::Refusal;
use crate::sign::revision::{fresh, in_order, law_objects_are_in_order};
use vstd::prelude::*;
use vstd::utf8::{
    encode_utf8_decode_utf8, is_ascii_chars, is_ascii_chars_encode_utf8,
};

verus! {

proof fn lemma_all_writable(entries: Entries, n: nat, room: int)
    requires
        n <= entries.len(),
    ensures
        have_writable_values(entries, n, room) <==> forall|i: int|
            0 <= i < n ==> is_writable((#[trigger] entries[i]).1, room),
    decreases n,
{
    if n > 0 {
        lemma_all_writable(entries, (n - 1) as nat, room);
        if have_writable_values(entries, n, room) {
            assert forall|i: int| 0 <= i < n implies is_writable((#[trigger] entries[i]).1, room) by {
                if i == n - 1 {
                    assert(is_writable(entries[n - 1].1, room));
                }
            }
        }
    }
}

proof fn lemma_all_items_writable(items: Seq<PdfValue>, n: nat, room: int)
    requires
        n <= items.len(),
    ensures
        are_writable(items, n, room) <==> forall|i: int|
            0 <= i < n ==> is_writable(#[trigger] items[i], room),
    decreases n,
{
    if n > 0 {
        lemma_all_items_writable(items, (n - 1) as nat, room);
        if are_writable(items, n, room) {
            assert forall|i: int| 0 <= i < n implies is_writable(#[trigger] items[i], room) by {
                if i == n - 1 {
                    assert(is_writable(items[n - 1], room));
                }
            }
        }
    }
}

/// A value that was read can be written.
proof fn lemma_read_is_writable(tokens: Seq<Seq<u8>>, index: int, depth: nat)
    ensures
        value_at(tokens, index, depth) matches Ok((value, _)) ==> is_writable(
            value,
            MAX_VALUE_DEPTH - depth,
        ),
    decreases tokens.len() - index, 0nat,
{
    if depth <= MAX_VALUE_DEPTH && 0 <= index < tokens.len() {
        if tokens[index] == utf8("<<"@) {
            lemma_read_entries(tokens, index + 1, depth, Seq::empty());
        } else if tokens[index] == utf8("["@) {
            lemma_read_items(tokens, index + 1, depth, Seq::empty());
        }
    }
}

proof fn lemma_read_entries(tokens: Seq<Seq<u8>>, index: int, depth: nat, before: Entries)
    requires
        have_writable_values(before, before.len(), MAX_VALUE_DEPTH - depth - 1),
    ensures
        entries_at(tokens, index, depth, before) matches Ok((entries, _)) ==> have_writable_values(
            entries,
            entries.len(),
            MAX_VALUE_DEPTH - depth - 1,
        ),
    decreases tokens.len() - index, 1nat,
{
    if 0 <= index < tokens.len() && tokens[index] != utf8(">>"@) {
        lemma_read_is_writable(tokens, index + 1, depth + 1);
        if let Ok((value, next)) = value_at(tokens, index + 1, depth + 1) {
            if index + 1 < next <= tokens.len() {
                let key = vstd::utf8::decode_utf8(tokens[index]).drop_first();
                let room = MAX_VALUE_DEPTH - depth - 1;
                let more = before.push((key, value));
                lemma_all_writable(before, before.len(), room);
                lemma_all_writable(more, more.len(), room);
                lemma_read_entries(tokens, next, depth, more);
            }
        }
    }
}

proof fn lemma_read_items(tokens: Seq<Seq<u8>>, index: int, depth: nat, before: Seq<PdfValue>)
    requires
        are_writable(before, before.len(), MAX_VALUE_DEPTH - depth - 1),
    ensures
        items_at(tokens, index, depth, before) matches Ok((items, _)) ==> are_writable(
            items,
            items.len(),
            MAX_VALUE_DEPTH - depth - 1,
        ),
    decreases tokens.len() - index, 1nat,
{
    if 0 <= index < tokens.len() && tokens[index] != utf8("]"@) {
        lemma_read_is_writable(tokens, index, depth + 1);
        if let Ok((value, next)) = value_at(tokens, index, depth + 1) {
            if index < next <= tokens.len() {
                let room = MAX_VALUE_DEPTH - depth - 1;
                let more = before.push(value);
                lemma_all_items_writable(before, before.len(), room);
                lemma_all_items_writable(more, more.len(), room);
                lemma_read_items(tokens, next, depth, more);
            }
        }
    }
}

/// A key of ASCII letters that a name holds without an escape.
spec fn stands_plain(key: Seq<char>) -> bool {
    &&& is_ascii_chars(key)
    &&& forall|i: int| 0 <= i < key.len() ==> !is_escaped_in_name(#[trigger] key[i] as u8)
}

/// A name without a mark of escape has none.
proof fn lemma_no_mark(bytes: Seq<u8>)
    ensures
        (forall|i: int| 0 <= i < name_body(bytes).len() ==> #[trigger] name_body(bytes)[i] != 0x23)
            ==> name_body(bytes) == bytes,
        (forall|i: int| 0 <= i < bytes.len() ==> !is_escaped_in_name(#[trigger] bytes[i]))
            ==> name_body(bytes) == bytes,
    decreases bytes.len(),
{
    let body = name_body(bytes);
    if bytes.len() > 0 {
        let shorter = bytes.drop_last();
        let before = name_body(shorter);
        lemma_no_mark(shorter);
        if forall|i: int| 0 <= i < body.len() ==> #[trigger] body[i] != 0x23 {
            if is_escaped_in_name(bytes.last()) {
                assert(body[before.len() as int] == 0x23);
            }
            assert forall|i: int| 0 <= i < before.len() implies #[trigger] before[i] != 0x23 by {
                assert(body[i] == before[i]);
            }
            assert(body =~= bytes);
        }
        if forall|i: int| 0 <= i < bytes.len() ==> !is_escaped_in_name(#[trigger] bytes[i]) {
            assert forall|i: int| 0 <= i < shorter.len() implies !is_escaped_in_name(
                #[trigger] shorter[i],
            ) by {
                assert(shorter[i] == bytes[i]);
            }
            assert(!is_escaped_in_name(bytes[bytes.len() - 1]));
            assert(body =~= bytes);
        }
    } else {
        assert(body =~= bytes);
    }
}

/// A plain key is read as it was written, and no other key is read as it.
proof fn lemma_plain_key(written: Seq<char>, key: Seq<char>)
    requires
        stands_plain(key),
    ensures
        ascii_text(name_body(utf8(written))) == key <==> written == key,
{
    is_ascii_chars_encode_utf8(key);
    let bytes = utf8(key);
    assert forall|i: int| 0 <= i < bytes.len() implies !is_escaped_in_name(#[trigger] bytes[i])
        && bytes[i] < 128 by {
        assert(bytes[i] == key[i] as u8);
        assert(!is_escaped_in_name(key[i] as u8));
    }
    lemma_no_mark(bytes);
    lemma_ascii_text(bytes);
    encode_utf8_decode_utf8(key);
    assert(ascii_text(bytes) == key);
    let body = name_body(utf8(written));
    if ascii_text(body) == key {
        assert forall|i: int| 0 <= i < body.len() implies #[trigger] body[i] != 0x23 by {
            assert(ascii_text(body)[i] == body[i] as char);
            assert(key[i] == body[i] as char);
            assert(!is_escaped_in_name(key[i] as u8));
        }
        lemma_no_mark(utf8(written));
        assert(body =~= bytes) by {
            assert(body.len() == key.len());
            assert forall|i: int| 0 <= i < body.len() implies body[i] == bytes[i] by {
                assert(ascii_text(body)[i] == body[i] as char);
                assert(bytes[i] == key[i] as u8);
            }
        }
        encode_utf8_decode_utf8(written);
    }
}

proof fn lemma_entries_read(entries: Entries, n: nat)
    requires
        n <= entries.len(),
    ensures
        entries_read(entries, n).len() == n,
        forall|i: int|
            0 <= i < n ==> (#[trigger] entries_read(entries, n)[i]) == (
                ascii_text(name_body(utf8(entries[i].0))),
                read_as(entries[i].1),
            ),
    decreases n,
{
    if n > 0 {
        lemma_entries_read(entries, (n - 1) as nat);
    }
}

proof fn lemma_index_read(entries: Entries, key: Seq<char>, from: int)
    requires
        stands_plain(key),
        0 <= from <= entries.len(),
    ensures
        entry_index(entries_read(entries, entries.len()), key, from) == entry_index(
            entries,
            key,
            from,
        ),
        from <= entry_index(entries, key, from) <= entries.len(),
    decreases entries.len() - from,
{
    lemma_entries_read(entries, entries.len());
    if from < entries.len() {
        lemma_plain_key(entries[from].0, key);
        assert(entries_read(entries, entries.len())[from].0 == ascii_text(
            name_body(utf8(entries[from].0)),
        ));
        if entries[from].0 != key {
            lemma_index_read(entries, key, from + 1);
        }
    }
}

/// What is under a plain key is read under it.
proof fn lemma_lookup_read(entries: Entries, key: Seq<char>)
    requires
        stands_plain(key),
    ensures
        lookup(entries_read(entries, entries.len()), key) == match lookup(entries, key) {
            Some(value) => Some(read_as(value)),
            None => None,
        },
{
    lemma_index_read(entries, key, 0);
    lemma_entries_read(entries, entries.len());
}

proof fn lemma_first_of_key(entries: Entries, key: Seq<char>, from: int)
    requires
        0 <= from <= entries.len(),
    ensures
        from <= entry_index(entries, key, from) <= entries.len(),
        forall|i: int|
            from <= i < entry_index(entries, key, from) ==> (#[trigger] entries[i]).0 != key,
        entry_index(entries, key, from) < entries.len() ==> entries[entry_index(
            entries,
            key,
            from,
        )].0 == key,
    decreases entries.len() - from,
{
    if from < entries.len() && entries[from].0 != key {
        lemma_first_of_key(entries, key, from + 1);
    }
}

/// What is set under a key is found under it.
proof fn lemma_lookup_set(entries: Entries, key: Seq<char>, value: PdfValue)
    ensures
        lookup(with_entry(entries, key, value), key) == Some(value),
{
    lemma_first_of_key(entries, key, 0);
    lemma_entry_at(with_entry(entries, key, value), key, 0, entry_index(entries, key, 0));
}

proof fn lemma_set_is_writable(entries: Entries, key: Seq<char>, value: PdfValue, room: int)
    requires
        have_writable_values(entries, entries.len(), room),
        is_writable(value, room),
    ensures
        have_writable_values(
            with_entry(entries, key, value),
            with_entry(entries, key, value).len(),
            room,
        ),
{
    let set = with_entry(entries, key, value);
    lemma_first_of_key(entries, key, 0);
    lemma_all_writable(entries, entries.len(), room);
    lemma_all_writable(set, set.len(), room);
    assert forall|i: int| 0 <= i < set.len() implies is_writable((#[trigger] set[i]).1, room) by {
        if i < entries.len() {
            assert(is_writable(entries[i].1, room));
        }
    }
}

/// The words that lead from a catalog to its bookmarks are plain.
proof fn lemma_outline_keys()
    ensures
        stands_plain("Outlines"@),
        stands_plain("Type"@),
        stands_plain("First"@),
        stands_plain("Last"@),
        stands_plain("Count"@),
        "Type"@ != "First"@,
        "Type"@ != "Last"@,
        "Type"@ != "Count"@,
        "First"@ != "Last"@,
        "First"@ != "Count"@,
        "Last"@ != "Count"@,
{
    reveal_strlit("Outlines");
    reveal_strlit("Type");
    reveal_strlit("First");
    reveal_strlit("Last");
    reveal_strlit("Count");
    assert("Type"@[0] == 'T' && "First"@[0] == 'F' && "Last"@[0] == 'L' && "Count"@[0] == 'C');
}

/// No object that a section lists has a number above the highest it speaks of.
spec fn lists_within(offsets: Seq<(u32, u64)>, highest: Option<nat>) -> bool {
    forall|k: int|
        0 <= k < offsets.len() ==> highest is Some && (#[trigger] offsets[k]).0 <= highest->0
}

proof fn lemma_rows_within(tokens: Seq<Seq<u8>>, at: int, first: nat, count: nat)
    requires
        first + count <= 0x1_0000_0000,
    ensures
        forall|k: int|
            0 <= k < rows_in_use(tokens, at, first, count).len() ==> count > 0 && (
            #[trigger] rows_in_use(tokens, at, first, count)[k]).0 <= first + count - 1,
    decreases count,
{
    if count > 0 {
        lemma_rows_within(tokens, at, first, (count - 1) as nat);
        let before = rows_in_use(tokens, at, first, (count - 1) as nat);
        let all = rows_in_use(tokens, at, first, count);
        assert forall|k: int| 0 <= k < all.len() implies (#[trigger] all[k]).0 <= first + count
            - 1 by {
            if k < before.len() {
                assert(all[k] == before[k]);
            } else {
                assert(all[k].0 == (first + count - 1) as u32);
            }
        }
    }
}

proof fn lemma_table_within(
    tokens: Seq<Seq<u8>>,
    at: int,
    before: Seq<(u32, u64)>,
    highest: Option<nat>,
)
    requires
        lists_within(before, highest),
    ensures
        table_at(tokens, at, before, highest) matches Some((offsets, top, _)) ==> lists_within(
            offsets,
            top,
        ),
    decreases tokens.len() - at,
{
    if 0 <= at && at + 1 < tokens.len() && tokens[at] != utf8("trailer"@) {
        if let (Some(first), Some(count)) = (
            unsigned_of(tokens[at], u32::MAX as nat),
            unsigned_of(tokens[at + 1], u32::MAX as nat),
        ) {
            if at + 2 + 3 * count <= tokens.len() && first + count <= 0x1_0000_0000 {
                lemma_rows_within(tokens, at + 2, first, count);
                let rows = rows_in_use(tokens, at + 2, first, count);
                let longer = before + rows;
                let top = larger(
                    highest,
                    if count == 0 {
                        None
                    } else {
                        Some((first + count - 1) as nat)
                    },
                );
                assert forall|k: int| 0 <= k < longer.len() implies top is Some && (
                #[trigger] longer[k]).0 <= top->0 by {
                    if k < before.len() {
                        assert(longer[k] == before[k]);
                    } else {
                        assert(longer[k] == rows[k - before.len()]);
                    }
                }
                lemma_table_within(tokens, at + 2 + 3 * count, longer, top);
            }
        }
    }
}

/// No object listed has a number outside of some run.
spec fn lists_in_runs(offsets: Seq<(u32, u64)>, runs: Seq<(nat, nat)>) -> bool {
    forall|i: int|
        0 <= i < offsets.len() ==> exists|k: int|
            0 <= k < runs.len() && (#[trigger] runs[k]).0 <= (#[trigger] offsets[i]).0 < runs[k].0
                + runs[k].1
}

proof fn lemma_rows_from(data: Seq<u8>, widths: Widths, at: int, first: nat, count: nat)
    requires
        first + count <= 0x1_0000_0000,
    ensures
        forall|i: int|
            0 <= i < rows_from(data, widths, at, first, count).len() ==> first <= (
            #[trigger] rows_from(data, widths, at, first, count)[i]).0 < first + count,
    decreases count,
{
    if count > 0 && at + row_width(widths) <= data.len() {
        let next = (at + row_width(widths)) as int;
        lemma_rows_from(data, widths, next, first + 1, (count - 1) as nat);
        let row = row_at(data, widths, at, first);
        let more = rows_from(data, widths, next, first + 1, (count - 1) as nat);
        let all = rows_from(data, widths, at, first, count);
        assert(all == row + more);
        assert forall|i: int| 0 <= i < all.len() implies first <= (#[trigger] all[i]).0 < first
            + count by {
            if i >= row.len() {
                assert(all[i] == more[i - row.len()]);
            }
        }
    }
}

proof fn lemma_rows_by_run(
    data: Seq<u8>,
    widths: Widths,
    at: int,
    runs: Seq<(nat, nat)>,
    k: int,
)
    requires
        0 <= k <= runs.len(),
        forall|j: int| 0 <= j < runs.len() ==> (#[trigger] runs[j]).0 + runs[j].1 <= 0x1_0000_0000,
    ensures
        lists_in_runs(rows_by_run(data, widths, at, runs, k), runs),
    decreases runs.len() - k,
{
    if k < runs.len() {
        let next = (at + row_width(widths) * runs[k].1) as int;
        lemma_rows_from(data, widths, at, runs[k].0, runs[k].1);
        lemma_rows_by_run(data, widths, next, runs, k + 1);
        let rows = rows_from(data, widths, at, runs[k].0, runs[k].1);
        let more = rows_by_run(data, widths, next, runs, k + 1);
        let all = rows_by_run(data, widths, at, runs, k);
        assert(all == rows + more);
        assert forall|i: int| 0 <= i < all.len() implies exists|j: int|
            0 <= j < runs.len() && (#[trigger] runs[j]).0 <= (#[trigger] all[i]).0 < runs[j].0
                + runs[j].1 by {
            if i < rows.len() {
                assert(all[i] == rows[i]);
                assert(runs[k].0 <= all[i].0 < runs[k].0 + runs[k].1);
            } else {
                assert(all[i] == more[i - rows.len()]);
            }
        }
    }
}

proof fn lemma_index_within(items: Seq<PdfValue>, pairs: nat, k: int)
    requires
        0 <= k < pairs <= items.len() / 2,
        runs_in(items)[k].1 > 0,
    ensures
        highest_in_index(items, pairs) matches Some(top) && runs_in(items)[k].0
            + runs_in(items)[k].1 <= top + 1,
    decreases pairs,
{
    if k < pairs - 1 {
        lemma_index_within(items, (pairs - 1) as nat, k);
    } else {
        assert(runs_in(items)[k] == run_in(items[2 * k], items[2 * k + 1]));
    }
}

proof fn lemma_rows_read_within(entries: Entries, rest: Seq<u8>)
    ensures
        lists_within(rows_read(entries, rest), highest_in_stream(entries)),
{
    let offsets = rows_read(entries, rest);
    if offsets.len() > 0 {
        let tail = stream_tail(rest, 0)->0;
        let length = number_under(entries, "Length"@)->0;
        let widths = widths_of(entries)->0;
        let data = decoded(entries, tail.take(length as int))->0;
        let runs = runs_of(entries);
        assert forall|j: int| 0 <= j < runs.len() implies (#[trigger] runs[j]).0 + runs[j].1
            <= 0x1_0000_0000 by {
            if let Some(PdfValue::Array(items)) = lookup(entries, "Index"@) {
                assert(runs[j] == run_in(items[2 * j], items[2 * j + 1]));
            }
        }
        lemma_rows_by_run(data, widths, 0, runs, 0);
        assert(offsets == rows_by_run(data, widths, 0, runs, 0));
        let highest = highest_in_stream(entries);
        assert forall|k: int| 0 <= k < runs.len() && (#[trigger] runs[k]).1 > 0 implies highest
            is Some && runs[k].0 + runs[k].1 <= highest->0 + 1 by {
            if let Some(PdfValue::Array(items)) = lookup(entries, "Index"@) {
                lemma_index_within(items, items.len() / 2, k);
            }
        }
        lemma_in_runs_within(offsets, runs, highest);
    }
}

proof fn lemma_in_runs_within(
    offsets: Seq<(u32, u64)>,
    runs: Seq<(nat, nat)>,
    highest: Option<nat>,
)
    requires
        lists_in_runs(offsets, runs),
        forall|k: int|
            0 <= k < runs.len() && (#[trigger] runs[k]).1 > 0 ==> highest is Some && runs[k].0
                + runs[k].1 <= highest->0 + 1,
    ensures
        lists_within(offsets, highest),
{
    assert forall|i: int| 0 <= i < offsets.len() implies highest is Some && (
    #[trigger] offsets[i]).0 <= highest->0 by {
        let k = choose|k: int|
            0 <= k < runs.len() && (#[trigger] runs[k]).0 <= offsets[i].0 < runs[k].0 + runs[k].1;
        assert(runs[k].1 > 0);
    }
    if offsets.len() > 0 {
        assert(offsets[0].0 <= highest->0);
    }
}

proof fn lemma_section_within(bytes: Seq<u8>, at: nat)
    ensures
        section_at(bytes, at) matches Some(section) ==> lists_within(
            section.offsets,
            section.highest,
        ),
{
    reveal(section_at);
    if at <= bytes.len() {
        let tokens = crate::pdfwrite::tokenizer::object_tokens(bytes.skip(at as int), 0);
        lemma_table_within(tokens, 1, Seq::empty(), None);
        if let Some(section) = section_at(bytes, at) {
            if section.kind == XRefKind::Stream {
                lemma_rows_read_within(section.trailer, bytes.skip(at as int));
            }
        }
    }
}

proof fn lemma_chain_within(bytes: Seq<u8>, at: nat, most: nat)
    ensures
        chain_at(bytes, at, most) matches Some(sections) ==> sections.len() > 0 && sections[0]
            == section_at(bytes, at)->0 && section_at(bytes, at) is Some && forall|i: int|
            0 <= i < sections.len() ==> lists_within(
                (#[trigger] sections[i]).offsets,
                sections[i].highest,
            ),
    decreases most,
{
    if most > 0 {
        if let Some(section) = section_at(bytes, at) {
            lemma_section_within(bytes, at);
            if let Some(prev) = crate::pdfread::xref::number_under(section.trailer, "Prev"@) {
                lemma_chain_within(bytes, prev, (most - 1) as nat);
                if let Some(rest) = chain_at(bytes, prev, (most - 1) as nat) {
                    let sections = seq![section] + rest;
                    assert forall|i: int| 0 <= i < sections.len() implies lists_within(
                        (#[trigger] sections[i]).offsets,
                        sections[i].highest,
                    ) by {
                        if i > 0 {
                            assert(sections[i] == rest[i - 1]);
                        }
                    }
                }
            }
        }
    }
}

/// The newest section lists its objects first, and whatever is listed is listed
/// by a section.
proof fn lemma_listed(sections: Seq<Section>, n: nat, k: int)
    requires
        0 < n <= sections.len(),
        0 <= k < listed_objects(sections, n).len(),
    ensures
        listed_objects(sections, n) == sections[0].offsets + listed_objects(sections, n).skip(
            sections[0].offsets.len() as int,
        ),
        listed_objects(sections, n).len() >= sections[0].offsets.len(),
        exists|i: int|
            0 <= i < n && (#[trigger] sections[i]).offsets.contains(
                listed_objects(sections, n)[k],
            ),
    decreases n,
{
    let all = listed_objects(sections, n);
    let before = listed_objects(sections, (n - 1) as nat);
    let older = sections[n - 1].offsets;
    let last = unspoken(older, older.len(), sections, (n - 1) as nat);
    assert(all == before + last);
    lemma_unspoken(older, older.len(), sections, (n - 1) as nat);
    if n == 1 {
        lemma_unspoken_first(older, older.len(), sections);
        assert(before =~= Seq::empty());
        assert(older.take(older.len() as int) =~= older);
        assert(all =~= older);
    } else {
        lemma_listed_first(sections, (n - 1) as nat);
        assert(all =~= sections[0].offsets + all.skip(sections[0].offsets.len() as int)) by {
            assert forall|j: int| 0 <= j < sections[0].offsets.len() implies all[j]
                == sections[0].offsets[j] by {
                assert(all[j] == before[j]);
            }
        }
    }
    if k < before.len() {
        lemma_listed(sections, (n - 1) as nat, k);
        let i = choose|i: int|
            0 <= i < n - 1 && (#[trigger] sections[i]).offsets.contains(before[k]);
        assert(sections[i].offsets.contains(all[k]));
    } else {
        assert(last[k - before.len()] == all[k]);
        assert(sections[n - 1].offsets.contains(all[k]));
    }
}

proof fn lemma_listed_first(sections: Seq<Section>, n: nat)
    requires
        0 < n <= sections.len(),
    ensures
        listed_objects(sections, n).len() >= sections[0].offsets.len(),
        forall|j: int|
            0 <= j < sections[0].offsets.len() ==> #[trigger] listed_objects(sections, n)[j]
                == sections[0].offsets[j],
    decreases n,
{
    if n > 1 {
        lemma_listed_first(sections, (n - 1) as nat);
    } else {
        let older = sections[0].offsets;
        lemma_unspoken_first(older, older.len(), sections);
        assert(older.take(older.len() as int) =~= older);
        assert(listed_objects(sections, 0) =~= Seq::empty());
    }
}

/// The catalog of a document is no new object of an update.
proof fn lemma_catalog_is_old(bytes: Seq<u8>)
    requires
        open_outcome(bytes) is Ok,
        outline_parts(bytes) is Ok,
        open_outcome(bytes)->Ok_0.next_object_number < u32::MAX,
    ensures
        ({
            let (catalog, _, _) = outline_parts(bytes)->Ok_0;
            let file = open_outcome(bytes)->Ok_0;
            &&& catalog.0 < file.next_object_number
            &&& file.trailer.root matches Some((number, _)) && number == catalog.0
        }),
{
    let (catalog, _, _) = outline_parts(bytes)->Ok_0;
    let file = open_outcome(bytes)->Ok_0;
    let layout = layout_of(bytes)->0;
    let at = startxref_of(bytes)->0;
    let sections = chain_at(bytes, at, MAX_SECTIONS as nat)->0;
    lemma_chain_within(bytes, at, MAX_SECTIONS as nat);
    let all = listed_objects(sections, sections.len());
    lemma_object_index(all, catalog.0, 0);
    let k = object_index(all, catalog.0, 0);
    assert(k < all.len());
    lemma_listed(sections, sections.len(), k);
    let i = choose|i: int|
        0 <= i < sections.len() && (#[trigger] sections[i]).offsets.contains(all[k]);
    let offsets = sections[i].offsets;
    let j = choose|j: int| 0 <= j < offsets.len() && offsets[j] == all[k];
    assert(lists_within(sections[i].offsets, sections[i].highest));
    assert(offsets[j].0 <= sections[i].highest->0);
    lemma_highest_in_chain(sections, i);
}

proof fn lemma_no_obj(token: Seq<u8>, max: nat)
    requires
        unsigned_of(token, max) is Some,
    ensures
        token != utf8("obj"@),
{
    reveal_strlit("obj");
    is_ascii_chars_encode_utf8("obj"@);
    assert(utf8("obj"@)[0] == 111);
    if token == utf8("obj"@) {
        assert(!is_digit(token[0]));
        if token[0] == 43 {
        }
    }
}

/// A dictionary that an update appended is the one found under its number, with
/// whatever older objects there are.
proof fn lemma_appended_dictionary(
    file: Opened,
    objects: Seq<Numbered>,
    id2: Seq<u8>,
    which: Numbered,
    entries: Entries,
    layout: Layout,
    offsets: Seq<(u32, u64)>,
    older: Seq<(u32, u64)>,
)
    requires
        append_outcome(file, 0, in_order(objects, objects.len()), id2) is Ok,
        append_outcome(file, 0, in_order(objects, objects.len()), id2)->Ok_0.0.len() <= u64::MAX,
        objects.contains(which),
        forall|k: int|
            0 <= k < objects.len() && (#[trigger] objects[k]).0 == which.0 ==> objects[k] == which,
        which.2 == PdfValue::Dictionary(entries),
        is_writable(which.2, MAX_VALUE_DEPTH as int),
        layout.objects == offsets + older,
        offset_of(offsets, which.0 as nat) == offset_of(
            listed(append_outcome(file, 0, in_order(objects, objects.len()), id2)->Ok_0.1),
            which.0 as nat,
        ),
    ensures
        dictionary_of(
            append_outcome(file, 0, in_order(objects, objects.len()), id2)->Ok_0.0,
            layout,
            which.0 as nat,
        ) == Ok::<Entries, Refusal>(entries_read(entries, entries.len())),
{
    broadcast use vstd::seq_lib::group_to_multiset_ensures;

    let ordered = in_order(objects, objects.len());
    let n = objects.len();
    let (output, places) = append_outcome(file, 0, ordered, id2)->Ok_0;
    law_objects_are_in_order(objects, n);
    assert(objects.take(n as int) =~= objects);
    assert(ordered.contains(which)) by {
        assert(objects.to_multiset().count(which) > 0);
    }
    let held = choose|k: int| 0 <= k < ordered.len() && ordered[k] == which;
    lemma_output_length(file, ordered, id2);
    law_places_point_at_their_objects(file, ordered, id2, held);
    let list = listed(places);
    assert(list[held].0 == which.0);
    lemma_object_index(list, which.0 as nat, 0);
    let index = object_index(list, which.0 as nat, 0);
    assert(index <= held);
    let all = layout.objects;
    lemma_object_index(offsets, which.0 as nat, 0);
    let first = object_index(offsets, which.0 as nat, 0);
    assert(offsets[first].1 == places[index].2);
    lemma_object_index(all, which.0 as nat, 0);
    let at = object_index(all, which.0 as nat, 0);
    assert(at == first) by {
        assert(all[first] == offsets[first]);
        if at < first {
            assert(all[at] == offsets[at]);
        }
    }
    law_places_point_at_their_objects(file, ordered, id2, index);
    assert(ordered[index].0 == which.0);
    assert(ordered[index] == which) by {
        assert(ordered.to_multiset().count(ordered[index]) > 0);
        assert(objects.contains(ordered[index]));
        let k = choose|k: int| 0 <= k < objects.len() && objects[k] == ordered[index];
        assert(objects[k].0 == which.0);
    }
    law_an_appended_object_is_found(file, ordered, id2, index);
    let tokens = object_tokens(output.skip(places[index].2 as int), 0);
    lemma_no_obj(tokens[0], u32::MAX as nat);
    lemma_no_obj(tokens[1], u16::MAX as nat);
    reveal_with_fuel(obj_index, 4);
    assert(value_start(tokens) == 3);
    assert(tokens[3] == utf8("<<"@)) by {
        if tokens[3] == utf8("["@) {
        } else if tokens[3] != utf8("<<"@) {
            assert(value_at(tokens, 3, 0) == scalar_at(tokens, 3));
        }
    }
}

proof fn lemma_output_length(file: Opened, objects: Seq<Numbered>, id2: Seq<u8>)
    requires
        append_outcome(file, 0, objects, id2) is Ok,
    ensures
        file.original.len() + objects_bytes(objects, objects.len()).len() <= append_outcome(
            file,
            0,
            objects,
            id2,
        )->Ok_0.0.len(),
{
}

/// The root of a tree of bookmarks, as a dictionary.
pub open spec fn root_entries(entries: Seq<OutlineEntry>, root: nat) -> Entries {
    seq![("Type"@, PdfValue::Name("Outlines"@))] + child_entries(entries, root + 1)
}

/// Is this the root of these bookmarks, whose first has the number behind its
/// own? Without bookmarks it leads nowhere and counts nothing.
pub open spec fn is_outline_root(found: Entries, entries: Seq<OutlineEntry>, root: nat) -> bool {
    &&& lookup(found, "Type"@) == Some(PdfValue::Name("Outlines"@))
    &&& if entries.len() == 0 {
        &&& lookup(found, "First"@) is None
        &&& lookup(found, "Last"@) is None
        &&& lookup(found, "Count"@) is None
    } else {
        &&& lookup(found, "First"@) == Some(reference_to(root + 1))
        &&& lookup(found, "Last"@) == Some(
            reference_to(number_of(entries, entries.len() - 1, root + 1)),
        )
        &&& lookup(found, "Count"@) == Some(
            PdfValue::Integer(level_len(entries, entries.len()) as int),
        )
    }
}

proof fn lemma_root_entries(entries: Seq<OutlineEntry>, root: nat)
    requires
        root + level_len(entries, entries.len()) + 1 <= u32::MAX,
    ensures
        is_writable(PdfValue::Dictionary(root_entries(entries, root)), MAX_VALUE_DEPTH as int),
        is_outline_root(
            entries_read(root_entries(entries, root), root_entries(entries, root).len()),
            entries,
            root,
        ),
{
    let all = root_entries(entries, root);
    lemma_outline_keys();
    lemma_plain_key("Outlines"@, "Outlines"@);
    lemma_lookup_read(all, "Type"@);
    lemma_lookup_read(all, "First"@);
    lemma_lookup_read(all, "Last"@);
    lemma_lookup_read(all, "Count"@);
    lemma_all_writable(all, all.len(), MAX_VALUE_DEPTH - 1);
    reveal_with_fuel(entry_index, 5);
    if entries.len() > 0 {
        lemma_level_grows(entries, (entries.len() - 1) as nat, entries.len());
        assert(all[0].0 == "Type"@ && all[1].0 == "First"@ && all[2].0 == "Last"@ && all[3].0
            == "Count"@);
    } else {
        assert(all[0].0 == "Type"@);
    }
}

/// The catalog and the root are among the objects of the bookmarks, and each is
/// the only one of its number.
proof fn lemma_outline_objects(
    entries: Seq<OutlineEntry>,
    root: nat,
    pages: Seq<u32>,
    catalog: (nat, nat),
    catalog_entries: Entries,
    top: Numbered,
    head: Numbered,
)
    requires
        root + level_len(entries, entries.len()) + 1 <= u32::MAX,
        catalog.0 < root,
        top == (
            catalog.0 as u32,
            catalog.1 as u16,
            PdfValue::Dictionary(
                with_entry(catalog_entries, "Outlines"@, reference_to(root)),
            ),
        ),
        head == fresh(root, PdfValue::Dictionary(root_entries(entries, root))),
    ensures
        ({
            let objects = outline_objects(entries, root, pages, catalog, catalog_entries);
            &&& objects.contains(top)
            &&& objects.contains(head)
            &&& forall|k: int|
                0 <= k < objects.len() && (#[trigger] objects[k]).0 == top.0 ==> objects[k] == top
            &&& forall|k: int|
                0 <= k < objects.len() && (#[trigger] objects[k]).0 == head.0 ==> objects[k]
                    == head
        }),
{
    let objects = outline_objects(entries, root, pages, catalog, catalog_entries);
    let items = level_objects(entries, entries.len(), root + 1, root, pages);
    law_bookmarks_are_numbered_in_order(entries, entries.len(), root + 1, root, pages);
    assert(objects == items.push(head).push(top));
    assert(objects[items.len() as int] == head);
    assert(objects[(items.len() + 1) as int] == top);
    assert forall|k: int| 0 <= k < objects.len() implies ((#[trigger] objects[k]).0 == top.0
        ==> objects[k] == top) && (objects[k].0 == head.0 ==> objects[k] == head) by {
        if k < items.len() {
            assert(objects[k] == items[k]);
            assert(items[k].0 == root + 1 + k);
        }
    }
}

/// The number of an object of an update is below its size.
proof fn lemma_numbers_are_taken(
    objects: Seq<Numbered>,
    ordered: Seq<Numbered>,
    which: Numbered,
)
    requires
        objects.contains(which),
        ordered == in_order(objects, objects.len()),
    ensures
        which.0 < past_highest(ordered, ordered.len()),
{
    broadcast use vstd::seq_lib::group_to_multiset_ensures;

    law_objects_are_in_order(objects, objects.len());
    assert(objects.take(objects.len() as int) =~= objects);
    assert(ordered.contains(which)) by {
        assert(objects.to_multiset().count(which) > 0);
    }
    let held = choose|k: int| 0 <= k < ordered.len() && ordered[k] == which;
    lemma_past_highest(ordered, ordered.len(), held);
}

/// By what an update lists, the catalog leads to the root of the bookmarks.
proof fn lemma_outline_is_found(
    bytes: Seq<u8>,
    entries: Seq<OutlineEntry>,
    id2: Seq<u8>,
    objects: Seq<Numbered>,
    offsets: Seq<(u32, u64)>,
    older: Seq<(u32, u64)>,
)
    requires
        open_outcome(bytes) is Ok,
        outline_parts(bytes) is Ok,
        ({
            let file = open_outcome(bytes)->Ok_0;
            let (catalog, catalog_entries, pages) = outline_parts(bytes)->Ok_0;
            let root = file.next_object_number;
            let ordered = in_order(objects, objects.len());
            &&& root + level_len(entries, entries.len()) + 1 <= u32::MAX
            &&& objects == outline_objects(entries, root, pages, catalog, catalog_entries)
            &&& append_outcome(file, 0, ordered, id2) matches Ok((output, places)) && output.len()
                <= u64::MAX && forall|number: u32|
                is_found(file, number) && number < max_of(
                    root,
                    past_highest(ordered, ordered.len()),
                ) ==> #[trigger] offset_of(offsets, number as nat) == offset_of(
                    listed(places),
                    number as nat,
                )
            &&& catalog.0 <= u32::MAX
            &&& is_found(file, catalog.0 as u32)
            &&& root > 0
        }),
    ensures
        ({
            let file = open_outcome(bytes)->Ok_0;
            let (catalog, _, _) = outline_parts(bytes)->Ok_0;
            let root = file.next_object_number;
            let output = append_outcome(file, 0, in_order(objects, objects.len()), id2)->Ok_0.0;
            let layout = Layout {
                encrypted: false,
                catalog: Some(catalog.0),
                objects: offsets + older,
            };
            &&& dictionary_of(output, layout, catalog.0) matches Ok(found) && lookup(
                found,
                "Outlines"@,
            ) == Some(reference_to(root))
            &&& dictionary_of(output, layout, root) matches Ok(found) && is_outline_root(
                found,
                entries,
                root,
            )
        }),
{
    let file = open_outcome(bytes)->Ok_0;
    let (catalog, catalog_entries, pages) = outline_parts(bytes)->Ok_0;
    let root = file.next_object_number;
    let ordered = in_order(objects, objects.len());
    lemma_catalog_is_old(bytes);
    let layout = Layout {
        encrypted: false,
        catalog: Some(catalog.0),
        objects: offsets + older,
    };
    lemma_catalog_is_writable(bytes, root);
    lemma_root_entries(entries, root);
    let set = with_entry(catalog_entries, "Outlines"@, reference_to(root));
    let top = (catalog.0 as u32, catalog.1 as u16, PdfValue::Dictionary(set));
    let head = fresh(root, PdfValue::Dictionary(root_entries(entries, root)));
    lemma_outline_objects(entries, root, pages, catalog, catalog_entries, top, head);
    lemma_numbers_are_taken(objects, ordered, top);
    lemma_numbers_are_taken(objects, ordered, head);
    lemma_appended_dictionary(file, objects, id2, top, set, layout, offsets, older);
    lemma_appended_dictionary(
        file,
        objects,
        id2,
        head,
        root_entries(entries, root),
        layout,
        offsets,
        older,
    );
    lemma_outline_keys();
    lemma_lookup_set(catalog_entries, "Outlines"@, reference_to(root));
    lemma_lookup_read(set, "Outlines"@);
}

/// Bookmarks that were written are read back: the newest section of the
/// document speaks of no encryption and keeps its root, and by what it lists,
/// with whatever older objects there are, the catalog names the root of the
/// bookmarks, which counts them and leads to the first and the last.
#[verifier::spinoff_prover]
#[verifier::rlimit(60)]
pub proof fn law_bookmarks_are_read_back(
    bytes: Seq<u8>,
    entries: Seq<OutlineEntry>,
    id2: Seq<u8>,
    older: Seq<(u32, u64)>,
)
    requires
        outline_outcome(bytes, entries, id2) is Ok,
        outline_outcome(bytes, entries, id2)->Ok_0.len() <= 0x7FFF_FFFF_FFFF_FFFF,
        is_found(open_outcome(bytes)->Ok_0, outline_parts(bytes)->Ok_0.0.0 as u32),
    ensures
        ({
            let output = outline_outcome(bytes, entries, id2)->Ok_0;
            let file = open_outcome(bytes)->Ok_0;
            let (catalog, _, _) = outline_parts(bytes)->Ok_0;
            let root = file.next_object_number;
            &&& startxref_of(output) matches Some(at) && section_at(output, at) matches Some(
                section,
            ) && lookup(section.trailer, "Encrypt"@) is None && trailer_of(section.trailer).root
                == file.trailer.root && ({
                let layout = Layout {
                    encrypted: false,
                    catalog: Some(catalog.0),
                    objects: section.offsets + older,
                };
                &&& dictionary_of(output, layout, catalog.0) matches Ok(found) && lookup(
                    found,
                    "Outlines"@,
                ) == Some(reference_to(root))
                &&& dictionary_of(output, layout, root) matches Ok(found) && is_outline_root(
                    found,
                    entries,
                    root,
                )
            })
            &&& file.trailer.root matches Some((number, _)) && number == catalog.0
        }),
{
    let file = open_outcome(bytes)->Ok_0;
    let (catalog, catalog_entries, pages) = outline_parts(bytes)->Ok_0;
    let root = file.next_object_number;
    let objects = outline_objects(entries, root, pages, catalog, catalog_entries);
    let ordered = in_order(objects, objects.len());
    let (output, places) = append_outcome(file, 0, ordered, id2)->Ok_0;
    assert(output == outline_outcome(bytes, entries, id2)->Ok_0);
    lemma_catalog_is_old(bytes);
    law_an_update_is_read_back(bytes, file, ordered, id2, output, places);
    let at = startxref_of(output)->0;
    let offsets = section_at(output, at)->0.offsets;
    lemma_outline_is_found(bytes, entries, id2, objects, offsets, older);
}

proof fn lemma_catalog_is_writable(bytes: Seq<u8>, root: nat)
    requires
        outline_parts(bytes) is Ok,
        root <= u32::MAX,
    ensures
        ({
            let (catalog, catalog_entries, _) = outline_parts(bytes)->Ok_0;
            is_writable(
                PdfValue::Dictionary(
                    with_entry(catalog_entries, "Outlines"@, reference_to(root)),
                ),
                MAX_VALUE_DEPTH as int,
            )
        }),
{
    let (catalog, catalog_entries, _) = outline_parts(bytes)->Ok_0;
    let layout = layout_of(bytes)->0;
    let slice = crate::sign::document::object_bytes_at(bytes, layout, catalog.0)->0;
    let tokens = object_tokens(slice, 0);
    lemma_read_is_writable(tokens, value_start(tokens), 0);
    lemma_set_is_writable(
        catalog_entries,
        "Outlines"@,
        reference_to(root),
        MAX_VALUE_DEPTH - 1,
    );
}

/// Where the updated document can be followed through all its sections, it is
/// not encrypted, its catalog is the one it was, and that leads to the root of
/// the bookmarks.
pub proof fn law_bookmarks_are_found_in_the_document(
    bytes: Seq<u8>,
    entries: Seq<OutlineEntry>,
    id2: Seq<u8>,
)
    requires
        outline_outcome(bytes, entries, id2) is Ok,
        outline_outcome(bytes, entries, id2)->Ok_0.len() <= 0x7FFF_FFFF_FFFF_FFFF,
        is_found(open_outcome(bytes)->Ok_0, outline_parts(bytes)->Ok_0.0.0 as u32),
    ensures
        ({
            let output = outline_outcome(bytes, entries, id2)->Ok_0;
            let (catalog, _, _) = outline_parts(bytes)->Ok_0;
            let root = open_outcome(bytes)->Ok_0.next_object_number;
            layout_of(output) matches Some(layout) ==> {
                &&& !layout.encrypted
                &&& layout.catalog == Some(catalog.0)
                &&& dictionary_of(output, layout, catalog.0) matches Ok(found) && lookup(
                    found,
                    "Outlines"@,
                ) == Some(reference_to(root))
                &&& dictionary_of(output, layout, root) matches Ok(found) && is_outline_root(
                    found,
                    entries,
                    root,
                )
            }
        }),
{
    let output = outline_outcome(bytes, entries, id2)->Ok_0;
    let (catalog, _, _) = outline_parts(bytes)->Ok_0;
    law_bookmarks_are_read_back(bytes, entries, id2, Seq::empty());
    if let Some(layout) = layout_of(output) {
        let at = startxref_of(output)->0;
        let sections = chain_at(output, at, MAX_SECTIONS as nat)->0;
        lemma_chain_within(output, at, MAX_SECTIONS as nat);
        lemma_listed_first(sections, sections.len());
        let first = sections[0].offsets;
        let older = layout.objects.skip(first.len() as int);
        assert(layout.objects =~= first + older);
        law_bookmarks_are_read_back(bytes, entries, id2, older);
        let same = Layout {
            encrypted: false,
            catalog: Some(catalog.0),
            objects: first + older,
        };
        assert(same.objects == layout.objects);
    }
}

} // verus!
