//! An update with a cross-reference table, read back.

use crate::bytes::{decimal, padded_decimal, repeated, utf8};
use crate::number::is_digit;
use crate::pdfread::dictionary::{entry_index, lookup, Entries};
use crate::pdfread::value::entries_at;
use crate::pdfread::xref::{larger, rows_in_use, section_of, table_at, XRefKind};
use crate::pdfwrite::laws::{law_decimal_reads_back, law_startxref_reads_back};
use crate::pdfwrite::object::PdfValue;
use crate::pdfwrite::pieces::{is_word, lemma_bracket, lemma_space, lemma_word_and_space, tokens_of};
use crate::pdfwrite::reopen::lines::{
    id_entries, id_tokens, is_plain_key, key_token, lemma_decimal_token, lemma_id_entry,
    lemma_id_line, lemma_key, lemma_number_entry, lemma_number_line, lemma_padded_token,
    lemma_parts, lemma_reference_entry, lemma_reference_line, lemma_regroup, lemma_trailer_keys,
    reference_entries, reference_fits, reference_tokens, starts_an_entry, updated_trailer,
};
use crate::pdfwrite::section::{run_end, subsections, table_bytes, table_row, table_rows, Place};
use crate::pdfwrite::writer::{
    id_line, reference_line, startxref_of, strings_in, table_trailer, trailer_of, Opened,
};
use vstd::prelude::*;
use vstd::utf8::is_ascii_chars_encode_utf8;

verus! {

/// The tokens of one row of a table.
pub open spec fn row_tokens(place: Place) -> Seq<Seq<u8>> {
    seq![padded_decimal(place.2 as nat, 10), padded_decimal(place.1 as nat, 5), utf8("n"@)]
}

/// The tokens of the rows from `from` to `to`.
pub open spec fn rows_tokens(places: Seq<Place>, from: int, to: int) -> Seq<Seq<u8>>
    decreases to - from,
{
    if from >= to {
        Seq::empty()
    } else {
        rows_tokens(places, from, to - 1) + row_tokens(places[to - 1])
    }
}

/// The tokens of the subsections from `from` on.
spec fn subsection_tokens(places: Seq<Place>, from: int) -> Seq<Seq<u8>>
    decreases places.len() - from,
{
    if !(0 <= from < places.len()) {
        Seq::empty()
    } else {
        let to = run_end(places, from + 1);
        if from < to <= places.len() {
            seq![decimal(places[from].0 as nat), decimal((to - from) as nat)] + rows_tokens(
                places,
                from,
                to,
            ) + subsection_tokens(places, to)
        } else {
            Seq::empty()
        }
    }
}

proof fn lemma_row(place: Place, rest: Seq<u8>)
    ensures
        tokens_of(table_row(place) + rest) == row_tokens(place) + tokens_of(rest),
{
    reveal_strlit(" ");
    reveal_strlit(" n \n");
    reveal_strlit("n");
    is_ascii_chars_encode_utf8(" "@);
    is_ascii_chars_encode_utf8(" n \n"@);
    is_ascii_chars_encode_utf8("n"@);
    let offset = padded_decimal(place.2 as nat, 10);
    let generation = padded_decimal(place.1 as nat, 5);
    let mark = utf8("n"@);
    lemma_padded_token(place.2 as nat, 10, u64::MAX as nat);
    lemma_padded_token(place.1 as nat, 5, u16::MAX as nat);
    assert(mark =~= seq![110u8]);
    assert(is_word(mark)) by {
        reveal_strlit("endobj");
        reveal_strlit("stream");
        is_ascii_chars_encode_utf8("endobj"@);
        is_ascii_chars_encode_utf8("stream"@);
    }
    let end = seq![10u8] + rest;
    let third = mark + (seq![32u8] + end);
    let second = generation + (seq![32u8] + third);
    assert(table_row(place) + rest =~= offset + (seq![32u8] + second));
    lemma_word_and_space(offset, 32, second);
    lemma_word_and_space(generation, 32, third);
    lemma_word_and_space(mark, 32, end);
    lemma_space(10, rest);
    assert(row_tokens(place) + tokens_of(rest) =~= seq![offset] + (seq![generation] + (seq![mark]
        + tokens_of(rest))));
}

pub proof fn lemma_rows(places: Seq<Place>, from: int, to: int, rest: Seq<u8>)
    ensures
        tokens_of(table_rows(places, from, to) + rest) == rows_tokens(places, from, to)
            + tokens_of(rest),
    decreases to - from,
{
    if from < to {
        let row = table_row(places[to - 1]);
        lemma_rows(places, from, to - 1, row + rest);
        lemma_row(places[to - 1], rest);
        assert(table_rows(places, from, to) + rest =~= table_rows(places, from, to - 1) + (row
            + rest));
        assert(rows_tokens(places, from, to) + tokens_of(rest) =~= rows_tokens(
            places,
            from,
            to - 1,
        ) + (row_tokens(places[to - 1]) + tokens_of(rest)));
    } else {
        assert(table_rows(places, from, to) + rest =~= rest);
        assert(rows_tokens(places, from, to) + tokens_of(rest) =~= tokens_of(rest));
    }
}

proof fn lemma_subsections(places: Seq<Place>, from: int, rest: Seq<u8>)
    ensures
        tokens_of(subsections(places, from) + rest) == subsection_tokens(places, from)
            + tokens_of(rest),
    decreases places.len() - from,
{
    let to = run_end(places, from + 1);
    if 0 <= from < places.len() && from < to <= places.len() {
        reveal_strlit(" ");
        reveal_strlit("\n");
        is_ascii_chars_encode_utf8(" "@);
        is_ascii_chars_encode_utf8("\n"@);
        let first = decimal(places[from].0 as nat);
        let count = decimal((to - from) as nat);
        let rows = table_rows(places, from, to);
        let more = subsections(places, to);
        lemma_decimal_token(places[from].0 as nat, u32::MAX as nat);
        lemma_decimal_token((to - from) as nat, (to - from) as nat);
        let body = rows + (more + rest);
        let second = count + (seq![10u8] + body);
        assert(subsections(places, from) + rest =~= first + (seq![32u8] + second));
        lemma_word_and_space(first, 32, second);
        lemma_word_and_space(count, 10, body);
        lemma_rows(places, from, to, more + rest);
        lemma_subsections(places, to, rest);
        assert(subsection_tokens(places, from) + tokens_of(rest) =~= seq![first] + (seq![count] + (
        rows_tokens(places, from, to) + (subsection_tokens(places, to) + tokens_of(rest)))));
    } else {
        assert(subsections(places, from) + rest =~= rest);
        assert(subsection_tokens(places, from) + tokens_of(rest) =~= tokens_of(rest));
    }
}

/// Where objects stand, as a table says it: number and offset.
pub open spec fn listed(places: Seq<Place>) -> Seq<(u32, u64)> {
    places.map_values(|place: Place| (place.0, place.2))
}

pub proof fn lemma_rows_tokens(places: Seq<Place>, from: int, to: int, k: int)
    requires
        0 <= from <= to <= places.len(),
    ensures
        rows_tokens(places, from, to).len() == 3 * (to - from),
        from <= k < to ==> {
            &&& rows_tokens(places, from, to)[3 * (k - from)] == padded_decimal(
                places[k].2 as nat,
                10,
            )
            &&& rows_tokens(places, from, to)[3 * (k - from) + 2] == utf8("n"@)
        },
    decreases to - from,
{
    if from < to {
        lemma_rows_tokens(places, from, to - 1, k);
    }
}

proof fn lemma_rows_in_use(
    tokens: Seq<Seq<u8>>,
    at: int,
    places: Seq<Place>,
    from: int,
    to: int,
    count: nat,
)
    requires
        0 <= from <= to <= places.len(),
        count <= to - from,
        0 <= at,
        at + 3 * (to - from) <= tokens.len(),
        tokens.subrange(at, at + 3 * (to - from)) == rows_tokens(places, from, to),
        forall|k: int|
            from <= k < to ==> #[trigger] places[k].0 == places[from].0 + (k - from),
    ensures
        rows_in_use(tokens, at, places[from].0 as nat, count) == listed(
            places.subrange(from, from + count),
        ),
    decreases count,
{
    if count > 0 {
        let k = from + count - 1;
        lemma_rows_in_use(tokens, at, places, from, to, (count - 1) as nat);
        lemma_rows_tokens(places, from, to, k);
        let row = at + 3 * (count - 1);
        assert(tokens[row] == tokens.subrange(at, at + 3 * (to - from))[row - at]);
        assert(tokens[row + 2] == tokens.subrange(at, at + 3 * (to - from))[row + 2 - at]);
        lemma_padded_token(places[k].2 as nat, 10, u64::MAX as nat);
        assert(listed(places.subrange(from, from + count)) =~= listed(
            places.subrange(from, from + count - 1),
        ).push((places[k].0, places[k].2)));
    } else {
        assert(listed(places.subrange(from, from)) =~= Seq::empty());
    }
}

proof fn lemma_run_end(places: Seq<Place>, from: int, at: int)
    requires
        0 <= from < at <= places.len(),
        forall|k: int| from <= k < at ==> #[trigger] places[k].0 == places[from].0 + (k - from),
    ensures
        at <= run_end(places, at) <= places.len(),
        forall|k: int|
            from <= k < run_end(places, at) ==> #[trigger] places[k].0 == places[from].0 + (k
                - from),
    decreases places.len() - at,
{
    if at < places.len() && places[at].0 == places[at - 1].0 + 1 {
        assert(places[at - 1].0 == places[from].0 + (at - 1 - from));
        lemma_run_end(places, from, at + 1);
    }
}

/// The subsections of a table give back the places they were made from.
proof fn lemma_table_at(
    tokens: Seq<Seq<u8>>,
    at: int,
    places: Seq<Place>,
    from: int,
    before: Seq<(u32, u64)>,
    highest: Option<nat>,
    tail: Seq<Seq<u8>>,
)
    requires
        0 <= from <= places.len(),
        0 <= at <= tokens.len(),
        forall|k: int| 0 <= k < places.len() ==> #[trigger] places[k].0 < u32::MAX,
        tokens.skip(at) == subsection_tokens(places, from) + (seq![utf8("trailer"@)] + tail),
    ensures
        table_at(tokens, at, before, highest) matches Some((offsets, _, end)) && offsets == before
            + listed(places.skip(from)) && 0 <= end <= tokens.len() && tokens.skip(end) == tail,
    decreases places.len() - from,
{
    let rest = seq![utf8("trailer"@)] + tail;
    reveal_strlit("trailer");
    is_ascii_chars_encode_utf8("trailer"@);
    assert(utf8("trailer"@)[0] == 116);
    if from < places.len() {
        lemma_run_end(places, from, from + 1);
        let to = run_end(places, from + 1);
        let first = places[from].0 as nat;
        let count = (to - from) as nat;
        let rows = rows_tokens(places, from, to);
        let more = subsection_tokens(places, to) + rest;
        lemma_rows_tokens(places, from, to, from);
        let head = seq![decimal(first), decimal(count)];
        assert(head + rows + subsection_tokens(places, to) + rest =~= head + (rows + more));
        lemma_parts(tokens, at, head, rows + more);
        lemma_parts(tokens, at + 2, rows, more);
        assert(tokens[at + 0] == head[0]);
        assert(tokens[at + 1] == head[1]);
        assert(places[to - 1].0 == first + (to - 1 - from));
        lemma_decimal_token(first, u32::MAX as nat);
        lemma_decimal_token(count, u32::MAX as nat);
        law_decimal_reads_back(first);
        assert(is_digit(decimal(first)[0]));
        let next = at + 2 + 3 * count;
        assert(tokens.subrange(at + 2, next) =~= rows) by {
            assert forall|i: int| 0 <= i < rows.len() implies tokens[at + 2 + i] == rows[i] by {
            }
        }
        lemma_rows_in_use(tokens, at + 2, places, from, to, count);
        let longer = before + rows_in_use(tokens, at + 2, first, count);
        let top = larger(highest, Some((first + count - 1) as nat));
        lemma_table_at(tokens, next, places, to, longer, top, tail);
        assert(table_at(tokens, at, before, highest) == table_at(tokens, next, longer, top));
        assert(before + listed(places.skip(from)) =~= longer + listed(places.skip(to)));
    } else {
        let head = seq![utf8("trailer"@)];
        assert(tokens.skip(at) =~= head + tail);
        lemma_parts(tokens, at, head, tail);
        assert(tokens[at + 0] == head[0]);
        assert(before + listed(places.skip(from)) =~= before);
    }
}

/// The tokens of a trailer up to its end.
spec fn trailer_tokens(file: Opened, size: nat, second: Seq<u8>, more: Seq<Seq<u8>>) -> Seq<
    Seq<u8>,
> {
    seq![key_token("Prev"@), decimal(file.prev_startxref)] + (reference_tokens(
        "Root"@,
        file.trailer.root,
    ) + (reference_tokens("Info"@, file.trailer.info) + (seq![key_token("Size"@), decimal(size)] + (
    id_tokens(file.trailer.id, second) + (seq![seq![0x3Eu8, 0x3Eu8]] + more)))))
}

/// The fixed parts of a trailer, in pieces.
proof fn lemma_trailer_literals()
    ensures
        is_word(utf8("trailer"@)),
        utf8("trailer\n<<\n/Prev "@) == utf8("trailer"@) + (seq![10u8] + (seq![0x3Cu8, 0x3Cu8] + (
        seq![10u8] + (key_token("Prev"@) + seq![32u8])))),
        utf8(">>\nstartxref\n"@) == seq![0x3Eu8, 0x3Eu8] + (seq![10u8] + utf8("startxref\n"@)),
        utf8("\n"@) == seq![10u8],
{
    reveal_strlit("trailer");
    reveal_strlit("trailer\n<<\n/Prev ");
    reveal_strlit("\n");
    reveal_strlit(">>\nstartxref\n");
    reveal_strlit("startxref\n");
    reveal_strlit("endobj");
    reveal_strlit("stream");
    reveal_strlit("Prev");
    is_ascii_chars_encode_utf8("trailer"@);
    is_ascii_chars_encode_utf8("endobj"@);
    is_ascii_chars_encode_utf8("stream"@);
    is_ascii_chars_encode_utf8("trailer\n<<\n/Prev "@);
    is_ascii_chars_encode_utf8("\n"@);
    is_ascii_chars_encode_utf8(">>\nstartxref\n"@);
    is_ascii_chars_encode_utf8("startxref\n"@);
    is_ascii_chars_encode_utf8("Prev"@);
    assert(utf8("trailer"@)[0] == 116);
    assert(utf8("trailer\n<<\n/Prev "@) =~= utf8("trailer"@) + (seq![10u8] + (seq![
        0x3Cu8,
        0x3Cu8,
    ] + (seq![10u8] + (key_token("Prev"@) + seq![32u8])))));
    assert(utf8(">>\nstartxref\n"@) =~= seq![0x3Eu8, 0x3Eu8] + (seq![10u8] + utf8(
        "startxref\n"@,
    )));
    assert(utf8("\n"@) =~= seq![10u8]);
}

proof fn lemma_table_trailer_shape(
    file: Opened,
    size: nat,
    second: Seq<u8>,
    xref_at: nat,
    end: Seq<u8>,
    close: Seq<u8>,
    id: Seq<u8>,
    sized: Seq<u8>,
    info: Seq<u8>,
    root: Seq<u8>,
    prev: Seq<u8>,
)
    requires
        end == utf8("startxref\n"@) + (decimal(xref_at) + utf8("\n%%EOF\n"@)),
        close == seq![0x3Eu8, 0x3Eu8] + (seq![10u8] + end),
        id == id_line(file.trailer.id, second) + close,
        sized == key_token("Size"@) + (seq![32u8] + (decimal(size) + (seq![10u8] + id))),
        info == reference_line("/Info "@, file.trailer.info) + sized,
        root == reference_line("/Root "@, file.trailer.root) + info,
        prev == key_token("Prev"@) + (seq![32u8] + (decimal(file.prev_startxref) + (seq![10u8]
            + root))),
    ensures
        table_trailer(file, size, second, xref_at) == utf8("trailer"@) + (seq![10u8] + (seq![
            0x3Cu8,
            0x3Cu8,
        ] + (seq![10u8] + prev))),
{
    reveal(table_trailer);
    lemma_trailer_keys();
    lemma_trailer_literals();
    let a0 = utf8("trailer\n<<\n/Prev "@);
    let a1 = a0 + decimal(file.prev_startxref);
    let a2 = a1 + seq![10u8];
    let a3 = a2 + reference_line("/Root "@, file.trailer.root);
    let a4 = a3 + reference_line("/Info "@, file.trailer.info);
    let a5 = a4 + utf8("/Size "@);
    let a6 = a5 + decimal(size);
    let a7 = a6 + seq![10u8];
    let a8 = a7 + id_line(file.trailer.id, second);
    let a9 = a8 + utf8(">>\nstartxref\n"@);
    let whole = a9 + decimal(xref_at) + utf8("\n%%EOF\n"@);
    let number = decimal(xref_at) + utf8("\n%%EOF\n"@);
    assert(whole == table_trailer(file, size, second, xref_at));
    lemma_regroup(a9, decimal(xref_at), utf8("\n%%EOF\n"@));
    lemma_regroup(a8, utf8(">>\nstartxref\n"@), number);
    assert(utf8(">>\nstartxref\n"@) + number == close) by {
        lemma_regroup(seq![0x3Eu8, 0x3Eu8], seq![10u8] + utf8("startxref\n"@), number);
        lemma_regroup(seq![10u8], utf8("startxref\n"@), number);
    }
    assert(whole == a8 + close);
    lemma_regroup(a7, id_line(file.trailer.id, second), close);
    lemma_regroup(a6, seq![10u8], id);
    lemma_regroup(a5, decimal(size), seq![10u8] + id);
    let size_and_rest = decimal(size) + (seq![10u8] + id);
    lemma_regroup(a4, utf8("/Size "@), size_and_rest);
    lemma_regroup(key_token("Size"@), seq![32u8], size_and_rest);
    assert(whole == a4 + sized);
    lemma_regroup(a3, reference_line("/Info "@, file.trailer.info), sized);
    lemma_regroup(a2, reference_line("/Root "@, file.trailer.root), info);
    lemma_regroup(a1, seq![10u8], root);
    lemma_regroup(a0, decimal(file.prev_startxref), seq![10u8] + root);
    let prev_and_rest = decimal(file.prev_startxref) + (seq![10u8] + root);
    assert(whole == a0 + prev_and_rest);
    let key = key_token("Prev"@) + seq![32u8];
    lemma_regroup(key_token("Prev"@), seq![32u8], prev_and_rest);
    lemma_regroup(seq![10u8], key, prev_and_rest);
    let opened = seq![0x3Cu8, 0x3Cu8] + (seq![10u8] + key);
    lemma_regroup(seq![0x3Cu8, 0x3Cu8], seq![10u8] + key, prev_and_rest);
    lemma_regroup(seq![10u8], opened, prev_and_rest);
    lemma_regroup(utf8("trailer"@), seq![10u8] + opened, prev_and_rest);
}

/// A trailer with a table before it is read as its parts.
proof fn lemma_table_trailer(
    file: Opened,
    size: nat,
    second: Seq<u8>,
    xref_at: nat,
) -> (more: Seq<Seq<u8>>)
    requires
        file.trailer.id matches Some(strings) ==> strings.len() > 0,
    ensures
        tokens_of(table_trailer(file, size, second, xref_at)) == seq![utf8("trailer"@)] + (seq![
            seq![0x3Cu8, 0x3Cu8],
        ] + trailer_tokens(file, size, second, more)),
{
    lemma_trailer_keys();
    lemma_trailer_literals();
    let end = utf8("startxref\n"@) + (decimal(xref_at) + utf8("\n%%EOF\n"@));
    let close = seq![0x3Eu8, 0x3Eu8] + (seq![10u8] + end);
    let id = id_line(file.trailer.id, second) + close;
    let sized = key_token("Size"@) + (seq![32u8] + (decimal(size) + (seq![10u8] + id)));
    let info = reference_line("/Info "@, file.trailer.info) + sized;
    let root = reference_line("/Root "@, file.trailer.root) + info;
    let prev = key_token("Prev"@) + (seq![32u8] + (decimal(file.prev_startxref) + (seq![10u8]
        + root)));
    lemma_table_trailer_shape(
        file,
        size,
        second,
        xref_at,
        end,
        close,
        id,
        sized,
        info,
        root,
        prev,
    );
    let open = seq![0x3Cu8, 0x3Cu8] + (seq![10u8] + prev);
    lemma_word_and_space(utf8("trailer"@), 10, open);
    lemma_bracket(seq![0x3Cu8, 0x3Cu8], seq![10u8] + prev);
    lemma_space(10, prev);
    lemma_number_line("Prev"@, file.prev_startxref, root);
    lemma_reference_line("/Root "@, "Root"@, file.trailer.root, info);
    lemma_reference_line("/Info "@, "Info"@, file.trailer.info, sized);
    lemma_number_line("Size"@, size, id);
    lemma_id_line(file.trailer.id, second, close);
    lemma_bracket(seq![0x3Eu8, 0x3Eu8], seq![10u8] + end);
    tokens_of(seq![10u8] + end)
}

/// The entries of the trailer of an update.
spec fn update_entries(file: Opened, size: nat, second: Seq<u8>) -> Entries {
    seq![("Prev"@, PdfValue::Integer(file.prev_startxref as int))] + reference_entries(
        "Root"@,
        file.trailer.root,
    ) + reference_entries("Info"@, file.trailer.info) + seq![
        ("Size"@, PdfValue::Integer(size as int)),
    ] + id_entries(file.trailer.id, second)
}

proof fn lemma_trailer_entries(
    tokens: Seq<Seq<u8>>,
    at: int,
    file: Opened,
    size: nat,
    second: Seq<u8>,
    more: Seq<Seq<u8>>,
)
    requires
        file.prev_startxref <= 0x7FFF_FFFF_FFFF_FFFF,
        size <= u32::MAX,
        reference_fits(file.trailer.root),
        reference_fits(file.trailer.info),
        0 <= at <= tokens.len(),
        tokens.skip(at) == trailer_tokens(file, size, second, more),
    ensures
        entries_at(tokens, at, 0, Seq::empty()) matches Ok((entries, _)) && entries
            == update_entries(file, size, second),
{
    lemma_trailer_keys();
    lemma_key("Prev"@);
    lemma_key("Root"@);
    lemma_key("Info"@);
    lemma_key("Size"@);
    reveal_strlit("ID");
    reveal_strlit("endobj");
    reveal_strlit("stream");
    reveal_strlit(">>");
    is_ascii_chars_encode_utf8(">>"@);
    assert(is_plain_key("ID"@));
    lemma_key("ID"@);
    let close = seq![seq![0x3Eu8, 0x3Eu8]] + more;
    let id = id_tokens(file.trailer.id, second) + close;
    let sized = seq![key_token("Size"@), decimal(size)] + id;
    let info = reference_tokens("Info"@, file.trailer.info) + sized;
    let root = reference_tokens("Root"@, file.trailer.root) + info;
    assert(starts_an_entry(id));
    assert(starts_an_entry(sized));
    assert(starts_an_entry(info));
    assert(starts_an_entry(root));
    let none: Entries = Seq::empty();
    let e1 = none.push(("Prev"@, PdfValue::Integer(file.prev_startxref as int)));
    let e2 = e1 + reference_entries("Root"@, file.trailer.root);
    let e3 = e2 + reference_entries("Info"@, file.trailer.info);
    let e4 = e3.push(("Size"@, PdfValue::Integer(size as int)));
    let e5 = e4 + id_entries(file.trailer.id, second);
    lemma_number_entry(tokens, at, 0, none, "Prev"@, file.prev_startxref, root);
    let at1 = at + 2;
    lemma_reference_entry(tokens, at1, 0, e1, "Root"@, file.trailer.root, info);
    let at2 = (at1 + reference_tokens("Root"@, file.trailer.root).len()) as int;
    lemma_reference_entry(tokens, at2, 0, e2, "Info"@, file.trailer.info, sized);
    let at3 = (at2 + reference_tokens("Info"@, file.trailer.info).len()) as int;
    lemma_number_entry(tokens, at3, 0, e3, "Size"@, size, id);
    let at4 = at3 + 2;
    lemma_id_entry(tokens, at4, 0, e4, file.trailer.id, second, close);
    let at5 = (at4 + id_tokens(file.trailer.id, second).len()) as int;
    lemma_parts(tokens, at5, seq![seq![0x3Eu8, 0x3Eu8]], more);
    assert(tokens[at5 + 0] == seq![seq![0x3Eu8, 0x3Eu8]][0]);
    assert(tokens[at5] =~= utf8(">>"@));
    assert(e5 =~= update_entries(file, size, second));
}

proof fn lemma_update_entries(file: Opened, size: nat, second: Seq<u8>)
    requires
        size <= u32::MAX,
    ensures
        trailer_of(update_entries(file, size, second)) == updated_trailer(file, size, second),
        lookup(update_entries(file, size, second), "Encrypt"@) is None,
{
    reveal_strlit("Prev");
    reveal_strlit("Root");
    reveal_strlit("Info");
    reveal_strlit("Size");
    reveal_strlit("ID");
    reveal_strlit("XRefStm");
    reveal_strlit("Encrypt");
    assert("Encrypt"@.len() == 7 && "Encrypt"@[0] == 'E' && "XRefStm"@[0] == 'X');
    let entries = update_entries(file, size, second);
    assert("Prev"@[0] == 'P' && "Root"@[0] == 'R' && "Info"@[0] == 'I' && "Size"@[0] == 'S');
    assert("ID"@.len() == 2 && "XRefStm"@.len() == 7);
    reveal_with_fuel(entry_index, 6);
    reveal_with_fuel(strings_in, 3);
    if let Some(strings) = file.trailer.id {
        let items = seq![PdfValue::HexString(strings[0]), PdfValue::HexString(second)];
        assert(strings_in(items, 2) =~= seq![strings[0], second]);
    }
    match (file.trailer.root, file.trailer.info) {
        (Some(_), Some(_)) => {
            assert(entries[1].0 == "Root"@ && entries[2].0 == "Info"@ && entries[3].0 == "Size"@);
        },
        (Some(_), None) => {
            assert(entries[1].0 == "Root"@ && entries[2].0 == "Size"@);
        },
        (None, Some(_)) => {
            assert(entries[1].0 == "Info"@ && entries[2].0 == "Size"@);
        },
        (None, None) => {
            assert(entries[1].0 == "Size"@);
        },
    }
}

/// The tokens of what every table starts with.
spec fn table_head() -> Seq<Seq<u8>> {
    seq![utf8("xref"@), seq![48u8], seq![49u8], repeated(48u8, 10), utf8("65535"@), utf8("f"@)]
}

proof fn lemma_table_head(rest: Seq<u8>)
    ensures
        tokens_of(utf8("xref\n0 1\n0000000000 65535 f \n"@) + rest) == table_head() + tokens_of(
            rest,
        ),
{
    reveal_strlit("xref\n0 1\n0000000000 65535 f \n");
    reveal_strlit("xref");
    reveal_strlit("65535");
    reveal_strlit("f");
    reveal_strlit("endobj");
    reveal_strlit("stream");
    is_ascii_chars_encode_utf8("xref\n0 1\n0000000000 65535 f \n"@);
    is_ascii_chars_encode_utf8("xref"@);
    is_ascii_chars_encode_utf8("65535"@);
    is_ascii_chars_encode_utf8("f"@);
    is_ascii_chars_encode_utf8("endobj"@);
    is_ascii_chars_encode_utf8("stream"@);
    let head = table_head();
    let end = seq![10u8] + rest;
    let t5 = head[5] + (seq![32u8] + end);
    let t4 = head[4] + (seq![32u8] + t5);
    let t3 = head[3] + (seq![32u8] + t4);
    let t2 = head[2] + (seq![10u8] + t3);
    let t1 = head[1] + (seq![32u8] + t2);
    let t0 = head[0] + (seq![10u8] + t1);
    assert(utf8("xref\n0 1\n0000000000 65535 f \n"@) + rest =~= t0);
    assert(head[0][0] == 120);
    assert(is_word(head[0]));
    assert(is_word(head[1]));
    assert(is_word(head[2]));
    assert(is_word(head[3]));
    assert(is_word(head[4]));
    assert(is_word(head[5]));
    lemma_word_and_space(head[0], 10, t1);
    lemma_word_and_space(head[1], 32, t2);
    lemma_word_and_space(head[2], 10, t3);
    lemma_word_and_space(head[3], 32, t4);
    lemma_word_and_space(head[4], 32, t5);
    lemma_word_and_space(head[5], 32, end);
    lemma_space(10, rest);
    assert(head + tokens_of(rest) =~= seq![head[0]] + (seq![head[1]] + (seq![head[2]] + (seq![
        head[3],
    ] + (seq![head[4]] + (seq![head[5]] + tokens_of(rest)))))));
}

/// The head of the free list is no object in use.
proof fn lemma_after_head(tokens: Seq<Seq<u8>>, more: Seq<Seq<u8>>)
    requires
        tokens == table_head() + more,
        more.len() > 0,
    ensures
        tokens[0] == utf8("xref"@),
        tokens.len() > 6,
        tokens.skip(6) == more,
        table_at(tokens, 1, Seq::empty(), None) == table_at(tokens, 6, Seq::empty(), Some(0)),
{
    let head = table_head();
    assert(tokens.skip(0) =~= head + more);
    lemma_parts(tokens, 0, head, more);
    assert(tokens[0] == head[0]);
    assert(tokens[1] == head[1]);
    assert(tokens[2] == head[2]);
    assert(tokens[5] == head[5]);
    reveal_strlit("trailer");
    reveal_strlit("n");
    reveal_strlit("f");
    is_ascii_chars_encode_utf8("trailer"@);
    is_ascii_chars_encode_utf8("n"@);
    is_ascii_chars_encode_utf8("f"@);
    assert(utf8("trailer"@).len() == 7);
    assert(utf8("n"@)[0] != utf8("f"@)[0]);
    assert(decimal(0) =~= head[1]);
    assert(decimal(1) =~= head[2]);
    lemma_decimal_token(0, u32::MAX as nat);
    lemma_decimal_token(1, u32::MAX as nat);
    let none = Seq::<(u32, u64)>::empty();
    assert(rows_in_use(tokens, 3, 0, 0) == none);
    assert(rows_in_use(tokens, 3, 0, 1) == none);
    assert(none + none =~= none);
}

/// A table and a dictionary behind it, by their tokens.
#[verifier::spinoff_prover]
#[verifier::rlimit(40)]
proof fn lemma_table_and_dictionary(
    tokens: Seq<Seq<u8>>,
    places: Seq<Place>,
    entries: Seq<Seq<u8>>,
    rest: Seq<u8>,
) -> (at: int)
    requires
        tokens == table_head() + (subsection_tokens(places, 0) + (seq![utf8("trailer"@)] + (seq![
            seq![0x3Cu8, 0x3Cu8],
        ] + entries))),
        forall|k: int| 0 <= k < places.len() ==> #[trigger] places[k].0 < u32::MAX,
    ensures
        0 <= at <= tokens.len(),
        tokens.skip(at) == entries,
        entries_at(tokens, at, 0, Seq::empty()) matches Ok((found, _)) ==> (section_of(
            tokens,
            rest,
        ) matches Some(section) && section.kind == XRefKind::Table && section.offsets == listed(
            places,
        ) && section.trailer == found),
{
    let open = seq![seq![0x3Cu8, 0x3Cu8]];
    let tail = open + entries;
    lemma_after_head(tokens, subsection_tokens(places, 0) + (seq![utf8("trailer"@)] + tail));
    lemma_table_at(tokens, 6, places, 0, Seq::empty(), Some(0), tail);
    assert(places.skip(0) =~= places);
    assert(Seq::<(u32, u64)>::empty() + listed(places) =~= listed(places));
    let (offsets, highest, end) = table_at(tokens, 1, Seq::empty(), None)->0;
    lemma_parts(tokens, end, open, entries);
    assert(tokens[end + 0] == open[0]);
    reveal_strlit("<<");
    is_ascii_chars_encode_utf8("<<"@);
    assert(tokens[end] =~= utf8("<<"@));
    end + 1
}

pub proof fn lemma_table_section(
    file: Opened,
    places: Seq<Place>,
    size: nat,
    second: Seq<u8>,
    xref_at: nat,
)
    requires
        file.prev_startxref <= 0x7FFF_FFFF_FFFF_FFFF,
        size <= u32::MAX,
        reference_fits(file.trailer.root),
        reference_fits(file.trailer.info),
        file.trailer.id matches Some(strings) ==> strings.len() > 0,
        forall|k: int| 0 <= k < places.len() ==> #[trigger] places[k].0 < u32::MAX,
    ensures
        section_of(
            tokens_of(table_bytes(places) + table_trailer(file, size, second, xref_at)),
            table_bytes(places) + table_trailer(file, size, second, xref_at),
        ) matches Some(section) && section.kind == XRefKind::Table && section.offsets == listed(
            places,
        ) && trailer_of(section.trailer) == updated_trailer(file, size, second) && lookup(
            section.trailer,
            "Encrypt"@,
        ) is None,
{
    let trailer = table_trailer(file, size, second, xref_at);
    let head = utf8("xref\n0 1\n0000000000 65535 f \n"@);
    lemma_regroup(head, subsections(places, 0), trailer);
    lemma_table_head(subsections(places, 0) + trailer);
    lemma_subsections(places, 0, trailer);
    let more = lemma_table_trailer(file, size, second, xref_at);
    let tokens = tokens_of(table_bytes(places) + trailer);
    let at = lemma_table_and_dictionary(
        tokens,
        places,
        trailer_tokens(file, size, second, more),
        table_bytes(places) + trailer,
    );
    lemma_trailer_entries(tokens, at, file, size, second, more);
    lemma_update_entries(file, size, second);
}

proof fn lemma_end_parts(
    before: Seq<u8>,
    opened: Seq<u8>,
    close: Seq<u8>,
    mark: Seq<u8>,
    number: Seq<u8>,
    last: Seq<u8>,
)
    ensures
        before + (opened + (close + mark) + number + last) == before + opened + close + mark
            + number + last,
{
    assert(before + (opened + (close + mark) + number + last) =~= before + opened + close + mark
        + number + last);
}

/// The end of an update with a table leads to the table.
pub proof fn lemma_table_end(file: Opened, size: nat, second: Seq<u8>, xref_at: nat, before: Seq<u8>)
    requires
        xref_at <= u64::MAX,
    ensures
        startxref_of(before + table_trailer(file, size, second, xref_at)) == Some(xref_at),
{
    reveal(table_trailer);
    lemma_trailer_literals();
    let opened = utf8("trailer\n<<\n/Prev "@) + decimal(file.prev_startxref) + utf8("\n"@)
        + reference_line("/Root "@, file.trailer.root) + reference_line(
        "/Info "@,
        file.trailer.info,
    ) + utf8("/Size "@) + decimal(size) + utf8("\n"@) + id_line(file.trailer.id, second);
    let number = decimal(xref_at);
    let last = utf8("\n%%EOF\n"@);
    let mark = utf8("startxref\n"@);
    let close = seq![0x3Eu8, 0x3Eu8] + seq![10u8];
    let front = before + opened + close;
    assert(utf8(">>\nstartxref\n"@) =~= close + mark);
    lemma_end_parts(before, opened, close, mark, number, last);
    law_startxref_reads_back(front, xref_at);
}

} // verus!
