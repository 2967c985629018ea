//! A document that was made to order can be read: its end leads to its
//! cross-reference table, and that says where its objects stand.

use crate::bytes::{decimal, occurs_at, padded_decimal, repeated, utf8};
use crate::pdf::synth::{
    bodies, file_body, file_bytes, law_computed_numbers_hold, law_places_are_right, offset_rows,
    synthesized, table_part, Attachment,
};
use crate::pdfread::dictionary::{entry_index, Entries};
use crate::pdfread::value::entries_at;
use crate::pdfread::xref::{
    chain_at, highest_in_chain, larger, rows_in_use, section_at, section_of, table_at, XRefKind,
};
use crate::pdfwrite::laws::{lemma_decimal_len, pow10};
use crate::pdfwrite::object::PdfValue;
use crate::pdfwrite::pieces::{
    is_word, lemma_bracket, lemma_name, lemma_space, lemma_word_and_space, tokens_of,
};
use crate::pdfwrite::reopen::lines::{
    key_token, lemma_decimal_token, lemma_key, lemma_number_entry, lemma_padded_token, lemma_parts,
    lemma_reference_entry, lemma_regroup, lemma_trailer_keys, reference_entries, reference_tokens,
    starts_an_entry,
};
use crate::pdfwrite::reopen::table::{lemma_rows, lemma_rows_tokens, rows_tokens};
use crate::pdfwrite::section::{table_row, table_rows, Place};
use crate::pdfwrite::writer::{open_outcome, startxref_of, trailer_of, Opened, Trailer};
use vstd::prelude::*;
use vstd::utf8::is_ascii_chars_encode_utf8;

verus! {

/// Where the objects of a file stand: number, generation and offset.
pub open spec fn object_places(bodies: Seq<Seq<u8>>) -> Seq<Place> {
    Seq::new(
        bodies.len(),
        |i: int| ((i + 1) as u32, 0u16, file_body(bodies, i as nat).len() as u64),
    )
}

/// Where the objects of a file stand, as its table says it.
pub open spec fn object_offsets(bodies: Seq<Seq<u8>>) -> Seq<(u32, u64)> {
    Seq::new(
        bodies.len(),
        |i: int| ((i + 1) as u32, file_body(bodies, i as nat).len() as u64),
    )
}

/// A reference to the object of a number.
pub open spec fn first_generation(number: Option<nat>) -> Option<(nat, nat)> {
    match number {
        Some(number) => Some((number, 0)),
        None => None,
    }
}

/// What the trailer of a file with this many objects says.
pub open spec fn made_trailer(count: nat, info: Option<nat>) -> Trailer {
    Trailer {
        root: Some((1, 0)),
        info: first_generation(info),
        size: count + 1,
        prev: None,
        id: None,
        has_xref_stm: false,
    }
}

/// The offsets of a file fit into what a table is read as.
pub open spec fn places_fit(bodies: Seq<Seq<u8>>) -> bool {
    &&& bodies.len() + 1 < u32::MAX
    &&& file_body(bodies, bodies.len()).len() <= u64::MAX
}

proof fn lemma_body_length(bodies: Seq<Seq<u8>>, i: nat, n: nat)
    requires
        i <= n <= bodies.len(),
    ensures
        file_body(bodies, i).len() <= file_body(bodies, n).len(),
    decreases n - i,
{
    if i < n {
        lemma_body_length(bodies, i, (n - 1) as nat);
    }
}

proof fn lemma_offset_row(offset: nat)
    requires
        offset <= u64::MAX,
    ensures
        padded_decimal(offset, 10) + utf8(" 00000 n \n"@) == table_row((1u32, 0u16, offset as u64)),
{
    reveal_strlit(" 00000 n \n");
    reveal_strlit(" ");
    reveal_strlit(" n \n");
    is_ascii_chars_encode_utf8(" 00000 n \n"@);
    is_ascii_chars_encode_utf8(" "@);
    is_ascii_chars_encode_utf8(" n \n"@);
    assert(decimal(0) =~= seq![48u8]);
    assert(padded_decimal(0, 5) =~= seq![48u8, 48, 48, 48, 48]);
    let middle = utf8(" "@) + padded_decimal(0, 5) + utf8(" n \n"@);
    assert(utf8(" 00000 n \n"@) =~= middle);
    assert(padded_decimal(offset, 10) + middle =~= padded_decimal(offset, 10) + utf8(" "@)
        + padded_decimal(0, 5) + utf8(" n \n"@));
}

proof fn lemma_offset_rows(bodies: Seq<Seq<u8>>, n: nat)
    requires
        n <= bodies.len(),
        places_fit(bodies),
    ensures
        offset_rows(bodies, n) == table_rows(object_places(bodies), 0, n as int),
    decreases n,
{
    if n > 0 {
        lemma_offset_rows(bodies, (n - 1) as nat);
        lemma_body_length(bodies, (n - 1) as nat, bodies.len());
        let offset = file_body(bodies, (n - 1) as nat).len();
        lemma_offset_row(offset);
        let row = padded_decimal(offset, 10) + utf8(" 00000 n \n"@);
        assert(table_row(object_places(bodies)[n - 1]) == row);
        lemma_regroup(
            offset_rows(bodies, (n - 1) as nat),
            padded_decimal(offset, 10),
            utf8(" 00000 n \n"@),
        );
    }
}

/// The tokens of what the table starts with.
spec fn head_tokens(count: nat) -> Seq<Seq<u8>> {
    seq![
        utf8("xref"@),
        seq![48u8],
        decimal(count + 1),
        repeated(48u8, 10),
        utf8("65535"@),
        utf8("f"@),
    ]
}

proof fn lemma_head(count: nat, rest: Seq<u8>)
    ensures
        tokens_of(
            utf8("xref\n"@) + (utf8("0 "@) + (decimal(count + 1) + (utf8(
                "\n0000000000 65535 f \n"@,
            ) + rest))),
        ) == head_tokens(count) + tokens_of(rest),
{
    reveal_strlit("xref\n");
    reveal_strlit("0 ");
    reveal_strlit("\n0000000000 65535 f \n");
    reveal_strlit("xref");
    reveal_strlit("65535");
    reveal_strlit("f");
    reveal_strlit("endobj");
    reveal_strlit("stream");
    is_ascii_chars_encode_utf8("xref\n"@);
    is_ascii_chars_encode_utf8("0 "@);
    is_ascii_chars_encode_utf8("\n0000000000 65535 f \n"@);
    is_ascii_chars_encode_utf8("xref"@);
    is_ascii_chars_encode_utf8("65535"@);
    is_ascii_chars_encode_utf8("f"@);
    is_ascii_chars_encode_utf8("endobj"@);
    is_ascii_chars_encode_utf8("stream"@);
    let head = head_tokens(count);
    let end = seq![10u8] + rest;
    let t5 = head[5] + (seq![32u8] + end);
    let t4 = head[4] + (seq![32u8] + t5);
    let t3 = head[3] + (seq![32u8] + t4);
    let t2 = head[2] + (seq![10u8] + t3);
    let t1 = head[1] + (seq![32u8] + t2);
    let t0 = head[0] + (seq![10u8] + t1);
    assert(utf8("\n0000000000 65535 f \n"@) + rest =~= seq![10u8] + t3);
    assert(utf8("0 "@) + (decimal(count + 1) + (seq![10u8] + t3)) =~= t1);
    assert(utf8("xref\n"@) + t1 =~= t0);
    lemma_decimal_token(count + 1, count + 1);
    assert(head[0][0] == 120);
    assert(is_word(head[0]));
    assert(is_word(head[1]));
    assert(is_word(head[3]));
    assert(is_word(head[4]));
    assert(is_word(head[5]));
    lemma_word_and_space(head[0], 10, t1);
    lemma_word_and_space(head[1], 32, t2);
    lemma_word_and_space(head[2], 10, t3);
    lemma_word_and_space(head[3], 32, t4);
    lemma_word_and_space(head[4], 32, t5);
    lemma_word_and_space(head[5], 32, end);
    lemma_space(10, rest);
    assert(head + tokens_of(rest) =~= seq![head[0]] + (seq![head[1]] + (seq![head[2]] + (seq![
        head[3],
    ] + (seq![head[4]] + (seq![head[5]] + tokens_of(rest)))))));
}

/// A key and a reference of the first generation, with spaces between.
spec fn reference_text(key: Seq<char>, number: nat, rest: Seq<u8>) -> Seq<u8> {
    key_token(key) + (seq![32u8] + (decimal(number) + (seq![32u8] + (seq![48u8] + (seq![32u8] + (
    seq![82u8] + (seq![32u8] + rest)))))))
}

proof fn lemma_reference_text(key: Seq<char>, number: nat, rest: Seq<u8>)
    requires
        crate::pdfwrite::reopen::lines::is_plain_key(key),
    ensures
        tokens_of(reference_text(key, number, rest)) == reference_tokens(key, Some((number, 0)))
            + tokens_of(rest),
{
    reveal_strlit("R");
    reveal_strlit("endobj");
    reveal_strlit("stream");
    is_ascii_chars_encode_utf8("R"@);
    is_ascii_chars_encode_utf8("endobj"@);
    is_ascii_chars_encode_utf8("stream"@);
    assert(utf8("R"@) =~= seq![82u8]);
    assert(decimal(0) =~= seq![48u8]);
    lemma_key(key);
    lemma_decimal_token(number, number);
    assert(is_word(seq![48u8]));
    assert(is_word(seq![82u8]));
    let t3 = seq![82u8] + (seq![32u8] + rest);
    let t2 = seq![48u8] + (seq![32u8] + t3);
    let t1 = decimal(number) + (seq![32u8] + t2);
    lemma_name(utf8(key), seq![32u8] + t1);
    lemma_space(32, t1);
    lemma_word_and_space(decimal(number), 32, t2);
    lemma_word_and_space(seq![48u8], 32, t3);
    lemma_word_and_space(seq![82u8], 32, rest);
    assert(reference_tokens(key, Some((number, 0))) + tokens_of(rest) =~= seq![key_token(key)] + (
    seq![decimal(number)] + (seq![seq![48u8]] + (seq![seq![82u8]] + tokens_of(rest)))));
}

/// The fixed parts of the trailer, in pieces.
proof fn lemma_literals()
    ensures
        is_word(utf8("trailer"@)),
        utf8("trailer\n<< /Size "@) == utf8("trailer"@) + (seq![10u8] + (seq![0x3Cu8, 0x3Cu8] + (
        seq![32u8] + (key_token("Size"@) + seq![32u8])))),
        utf8(" /Root 1 0 R"@) == seq![32u8] + (key_token("Root"@) + (seq![32u8] + (decimal(1) + (
        seq![32u8] + (seq![48u8] + (seq![32u8] + seq![82u8])))))),
        utf8(" /Info "@) == seq![32u8] + (key_token("Info"@) + seq![32u8]),
        utf8(" 0 R"@) == seq![32u8] + (seq![48u8] + (seq![32u8] + seq![82u8])),
        utf8(" >>\n"@) == seq![32u8] + (seq![0x3Eu8, 0x3Eu8] + seq![10u8]),
{
    reveal_strlit("trailer");
    reveal_strlit("trailer\n<< /Size ");
    reveal_strlit(" /Root 1 0 R");
    reveal_strlit(" /Info ");
    reveal_strlit(" 0 R");
    reveal_strlit(" >>\n");
    reveal_strlit("Size");
    reveal_strlit("Root");
    reveal_strlit("Info");
    reveal_strlit("endobj");
    reveal_strlit("stream");
    is_ascii_chars_encode_utf8("trailer"@);
    is_ascii_chars_encode_utf8("trailer\n<< /Size "@);
    is_ascii_chars_encode_utf8(" /Root 1 0 R"@);
    is_ascii_chars_encode_utf8(" /Info "@);
    is_ascii_chars_encode_utf8(" 0 R"@);
    is_ascii_chars_encode_utf8(" >>\n"@);
    is_ascii_chars_encode_utf8("Size"@);
    is_ascii_chars_encode_utf8("Root"@);
    is_ascii_chars_encode_utf8("Info"@);
    is_ascii_chars_encode_utf8("endobj"@);
    is_ascii_chars_encode_utf8("stream"@);
    assert(utf8("trailer"@)[0] == 116);
    assert(decimal(1) =~= seq![49u8]);
    assert(utf8("trailer\n<< /Size "@) =~= utf8("trailer"@) + (seq![10u8] + (seq![
        0x3Cu8,
        0x3Cu8,
    ] + (seq![32u8] + (key_token("Size"@) + seq![32u8])))));
    assert(utf8(" /Root 1 0 R"@) =~= seq![32u8] + (key_token("Root"@) + (seq![32u8] + (decimal(1)
        + (seq![32u8] + (seq![48u8] + (seq![32u8] + seq![82u8])))))));
    assert(utf8(" /Info "@) =~= seq![32u8] + (key_token("Info"@) + seq![32u8]));
    assert(utf8(" 0 R"@) =~= seq![32u8] + (seq![48u8] + (seq![32u8] + seq![82u8])));
    assert(utf8(" >>\n"@) =~= seq![32u8] + (seq![0x3Eu8, 0x3Eu8] + seq![10u8]));
}

proof fn lemma_reference_shape(key: Seq<u8>, number: Seq<u8>, rest: Seq<u8>)
    ensures
        seq![32u8] + (key + (seq![32u8] + (number + (seq![32u8] + (seq![48u8] + (seq![32u8]
            + seq![82u8])))))) + (seq![32u8] + rest) == seq![32u8] + (key + (seq![32u8] + (number
            + (seq![32u8] + (seq![48u8] + (seq![32u8] + (seq![82u8] + (seq![32u8] + rest)))))))),
{
    assert(seq![32u8] + (key + (seq![32u8] + (number + (seq![32u8] + (seq![48u8] + (seq![32u8]
        + seq![82u8])))))) + (seq![32u8] + rest) =~= seq![32u8] + (key + (seq![32u8] + (number + (
    seq![32u8] + (seq![48u8] + (seq![32u8] + (seq![82u8] + (seq![32u8] + rest)))))))));
}

proof fn lemma_information_shape(key: Seq<u8>, number: Seq<u8>)
    ensures
        seq![32u8] + (key + seq![32u8]) + number + (seq![32u8] + (seq![48u8] + (seq![32u8]
            + seq![82u8]))) == seq![32u8] + (key + (seq![32u8] + (number + (seq![32u8] + (
        seq![48u8] + (seq![32u8] + seq![82u8])))))),
{
    assert(seq![32u8] + (key + seq![32u8]) + number + (seq![32u8] + (seq![48u8] + (seq![32u8]
        + seq![82u8]))) =~= seq![32u8] + (key + (seq![32u8] + (number + (seq![32u8] + (seq![48u8]
        + (seq![32u8] + seq![82u8])))))));
}

proof fn lemma_opening_shape(word: Seq<u8>, key: Seq<u8>, rest: Seq<u8>)
    ensures
        word + (seq![10u8] + (seq![0x3Cu8, 0x3Cu8] + (seq![32u8] + (key + seq![32u8])))) + rest
            == word + (seq![10u8] + (seq![0x3Cu8, 0x3Cu8] + (seq![32u8] + (key + (seq![32u8]
            + rest))))),
{
    assert(word + (seq![10u8] + (seq![0x3Cu8, 0x3Cu8] + (seq![32u8] + (key + seq![32u8])))) + rest
        =~= word + (seq![10u8] + (seq![0x3Cu8, 0x3Cu8] + (seq![32u8] + (key + (seq![32u8]
        + rest))))));
}

/// What stands behind the rows of the table.
spec fn trailer_text(count: nat, info: Option<nat>, end: Seq<u8>) -> Seq<u8> {
    utf8("trailer\n<< /Size "@) + (decimal(count + 1) + (utf8(" /Root 1 0 R"@) + (
    information_part(info) + (utf8(" >>\n"@) + end))))
}

spec fn information_part(info: Option<nat>) -> Seq<u8> {
    match info {
        Some(number) => utf8(" /Info "@) + decimal(number) + utf8(" 0 R"@),
        None => Seq::empty(),
    }
}

/// The tokens of the trailer from its first key on.
spec fn entry_tokens(count: nat, info: Option<nat>, more: Seq<Seq<u8>>) -> Seq<Seq<u8>> {
    seq![key_token("Size"@), decimal(count + 1)] + (reference_tokens("Root"@, Some((1, 0))) + (
    reference_tokens("Info"@, first_generation(info)) + (seq![seq![0x3Eu8, 0x3Eu8]] + more)))
}

proof fn lemma_trailer_text(count: nat, info: Option<nat>, end: Seq<u8>) -> (more: Seq<Seq<u8>>)
    ensures
        tokens_of(trailer_text(count, info, end)) == seq![utf8("trailer"@)] + (seq![
            seq![0x3Cu8, 0x3Cu8],
        ] + entry_tokens(count, info, more)),
{
    lemma_literals();
    lemma_trailer_keys();
    lemma_key("Size"@);
    let close = seq![0x3Eu8, 0x3Eu8] + (seq![10u8] + end);
    let last = seq![32u8] + close;
    assert(utf8(" >>\n"@) + end == last) by {
        lemma_regroup(seq![32u8], seq![0x3Eu8, 0x3Eu8] + seq![10u8], end);
        lemma_regroup(seq![0x3Eu8, 0x3Eu8], seq![10u8], end);
    }
    let informed = match info {
        Some(number) => reference_text("Info"@, number, close),
        None => close,
    };
    assert(information_part(info) + last == seq![32u8] + informed) by {
        match info {
            Some(number) => {
                lemma_information_shape(key_token("Info"@), decimal(number));
                lemma_reference_shape(key_token("Info"@), decimal(number), close);
            },
            None => {
                assert(Seq::<u8>::empty() + last =~= last);
            },
        }
    }
    let root = reference_text("Root"@, 1, informed);
    lemma_reference_shape(key_token("Root"@), decimal(1), informed);
    let sized = decimal(count + 1) + (seq![32u8] + root);
    lemma_opening_shape(utf8("trailer"@), key_token("Size"@), sized);
    let named = key_token("Size"@) + (seq![32u8] + sized);
    let opened = seq![0x3Cu8, 0x3Cu8] + (seq![32u8] + named);
    assert(trailer_text(count, info, end) == utf8("trailer"@) + (seq![10u8] + opened));
    lemma_word_and_space(utf8("trailer"@), 10, opened);
    lemma_bracket(seq![0x3Cu8, 0x3Cu8], seq![32u8] + named);
    lemma_space(32, named);
    lemma_name(utf8("Size"@), seq![32u8] + sized);
    lemma_space(32, sized);
    lemma_decimal_token(count + 1, count + 1);
    lemma_word_and_space(decimal(count + 1), 32, root);
    lemma_reference_text("Root"@, 1, informed);
    if let Some(number) = info {
        lemma_reference_text("Info"@, number, close);
    }
    lemma_bracket(seq![0x3Eu8, 0x3Eu8], seq![10u8] + end);
    let more = tokens_of(seq![10u8] + end);
    let closed = seq![seq![0x3Eu8, 0x3Eu8]] + more;
    assert(tokens_of(informed) == reference_tokens("Info"@, first_generation(info)) + closed) by {
        if info is None {
            assert(reference_tokens("Info"@, None) + closed =~= closed);
        }
    }
    assert(entry_tokens(count, info, more) =~= seq![key_token("Size"@)] + (seq![
        decimal(count + 1),
    ] + tokens_of(root)));
    more
}

proof fn lemma_table_text(bodies: Seq<Seq<u8>>, info: Option<nat>, end: Seq<u8>)
    ensures
        table_part(bodies, info) + end == utf8("xref\n"@) + (utf8("0 "@) + (decimal(
            bodies.len() + 1,
        ) + (utf8("\n0000000000 65535 f \n"@) + (offset_rows(bodies, bodies.len()) + trailer_text(
            bodies.len(),
            info,
            end,
        ))))),
{
    let count = bodies.len();
    let p0 = utf8("xref\n"@);
    let p1 = p0 + utf8("0 "@);
    let p2 = p1 + decimal(count + 1);
    let p3 = p2 + utf8("\n0000000000 65535 f \n"@);
    let p4 = p3 + offset_rows(bodies, count);
    let p5 = p4 + utf8("trailer\n<< /Size "@);
    let p6 = p5 + decimal(count + 1);
    let p7 = p6 + utf8(" /Root 1 0 R"@);
    let p8 = p7 + information_part(info);
    let p9 = p8 + utf8(" >>\n"@);
    assert(table_part(bodies, info) == p9);
    let e8 = utf8(" >>\n"@) + end;
    let e7 = information_part(info) + e8;
    let e6 = utf8(" /Root 1 0 R"@) + e7;
    let e5 = decimal(count + 1) + e6;
    let e4 = utf8("trailer\n<< /Size "@) + e5;
    let e3 = offset_rows(bodies, count) + e4;
    let e2 = utf8("\n0000000000 65535 f \n"@) + e3;
    let e1 = decimal(count + 1) + e2;
    lemma_regroup(p8, utf8(" >>\n"@), end);
    lemma_regroup(p7, information_part(info), e8);
    lemma_regroup(p6, utf8(" /Root 1 0 R"@), e7);
    lemma_regroup(p5, decimal(count + 1), e6);
    lemma_regroup(p4, utf8("trailer\n<< /Size "@), e5);
    lemma_regroup(p3, offset_rows(bodies, count), e4);
    lemma_regroup(p2, utf8("\n0000000000 65535 f \n"@), e3);
    lemma_regroup(p1, decimal(count + 1), e2);
    lemma_regroup(p0, utf8("0 "@), e1);
}

/// The entries of the trailer.
spec fn made_entries(count: nat, info: Option<nat>) -> Entries {
    seq![("Size"@, PdfValue::Integer((count + 1) as int))] + reference_entries("Root"@, Some((1, 0)))
        + reference_entries("Info"@, first_generation(info))
}

proof fn lemma_made_entries(
    tokens: Seq<Seq<u8>>,
    at: int,
    count: nat,
    info: Option<nat>,
    more: Seq<Seq<u8>>,
)
    requires
        count < u32::MAX,
        info matches Some(number) ==> number <= u32::MAX,
        0 <= at <= tokens.len(),
        tokens.skip(at) == entry_tokens(count, info, more),
    ensures
        entries_at(tokens, at, 0, Seq::empty()) matches Ok((entries, _)) && entries
            == made_entries(count, info),
        trailer_of(made_entries(count, info)) == made_trailer(count, info),
{
    lemma_trailer_keys();
    lemma_key("Root"@);
    lemma_key("Info"@);
    lemma_key("Size"@);
    reveal_strlit(">>");
    is_ascii_chars_encode_utf8(">>"@);
    let close = seq![seq![0x3Eu8, 0x3Eu8]] + more;
    let informed = reference_tokens("Info"@, first_generation(info)) + close;
    let root = reference_tokens("Root"@, Some((1, 0))) + informed;
    assert(starts_an_entry(root));
    let none: Entries = Seq::empty();
    let e1 = none.push(("Size"@, PdfValue::Integer((count + 1) as int)));
    let e2 = e1 + reference_entries("Root"@, Some((1, 0)));
    let e3 = e2 + reference_entries("Info"@, first_generation(info));
    lemma_number_entry(tokens, at, 0, none, "Size"@, count + 1, root);
    lemma_reference_entry(tokens, at + 2, 0, e1, "Root"@, Some((1, 0)), informed);
    let at2 = at + 2 + 4;
    assert(reference_tokens("Root"@, Some((1, 0))).len() == 4);
    lemma_reference_entry(tokens, at2, 0, e2, "Info"@, first_generation(info), close);
    let at3 = (at2 + reference_tokens("Info"@, first_generation(info)).len()) as int;
    lemma_parts(tokens, at3, seq![seq![0x3Eu8, 0x3Eu8]], more);
    assert(tokens[at3 + 0] == seq![seq![0x3Eu8, 0x3Eu8]][0]);
    assert(tokens[at3] =~= utf8(">>"@));
    assert(e3 =~= made_entries(count, info));
    lemma_made_trailer(count, info);
}

proof fn lemma_made_trailer(count: nat, info: Option<nat>)
    requires
        count < u32::MAX,
    ensures
        trailer_of(made_entries(count, info)) == made_trailer(count, info),
{
    reveal_strlit("Prev");
    reveal_strlit("Root");
    reveal_strlit("Info");
    reveal_strlit("Size");
    reveal_strlit("ID");
    reveal_strlit("XRefStm");
    let entries = made_entries(count, info);
    assert("Prev"@[0] == 'P' && "Root"@[0] == 'R' && "Info"@[0] == 'I' && "Size"@[0] == 'S');
    assert("ID"@.len() == 2 && "XRefStm"@.len() == 7);
    reveal_with_fuel(entry_index, 5);
    assert(entries[0].0 == "Size"@ && entries[1].0 == "Root"@);
    if info is Some {
        assert(entries[2].0 == "Info"@);
    }
}

/// The rows of the table, read: the first is free, and every other says where
/// an object stands.
#[verifier::spinoff_prover]
#[verifier::rlimit(60)]
proof fn lemma_made_rows(tokens: Seq<Seq<u8>>, bodies: Seq<Seq<u8>>, k: nat, more: Seq<Seq<u8>>)
    requires
        places_fit(bodies),
        k <= bodies.len(),
        tokens == head_tokens(bodies.len()) + (rows_tokens(
            object_places(bodies),
            0,
            bodies.len() as int,
        ) + more),
    ensures
        rows_in_use(tokens, 3, 0, k + 1) == object_offsets(bodies).take(k as int),
    decreases k,
{
    let places = object_places(bodies);
    let n = bodies.len() as int;
    let rows = rows_tokens(places, 0, n);
    let head = head_tokens(bodies.len());
    lemma_rows_tokens(places, 0, n, 0);
    assert(tokens.skip(0) =~= head + (rows + more));
    lemma_parts(tokens, 0, head, rows + more);
    lemma_parts(tokens, 6, rows, more);
    assert(utf8("n"@) != utf8("f"@)) by {
        reveal_strlit("n");
        reveal_strlit("f");
        is_ascii_chars_encode_utf8("n"@);
        is_ascii_chars_encode_utf8("f"@);
        assert(utf8("n"@)[0] != utf8("f"@)[0]);
    }
    if k > 0 {
        lemma_made_rows(tokens, bodies, (k - 1) as nat, more);
        lemma_rows_tokens(places, 0, n, k - 1);
        let row = 3 + 3 * k;
        assert(tokens[6 + 3 * (k - 1)] == rows[3 * (k - 1)]);
        assert(tokens[6 + (3 * (k - 1) + 2)] == rows[3 * (k - 1) + 2]);
        lemma_body_length(bodies, (k - 1) as nat, bodies.len());
        let offset = file_body(bodies, (k - 1) as nat).len();
        lemma_padded_token(offset, 10, u64::MAX as nat);
        assert(places[k - 1].2 == offset);
        assert(object_offsets(bodies).take(k as int) =~= object_offsets(bodies).take(
            k - 1,
        ).push((k as u32, offset as u64)));
    } else {
        assert(tokens[5] == head[5]);
        assert(rows_in_use(tokens, 3, 0, 0) =~= Seq::empty());
        assert(object_offsets(bodies).take(0) =~= Seq::empty());
    }
}

/// The tokens of a table and its trailer, by their places.
spec fn is_made_table(
    tokens: Seq<Seq<u8>>,
    bodies: Seq<Seq<u8>>,
    info: Option<nat>,
    more: Seq<Seq<u8>>,
) -> bool {
    let end = 6 + 3 * bodies.len() as int;
    &&& end + 2 <= tokens.len()
    &&& tokens[0] == utf8("xref"@)
    &&& tokens[1] == decimal(0)
    &&& tokens[2] == decimal(bodies.len() + 1)
    &&& tokens[end] == utf8("trailer"@)
    &&& tokens[end + 1] == utf8("<<"@)
    &&& tokens.skip(end + 2) == entry_tokens(bodies.len(), info, more)
    &&& rows_in_use(tokens, 3, 0, bodies.len() + 1) == object_offsets(bodies)
}

proof fn lemma_five_parts(
    tokens: Seq<Seq<u8>>,
    head: Seq<Seq<u8>>,
    rows: Seq<Seq<u8>>,
    word: Seq<u8>,
    open: Seq<u8>,
    entries: Seq<Seq<u8>>,
)
    requires
        tokens == head + (rows + (seq![word] + (seq![open] + entries))),
    ensures
        ({
            let end = (head.len() + rows.len()) as int;
            &&& end + 2 <= tokens.len()
            &&& forall|i: int| 0 <= i < head.len() ==> tokens[i] == #[trigger] head[i]
            &&& tokens[end] == word
            &&& tokens[end + 1] == open
            &&& tokens.skip(end + 2) == entries
        }),
{
    let opened = seq![open] + entries;
    let rest = seq![word] + opened;
    assert(tokens.skip(0) =~= tokens);
    lemma_parts(tokens, 0, head, rows + rest);
    lemma_parts(tokens, head.len() as int, rows, rest);
    let end = (head.len() + rows.len()) as int;
    lemma_parts(tokens, end, seq![word], opened);
    lemma_parts(tokens, end + 1, seq![open], entries);
    assert forall|i: int| 0 <= i < head.len() implies tokens[i] == #[trigger] head[i] by {
        assert(tokens[0 + i] == head[i]);
    }
}

proof fn lemma_made_table(
    tokens: Seq<Seq<u8>>,
    bodies: Seq<Seq<u8>>,
    info: Option<nat>,
    more: Seq<Seq<u8>>,
)
    requires
        places_fit(bodies),
        tokens == head_tokens(bodies.len()) + (rows_tokens(
            object_places(bodies),
            0,
            bodies.len() as int,
        ) + (seq![utf8("trailer"@)] + (seq![seq![0x3Cu8, 0x3Cu8]] + entry_tokens(
            bodies.len(),
            info,
            more,
        )))),
    ensures
        is_made_table(tokens, bodies, info, more),
{
    let n = bodies.len();
    let places = object_places(bodies);
    let rows = rows_tokens(places, 0, n as int);
    let head = head_tokens(n);
    let entries = entry_tokens(n, info, more);
    let rest = seq![utf8("trailer"@)] + (seq![seq![0x3Cu8, 0x3Cu8]] + entries);
    let end = 6 + 3 * n as int;
    lemma_rows_tokens(places, 0, n as int, 0);
    lemma_five_parts(tokens, head, rows, utf8("trailer"@), seq![0x3Cu8, 0x3Cu8], entries);
    reveal_strlit("<<");
    is_ascii_chars_encode_utf8("<<"@);
    assert(tokens[end + 1] =~= utf8("<<"@));
    assert(decimal(0) =~= head[1]);
    assert(tokens[0] == head[0]);
    assert(tokens[2] == head[2]);
    lemma_made_rows(tokens, bodies, n, rest);
    assert(object_offsets(bodies).take(n as int) =~= object_offsets(bodies));
}

proof fn lemma_made_table_at(
    tokens: Seq<Seq<u8>>,
    bodies: Seq<Seq<u8>>,
    info: Option<nat>,
    more: Seq<Seq<u8>>,
)
    requires
        places_fit(bodies),
        is_made_table(tokens, bodies, info, more),
    ensures
        table_at(tokens, 1, Seq::empty(), None) == Some(
            (object_offsets(bodies), Some(bodies.len()), 7 + 3 * bodies.len() as int),
        ),
{
    let n = bodies.len();
    let end = 6 + 3 * n as int;
    reveal_strlit("trailer");
    is_ascii_chars_encode_utf8("trailer"@);
    assert(utf8("trailer"@).len() == 7);
    assert(decimal(0).len() == 1);
    lemma_decimal_token(0, u32::MAX as nat);
    lemma_decimal_token(n + 1, u32::MAX as nat);
    let none = Seq::<(u32, u64)>::empty();
    assert(none + object_offsets(bodies) =~= object_offsets(bodies));
    assert(table_at(tokens, 1, none, None) == table_at(
        tokens,
        end,
        object_offsets(bodies),
        larger(None, Some(n)),
    ));
}

proof fn lemma_made_section(
    tokens: Seq<Seq<u8>>,
    bodies: Seq<Seq<u8>>,
    info: Option<nat>,
    more: Seq<Seq<u8>>,
    rest: Seq<u8>,
)
    requires
        places_fit(bodies),
        info matches Some(number) ==> number <= u32::MAX,
        is_made_table(tokens, bodies, info, more),
    ensures
        section_of(tokens, rest) matches Some(section) && section.kind == XRefKind::Table
            && section.offsets == object_offsets(bodies) && section.highest == Some(bodies.len())
            && section.trailer == made_entries(bodies.len(), info),
{
    lemma_made_table_at(tokens, bodies, info, more);
    lemma_made_entries(tokens, 8 + 3 * bodies.len() as int, bodies.len(), info, more);
}

/// A file with these objects is read back: its end leads to its table, which
/// lists each object where it starts, and its trailer names the first object as
/// the root, the information dictionary where there is one, and a size one past
/// the objects. So the file can be extended, from the first number that is free.
pub proof fn law_a_made_file_is_read_back(bodies: Seq<Seq<u8>>, info: Option<nat>)
    requires
        places_fit(bodies),
        info matches Some(number) ==> number <= u32::MAX,
    ensures
        ({
            let file = file_bytes(bodies, info);
            let at = file_body(bodies, bodies.len()).len();
            let trailer = made_trailer(bodies.len(), info);
            &&& startxref_of(file) == Some(at)
            &&& section_at(file, at) matches Some(section) && section.kind == XRefKind::Table
                && section.offsets == object_offsets(bodies) && section.highest == Some(
                bodies.len(),
            ) && trailer_of(section.trailer) == trailer
            &&& open_outcome(file) == Ok::<Opened, crate::pdfwrite::writer::OpenRefusal>(
                Opened {
                    original: file,
                    prev_startxref: at,
                    kind: XRefKind::Table,
                    trailer,
                    next_object_number: bodies.len() + 1,
                },
            )
        }),
{
    let n = bodies.len();
    let file = file_bytes(bodies, info);
    let body = file_body(bodies, n);
    let at = body.len();
    let number = decimal(at) + utf8("\n%%EOF\n"@);
    let end = utf8("startxref\n"@) + number;
    let table = table_part(bodies, info);
    lemma_regroup(body + table + utf8("startxref\n"@), decimal(at), utf8("\n%%EOF\n"@));
    lemma_regroup(body + table, utf8("startxref\n"@), number);
    lemma_regroup(body, table, end);
    crate::pdfwrite::laws::law_startxref_reads_back(body + table, at);
    assert(file == body + (table + end));
    assert(file.skip(at as int) =~= table + end);
    lemma_table_text(bodies, info, end);
    let rows = offset_rows(bodies, n);
    let trailer = trailer_text(n, info, end);
    lemma_head(n, rows + trailer);
    lemma_offset_rows(bodies, n);
    lemma_rows(object_places(bodies), 0, n as int, trailer);
    let more = lemma_trailer_text(n, info, end);
    lemma_made_table(tokens_of(table + end), bodies, info, more);
    lemma_made_section(tokens_of(table + end), bodies, info, more, table + end);
    lemma_made_trailer(n, info);
    reveal(section_at);
    let section = section_at(file, at)->0;
    assert(section_at(file, at) is Some);
    assert(crate::pdfread::xref::number_under(section.trailer, "Prev"@) is None) by {
        assert(trailer_of(section.trailer).prev is None);
    }
    let chain = seq![section];
    assert(chain_at(file, at, crate::pdfread::xref::MAX_SECTIONS as nat) == Some(chain));
    reveal_with_fuel(highest_in_chain, 2);
    assert(chain.drop_last() =~= Seq::empty());
    assert(highest_in_chain(chain) == Some(n));
}

/// The objects stand where the table says, the table where the end says, and
/// the end closes the file.
pub open spec fn stands_as_listed(bodies: Seq<Seq<u8>>, file: Seq<u8>) -> bool {
    &&& forall|i: nat|
        i < bodies.len() ==> occurs_at(
            file,
            decimal(i + 1) + utf8(" 0 obj\n"@),
            #[trigger] file_body(bodies, i).len() as int,
        )
    &&& occurs_at(file, utf8("xref\n"@), file_body(bodies, bodies.len()).len() as int)
    &&& occurs_at(file, utf8("%%EOF\n"@), file.len() - 6)
}

proof fn lemma_file_end(front: Seq<u8>)
    ensures
        occurs_at(
            front + utf8("\n%%EOF\n"@),
            utf8("%%EOF\n"@),
            (front + utf8("\n%%EOF\n"@)).len() - 6,
        ),
{
    reveal_strlit("\n%%EOF\n");
    reveal_strlit("%%EOF\n");
    is_ascii_chars_encode_utf8("\n%%EOF\n"@);
    is_ascii_chars_encode_utf8("%%EOF\n"@);
    let file = front + utf8("\n%%EOF\n"@);
    assert(utf8("%%EOF\n"@).len() == 6);
    assert(file.subrange(file.len() - 6, file.len() as int) =~= utf8("%%EOF\n"@));
}

proof fn lemma_stands_as_listed(bodies: Seq<Seq<u8>>, info: Option<nat>)
    requires
        bodies.len() > 0,
        places_fit(bodies),
    ensures
        stands_as_listed(bodies, file_bytes(bodies, info)),
{
    law_places_are_right(bodies, info, 0);
    assert forall|i: nat| i < bodies.len() implies occurs_at(
        file_bytes(bodies, info),
        decimal(i + 1) + utf8(" 0 obj\n"@),
        #[trigger] file_body(bodies, i).len() as int,
    ) by {
        law_places_are_right(bodies, info, i);
    }
    let body = file_body(bodies, bodies.len());
    lemma_file_end(
        body + table_part(bodies, info) + utf8("startxref\n"@) + decimal(body.len()),
    );
}

/// How many pages a document has that is asked for this many.
pub open spec fn made_pages(pages: nat) -> nat {
    if pages == 0 {
        1
    } else {
        pages
    }
}

/// The number of the information dictionary, where there is one.
pub open spec fn made_info(pages: nat, metadata: Option<Seq<char>>) -> Option<nat> {
    if metadata is Some {
        Some((4 + made_pages(pages) * 2) as nat)
    } else {
        None
    }
}

/// A document made to order is read back: it can be extended, its trailer names
/// its catalog and the information dictionary that it has only with keywords,
/// and everything stands where it is said to.
pub proof fn law_a_made_document_is_read_back(
    pages: nat,
    metadata: Option<Seq<char>>,
    attachment: Option<Attachment>,
)
    requires
        places_fit(bodies(made_pages(pages), metadata, attachment)),
    ensures
        ({
            let all = bodies(made_pages(pages), metadata, attachment);
            let file = synthesized(pages, metadata, attachment);
            let at = file_body(all, all.len()).len();
            let trailer = made_trailer(all.len(), made_info(pages, metadata));
            &&& open_outcome(file) matches Ok(opened) && opened.trailer == trailer
                && opened.prev_startxref == at && opened.next_object_number == all.len() + 1
            &&& section_at(file, at) matches Some(section) && section.offsets == object_offsets(all)
            &&& stands_as_listed(all, file)
        }),
{
    let all = bodies(made_pages(pages), metadata, attachment);
    law_computed_numbers_hold(made_pages(pages), metadata, attachment);
    law_a_made_file_is_read_back(all, made_info(pages, metadata));
    lemma_stands_as_listed(all, made_info(pages, metadata));
}

/// While a file is shorter than ten thousand million bytes, every row of its
/// table has twenty.
pub proof fn law_rows_have_twenty_bytes(bodies: Seq<Seq<u8>>, n: nat)
    requires
        n <= bodies.len(),
        file_body(bodies, n).len() < 10_000_000_000,
    ensures
        offset_rows(bodies, n).len() == 20 * n,
    decreases n,
{
    if n > 0 {
        lemma_body_length(bodies, (n - 1) as nat, n);
        law_rows_have_twenty_bytes(bodies, (n - 1) as nat);
        let offset = file_body(bodies, (n - 1) as nat).len();
        assert(10_000_000_000 <= pow10(10)) by {
            reveal_with_fuel(pow10, 11);
        }
        lemma_decimal_len(offset, 10, 10_000_000_000);
        reveal_strlit(" 00000 n \n");
        is_ascii_chars_encode_utf8(" 00000 n \n"@);
        assert(padded_decimal(offset, 10).len() == 10);
    }
}

/// The row of an object in the table of a file.
pub open spec fn offset_row(bodies: Seq<Seq<u8>>, i: nat) -> Seq<u8> {
    padded_decimal(file_body(bodies, i).len(), 10) + utf8(" 00000 n \n"@)
}

proof fn lemma_row_in_rows(bodies: Seq<Seq<u8>>, n: nat, i: nat)
    requires
        i < n <= bodies.len(),
        file_body(bodies, n).len() < 10_000_000_000,
    ensures
        offset_row(bodies, i).len() == 20,
        offset_rows(bodies, n).len() == 20 * n,
        offset_rows(bodies, n).subrange(20 * i as int, 20 * i as int + 20) == offset_row(bodies, i),
    decreases n,
{
    law_rows_have_twenty_bytes(bodies, n);
    lemma_body_length(bodies, (n - 1) as nat, n);
    law_rows_have_twenty_bytes(bodies, (n - 1) as nat);
    let before = offset_rows(bodies, (n - 1) as nat);
    let all = offset_rows(bodies, n);
    assert(all =~= before + offset_row(bodies, (n - 1) as nat));
    if i < n - 1 {
        lemma_row_in_rows(bodies, (n - 1) as nat, i);
        assert(all.subrange(20 * i as int, 20 * i as int + 20) =~= before.subrange(
            20 * i as int,
            20 * i as int + 20,
        ));
    } else {
        assert(all.subrange(20 * i as int, 20 * i as int + 20) =~= offset_row(bodies, i));
    }
}

/// What stands behind others stands where they end.
proof fn lemma_stands_behind(front: Seq<u8>, middle: Seq<u8>, part: Seq<u8>, from: int, rest: Seq<u8>)
    requires
        0 <= from,
        from + part.len() <= middle.len(),
        middle.subrange(from, from + part.len()) == part,
    ensures
        occurs_at(front + middle + rest, part, front.len() + from),
{
    let whole = front + middle + rest;
    let at = front.len() + from;
    assert(whole.subrange(at, at + part.len()) =~= part) by {
        assert forall|k: int| 0 <= k < part.len() implies whole[at + k] == part[k] by {
            assert(middle.subrange(from, from + part.len())[k] == middle[from + k]);
        }
    }
}

/// The trailer of a file with this many objects.
pub open spec fn trailer_part(count: nat, info: Option<nat>) -> Seq<u8> {
    utf8("trailer\n<< /Size "@) + decimal(count + 1) + utf8(" /Root 1 0 R"@) + (match info {
        Some(number) => utf8(" /Info "@) + decimal(number) + utf8(" 0 R"@),
        None => Seq::empty(),
    }) + utf8(" >>\n"@)
}

/// The line that counts the rows of a table, and the row that heads the free
/// list.
pub open spec fn table_head(count: nat) -> Seq<u8> {
    utf8("xref\n"@) + utf8("0 "@) + decimal(count + 1) + utf8("\n0000000000 65535 f \n"@)
}

/// The parts of a file from its table on, grouped round each of them.
proof fn lemma_parts_from_table(
    body: Seq<u8>,
    head: Seq<u8>,
    rows: Seq<u8>,
    trailer: (Seq<u8>, Seq<u8>, Seq<u8>, Seq<u8>, Seq<u8>),
    end: (Seq<u8>, Seq<u8>, Seq<u8>),
)
    ensures
        ({
            let table = head + rows + trailer.0 + trailer.1 + trailer.2 + trailer.3 + trailer.4;
            let file = body + table + end.0 + end.1 + end.2;
            let text = trailer.0 + trailer.1 + trailer.2 + trailer.3 + trailer.4;
            let rest = end.0 + end.1 + end.2;
            &&& file == body + head + (rows + text + rest)
            &&& file == body + head + rows + (text + rest)
            &&& file == body + head + rows + text + rest
        }),
{
    let table = head + rows + trailer.0 + trailer.1 + trailer.2 + trailer.3 + trailer.4;
    let file = body + table + end.0 + end.1 + end.2;
    let text = trailer.0 + trailer.1 + trailer.2 + trailer.3 + trailer.4;
    let rest = end.0 + end.1 + end.2;
    assert(table =~= head + rows + text);
    assert(file =~= body + table + rest);
    assert(file =~= body + head + rows + text + rest);
    assert(file =~= body + head + rows + (text + rest));
    assert(file =~= body + head + (rows + text + rest));
}

/// Everything in the table of a file stands in its place: the head, a row of
/// twenty bytes for each object, which says where the object starts, and behind
/// them the trailer. The end of the file says where the table starts.
pub open spec fn is_well_tabled(all: Seq<Seq<u8>>, info: Option<nat>, file: Seq<u8>) -> bool {
    let n = all.len();
    let at = file_body(all, n).len();
    let rows = at + table_head(n).len();
    &&& startxref_of(file) == Some(at)
    &&& occurs_at(file, table_head(n), at as int)
    &&& forall|i: nat|
        i < n ==> {
            &&& (#[trigger] offset_row(all, i)).len() == 20
            &&& occurs_at(file, offset_row(all, i), (rows + 20 * i) as int)
            &&& occurs_at(
                file,
                decimal(i + 1) + utf8(" 0 obj\n"@),
                file_body(all, i).len() as int,
            )
        }
    &&& occurs_at(file, trailer_part(n, info), (rows + 20 * n) as int)
    &&& file.len() >= 6 && file.subrange(file.len() - 6, file.len() as int) == utf8("%%EOF\n"@)
}

proof fn lemma_end_of_a_file(file: Seq<u8>, front: Seq<u8>)
    requires
        file == front + utf8("\n%%EOF\n"@),
    ensures
        file.len() >= 6 && file.subrange(file.len() - 6, file.len() as int) == utf8("%%EOF\n"@),
{
    reveal_strlit("\n%%EOF\n");
    reveal_strlit("%%EOF\n");
    is_ascii_chars_encode_utf8("\n%%EOF\n"@);
    is_ascii_chars_encode_utf8("%%EOF\n"@);
    assert(file.subrange(file.len() - 6, file.len() as int) =~= utf8("%%EOF\n"@));
}

proof fn lemma_table_of_a_file(all: Seq<Seq<u8>>, info: Option<nat>)
    requires
        all.len() > 0,
        file_body(all, all.len()).len() < 10_000_000_000,
    ensures
        is_well_tabled(all, info, file_bytes(all, info)),
{
    let n = all.len();
    let body = file_body(all, n);
    let at = body.len();
    let head = table_head(n);
    let rows = offset_rows(all, n);
    let file = file_bytes(all, info);
    law_rows_have_twenty_bytes(all, n);
    law_places_are_right(all, info, 0);
    let named: Seq<u8> = match info {
        Some(number) => utf8(" /Info "@) + decimal(number) + utf8(" 0 R"@),
        None => Seq::empty(),
    };
    let trailer = (
        utf8("trailer\n<< /Size "@),
        decimal(n + 1),
        utf8(" /Root 1 0 R"@),
        named,
        utf8(" >>\n"@),
    );
    let end = (utf8("startxref\n"@), decimal(at), utf8("\n%%EOF\n"@));
    let text = trailer_part(n, info);
    let rest = end.0 + end.1 + end.2;
    lemma_parts_from_table(body, head, rows, trailer, end);
    assert(file == body + head + (rows + text + rest));
    assert(head.subrange(0, head.len() as int) =~= head);
    lemma_stands_behind(body, head, head, 0, rows + text + rest);
    assert forall|i: nat| i < n implies {
        &&& (#[trigger] offset_row(all, i)).len() == 20
        &&& occurs_at(file, offset_row(all, i), (at + head.len() + 20 * i) as int)
        &&& occurs_at(file, decimal(i + 1) + utf8(" 0 obj\n"@), file_body(all, i).len() as int)
    } by {
        law_places_are_right(all, info, i);
        lemma_row_in_rows(all, n, i);
        lemma_stands_behind(body + head, rows, offset_row(all, i), 20 * i as int, text + rest);
    }
    assert(text.subrange(0, text.len() as int) =~= text);
    lemma_stands_behind(body + head + rows, text, text, 0, rest);
    lemma_end_of_a_file(file, body + table_part(all, info) + end.0 + end.1);
}

/// The table of a document made to order is as it should be, while the document
/// is shorter than ten thousand million bytes. The objects are three, two for
/// each page, one for keywords and two for what is embedded, and the trailer
/// names an information dictionary only with keywords.
pub proof fn law_the_table_of_a_made_document(
    pages: nat,
    metadata: Option<Seq<char>>,
    attachment: Option<Attachment>,
)
    requires
        ({
            let all = bodies(made_pages(pages), metadata, attachment);
            file_body(all, all.len()).len() < 10_000_000_000
        }),
    ensures
        ({
            let all = bodies(made_pages(pages), metadata, attachment);
            &&& all.len() == 3 + 2 * made_pages(pages) + (if metadata is Some {
                1nat
            } else {
                0nat
            }) + (if attachment is Some {
                2nat
            } else {
                0nat
            })
            &&& is_well_tabled(
                all,
                made_info(pages, metadata),
                synthesized(pages, metadata, attachment),
            )
            &&& made_info(pages, metadata) is Some == metadata is Some
        }),
{
    law_computed_numbers_hold(made_pages(pages), metadata, attachment);
    lemma_table_of_a_file(
        bodies(made_pages(pages), metadata, attachment),
        made_info(pages, metadata),
    );
}

} // verus!
