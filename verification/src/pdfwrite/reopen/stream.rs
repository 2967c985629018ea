//! An update with a cross-reference stream, read back.

use crate::bytes::{decimal, utf8};
use crate::number::{is_digit, unsigned_of};
use crate::pdfread::dictionary::{lookup, Entries};
use crate::pdfread::value::{
    entries_at, is_reference_at, items_at, value_at, ValueError, MAX_VALUE_DEPTH,
};
use crate::pdfread::filter::decoded;
use crate::pdfread::rows::{rows_read, runs_in, widths_of};
use crate::pdfread::xref::{section_of, XRefKind};
use crate::pdfwrite::laws::{law_decimal_reads_back, law_startxref_reads_back};
use crate::pdfwrite::object::PdfValue;
use crate::pdfwrite::pieces::{
    is_parted, is_word, lemma_bracket, lemma_name, lemma_run, lemma_space, lemma_word,
    lemma_word_and_space, tail_of, tokens_of,
};
use crate::pdfwrite::reopen::lines::{
    id_entries, id_tokens, is_plain_key, key_token, lemma_decimal_token, lemma_entry_at,
    lemma_id_entry, lemma_id_line, lemma_key, lemma_no_close, lemma_no_keyword, lemma_number_entry,
    lemma_number_line, lemma_parts, lemma_reference_entry, lemma_reference_line, lemma_regroup,
    lemma_trailer_keys, reference_entries, reference_fits, reference_tokens, starts_an_entry,
    updated_trailer,
};
use crate::pdfwrite::reopen::rows::{
    are_near, has_objects, in_use, index_runs, law_rows_are_read_back, lemma_index_is_read,
};
use crate::pdfwrite::section::{index_array, stream_data, Row};
use crate::pdfwrite::tokenizer::is_delimiter;
use crate::pdfwrite::writer::{
    id_line, reference_line, spaced, startxref_of, stream_section, strings_in, trailer_of, Opened,
};
use vstd::prelude::*;
use vstd::utf8::is_ascii_chars_encode_utf8;

verus! {

/// The tokens of numbers.
spec fn number_tokens(values: Seq<nat>) -> Seq<Seq<u8>> {
    values.map_values(|n: nat| decimal(n))
}

/// Numbers as values.
spec fn number_values(values: Seq<nat>) -> Seq<PdfValue> {
    values.map_values(|n: nat| PdfValue::Integer(n as int))
}

/// Numbers of an `/Index` array.
spec fn widened(values: Seq<u32>) -> Seq<nat> {
    values.map_values(|n: u32| n as nat)
}

proof fn lemma_spaced(values: Seq<u32>, n: nat, rest: Seq<u8>)
    requires
        n <= values.len(),
        is_parted(rest),
    ensures
        tokens_of(spaced(values, n) + rest) == number_tokens(widened(values.take(n as int)))
            + tokens_of(rest),
        tail_of(spaced(values, n) + rest) == tail_of(rest),
    decreases n,
{
    if n == 0 {
        assert(spaced(values, n) + rest =~= rest);
        assert(number_tokens(widened(values.take(0))) + tokens_of(rest) =~= tokens_of(rest));
    } else {
        reveal_strlit(" ");
        is_ascii_chars_encode_utf8(" "@);
        assert(utf8(" "@) =~= seq![32u8]);
        let value = decimal(values[n - 1] as nat);
        let before = spaced(values, (n - 1) as nat);
        let tail = if n > 1 {
            seq![32u8] + (value + rest)
        } else {
            value + rest
        };
        lemma_decimal_token(values[n - 1] as nat, u32::MAX as nat);
        lemma_word(value, rest);
        if n > 1 {
            lemma_space(32, value + rest);
            assert(spaced(values, n) + rest =~= before + tail);
            lemma_spaced(values, (n - 1) as nat, tail);
        } else {
            assert(spaced(values, n) + rest =~= tail);
            assert(values.take(0) =~= Seq::empty());
        }
        let numbers = number_tokens(widened(values.take(n as int)));
        let fewer = number_tokens(widened(values.take(n - 1)));
        assert(numbers =~= fewer.push(value));
        assert(numbers + tokens_of(rest) =~= fewer + (seq![value] + tokens_of(rest)));
        if n == 1 {
            assert(fewer =~= Seq::empty());
            assert(fewer + (seq![value] + tokens_of(rest)) =~= seq![value] + tokens_of(rest));
        }
    }
}

/// A bracket that closes an array starts no other value.
proof fn lemma_closing_bracket(token: Seq<u8>)
    requires
        token == seq![0x5Du8],
    ensures
        token == utf8("]"@),
        token != utf8("R"@),
        unsigned_of(token, 0xFFFF) is None,
{
    reveal_strlit("]");
    reveal_strlit("R");
    is_ascii_chars_encode_utf8("]"@);
    is_ascii_chars_encode_utf8("R"@);
    assert(token =~= utf8("]"@));
    assert(utf8("R"@)[0] == 82);
    assert(!is_digit(token[0]));
}

/// The items of an array of numbers.
proof fn lemma_items(
    tokens: Seq<Seq<u8>>,
    at: int,
    depth: nat,
    before: Seq<PdfValue>,
    values: Seq<nat>,
    more: Seq<Seq<u8>>,
)
    requires
        depth < MAX_VALUE_DEPTH,
        forall|i: int| 0 <= i < values.len() ==> #[trigger] values[i] <= 0x7FFF_FFFF_FFFF_FFFF,
        0 <= at <= tokens.len(),
        tokens.skip(at) == number_tokens(values) + (seq![seq![0x5Du8]] + more),
    ensures
        items_at(tokens, at, depth, before) == Ok::<(Seq<PdfValue>, int), ValueError>(
            (before + number_values(values), at + values.len() + 1),
        ),
    decreases values.len(),
{
    let close = seq![seq![0x5Du8]] + more;
    let numbers = number_tokens(values);
    lemma_parts(tokens, at, numbers, close);
    let end = (at + values.len()) as int;
    assert(close[0] == seq![0x5Du8]);
    lemma_closing_bracket(tokens[end]);
    if values.len() == 0 {
        assert(before + number_values(values) =~= before);
    } else {
        let n = values[0];
        let others = values.drop_first();
        assert(tokens[at + 0] == numbers[0]);
        lemma_decimal_token(n, n);
        law_decimal_reads_back(n);
        assert(is_digit(tokens[at][0]));
        lemma_no_keyword(tokens[at]);
        assert(!is_reference_at(tokens, at)) by {
            if values.len() == 1 {
            } else if values.len() == 2 {
            } else {
                assert(tokens[at + 2] == numbers[2]);
                law_decimal_reads_back(values[2]);
                assert(is_digit(decimal(values[2])[0]));
                reveal_strlit("R");
                is_ascii_chars_encode_utf8("R"@);
                assert(utf8("R"@)[0] == 82);
            }
        }
        let value = PdfValue::Integer(n as int);
        assert(value_at(tokens, at, depth + 1) == Ok::<(PdfValue, int), ValueError>(
            (value, at + 1),
        ));
        assert(numbers =~= seq![decimal(n)] + number_tokens(others));
        assert(numbers + close =~= seq![decimal(n)] + (number_tokens(others) + close));
        lemma_parts(tokens, at, seq![decimal(n)], number_tokens(others) + close);
        assert forall|i: int| 0 <= i < others.len() implies #[trigger] others[i]
            <= 0x7FFF_FFFF_FFFF_FFFF by {
            assert(others[i] == values[i + 1]);
        }
        lemma_items(tokens, at + 1, depth, before.push(value), others, more);
        assert(before.push(value) + number_values(others) =~= before + number_values(values));
    }
}

/// The tokens of a key with an array of numbers behind it.
spec fn array_tokens(key: Seq<char>, values: Seq<nat>, more: Seq<Seq<u8>>) -> Seq<Seq<u8>> {
    seq![key_token(key), seq![0x5Bu8]] + (number_tokens(values) + (seq![seq![0x5Du8]] + more))
}

proof fn lemma_array_entry(
    tokens: Seq<Seq<u8>>,
    at: int,
    depth: nat,
    before: Entries,
    key: Seq<char>,
    values: Seq<nat>,
    more: Seq<Seq<u8>>,
)
    requires
        is_plain_key(key),
        depth + 1 < MAX_VALUE_DEPTH,
        forall|i: int| 0 <= i < values.len() ==> #[trigger] values[i] <= 0x7FFF_FFFF_FFFF_FFFF,
        0 <= at <= tokens.len(),
        tokens.skip(at) == array_tokens(key, values, more),
    ensures
        at + values.len() + 3 <= tokens.len(),
        tokens.skip((at + values.len() + 3) as int) == more,
        entries_at(tokens, at, depth, before) == entries_at(
            tokens,
            at + values.len() + 3,
            depth,
            before.push((key, PdfValue::Array(number_values(values)))),
        ),
{
    lemma_key(key);
    let first = seq![key_token(key), seq![0x5Bu8]];
    let close = seq![seq![0x5Du8]] + more;
    lemma_parts(tokens, at, first, number_tokens(values) + close);
    assert(tokens[at + 0] == first[0]);
    assert(tokens[at + 1] == first[1]);
    lemma_no_close(tokens[at]);
    reveal_strlit("[");
    reveal_strlit("<<");
    is_ascii_chars_encode_utf8("["@);
    is_ascii_chars_encode_utf8("<<"@);
    assert(tokens[at + 1] =~= utf8("["@));
    assert(tokens[at + 1] != utf8("<<"@));
    lemma_items(tokens, at + 2, depth + 1, Seq::empty(), values, more);
    assert(Seq::<PdfValue>::empty() + number_values(values) =~= number_values(values));
    lemma_parts(tokens, at + 2, number_tokens(values), close);
    lemma_parts(tokens, (at + 2 + values.len()) as int, seq![seq![0x5Du8]], more);
    assert(value_at(tokens, at + 1, depth + 1) == Ok::<(PdfValue, int), ValueError>(
        (PdfValue::Array(number_values(values)), at + values.len() + 3),
    ));
}

proof fn lemma_name_entry(
    tokens: Seq<Seq<u8>>,
    at: int,
    depth: nat,
    before: Entries,
    key: Seq<char>,
    name: Seq<char>,
    more: Seq<Seq<u8>>,
)
    requires
        is_plain_key(key),
        is_plain_key(name),
        depth < MAX_VALUE_DEPTH,
        0 <= at <= tokens.len(),
        tokens.skip(at) == seq![key_token(key), key_token(name)] + more,
    ensures
        at + 2 <= tokens.len(),
        tokens.skip(at + 2) == more,
        entries_at(tokens, at, depth, before) == entries_at(
            tokens,
            at + 2,
            depth,
            before.push((key, PdfValue::Name(name))),
        ),
{
    lemma_key(key);
    lemma_key(name);
    let first = seq![key_token(key), key_token(name)];
    lemma_parts(tokens, at, first, more);
    assert(tokens[at + 0] == first[0]);
    assert(tokens[at + 1] == first[1]);
    lemma_no_close(tokens[at]);
    reveal_strlit("[");
    reveal_strlit("<<");
    is_ascii_chars_encode_utf8("["@);
    is_ascii_chars_encode_utf8("<<"@);
    assert(tokens[at + 1].drop_first() =~= utf8(name));
    assert(value_at(tokens, at + 1, depth + 1) == Ok::<(PdfValue, int), ValueError>(
        (PdfValue::Name(name), at + 2),
    ));
}

/// The keys of a cross-reference stream stand in a file as they are.
proof fn lemma_stream_keys()
    ensures
        is_plain_key("Type"@),
        is_plain_key("XRef"@),
        is_plain_key("W"@),
        is_plain_key("Index"@),
        is_plain_key("Length"@),
        utf8("/Length "@) == key_token("Length"@) + seq![32u8],
{
    reveal_strlit("Type");
    reveal_strlit("XRef");
    reveal_strlit("W");
    reveal_strlit("Index");
    reveal_strlit("Length");
    reveal_strlit("/Length ");
    reveal_strlit("endobj");
    reveal_strlit("stream");
    assert("Length"@[0] != "endobj"@[0]);
    assert("Length"@[0] != "stream"@[0]);
    is_ascii_chars_encode_utf8("Length"@);
    is_ascii_chars_encode_utf8("/Length "@);
    assert(utf8("/Length "@) =~= key_token("Length"@) + seq![32u8]);
}

/// The tokens that a cross-reference stream starts with.
spec fn stream_head(own: nat, size: nat) -> Seq<Seq<u8>> {
    seq![
        decimal(own),
        seq![48u8],
        utf8("obj"@),
        seq![0x3Cu8, 0x3Cu8],
        key_token("Type"@),
        key_token("XRef"@),
        key_token("Size"@),
        decimal(size),
    ]
}

proof fn lemma_stream_head_text(rest: Seq<u8>)
    ensures
        utf8(" 0 obj\n<<\n/Type /XRef\n/Size "@) + rest == seq![32u8] + (seq![48u8] + (seq![32u8] + (
        utf8("obj"@) + (seq![10u8] + (seq![0x3Cu8, 0x3Cu8] + (seq![10u8] + (key_token("Type"@) + (
        seq![32u8] + (key_token("XRef"@) + (seq![10u8] + (key_token("Size"@) + (seq![32u8]
            + rest)))))))))))),
{
    reveal_strlit(" 0 obj\n<<\n/Type /XRef\n/Size ");
    reveal_strlit("obj");
    reveal_strlit("Type");
    reveal_strlit("XRef");
    reveal_strlit("Size");
    is_ascii_chars_encode_utf8(" 0 obj\n<<\n/Type /XRef\n/Size "@);
    is_ascii_chars_encode_utf8("obj"@);
    is_ascii_chars_encode_utf8("Type"@);
    is_ascii_chars_encode_utf8("XRef"@);
    is_ascii_chars_encode_utf8("Size"@);
    assert(utf8(" 0 obj\n<<\n/Type /XRef\n/Size "@) =~= seq![32u8] + seq![48u8] + seq![32u8] + utf8(
        "obj"@,
    ) + seq![10u8] + seq![0x3Cu8, 0x3Cu8] + seq![10u8] + key_token("Type"@) + seq![32u8]
        + key_token("XRef"@) + seq![10u8] + key_token("Size"@) + seq![32u8]);
    assert(utf8(" 0 obj\n<<\n/Type /XRef\n/Size "@) + rest =~= seq![32u8] + (seq![48u8] + (seq![
        32u8,
    ] + (utf8("obj"@) + (seq![10u8] + (seq![0x3Cu8, 0x3Cu8] + (seq![10u8] + (key_token("Type"@) + (
    seq![32u8] + (key_token("XRef"@) + (seq![10u8] + (key_token("Size"@) + (seq![32u8]
        + rest)))))))))))));
}

proof fn lemma_stream_head(own: nat, size: nat, rest: Seq<u8>)
    ensures
        tokens_of(
            decimal(own) + (utf8(" 0 obj\n<<\n/Type /XRef\n/Size "@) + (decimal(size) + (seq![10u8]
                + rest))),
        ) == stream_head(own, size) + tokens_of(rest),
        tail_of(
            decimal(own) + (utf8(" 0 obj\n<<\n/Type /XRef\n/Size "@) + (decimal(size) + (seq![10u8]
                + rest))),
        ) == tail_of(rest),
{
    lemma_stream_keys();
    lemma_trailer_keys();
    lemma_key("Type"@);
    lemma_key("XRef"@);
    lemma_key("Size"@);
    lemma_decimal_token(own, own);
    lemma_decimal_token(0, 0);
    assert(decimal(0) =~= seq![48u8]);
    reveal_strlit("obj");
    reveal_strlit("endobj");
    reveal_strlit("stream");
    is_ascii_chars_encode_utf8("obj"@);
    is_ascii_chars_encode_utf8("endobj"@);
    is_ascii_chars_encode_utf8("stream"@);
    assert(is_word(utf8("obj"@)));
    let sized = key_token("Size"@) + (seq![32u8] + (decimal(size) + (seq![10u8] + rest)));
    let kind = key_token("XRef"@) + (seq![10u8] + sized);
    let typed = key_token("Type"@) + (seq![32u8] + kind);
    let open = seq![0x3Cu8, 0x3Cu8] + (seq![10u8] + typed);
    let object = utf8("obj"@) + (seq![10u8] + open);
    let generation = seq![48u8] + (seq![32u8] + object);
    lemma_stream_head_text(decimal(size) + (seq![10u8] + rest));
    lemma_word_and_space(decimal(own), 32, generation);
    lemma_word_and_space(seq![48u8], 32, object);
    lemma_word_and_space(utf8("obj"@), 10, open);
    lemma_bracket(seq![0x3Cu8, 0x3Cu8], seq![10u8] + typed);
    lemma_space(10, typed);
    lemma_name(utf8("Type"@), seq![32u8] + kind);
    lemma_space(32, kind);
    lemma_name(utf8("XRef"@), seq![10u8] + sized);
    lemma_space(10, sized);
    lemma_number_line("Size"@, size, rest);
    let head = stream_head(own, size);
    let end = tokens_of(rest);
    assert(head + end =~= seq![head[0]] + (seq![head[1]] + (seq![head[2]] + (seq![head[3]] + (seq![
        head[4],
    ] + (seq![head[5]] + (seq![head[6], head[7]] + end)))))));
}

proof fn lemma_widths(rest: Seq<u8>)
    ensures
        tokens_of(utf8("/W [1 4 2]\n/Index ["@) + rest) == array_tokens(
            "W"@,
            seq![1nat, 4nat, 2nat],
            seq![key_token("Index"@), seq![0x5Bu8]] + tokens_of(rest),
        ),
        tail_of(utf8("/W [1 4 2]\n/Index ["@) + rest) == tail_of(rest),
{
    lemma_stream_keys();
    lemma_key("W"@);
    lemma_key("Index"@);
    reveal_strlit("/W [1 4 2]\n/Index [");
    reveal_strlit("W");
    reveal_strlit("Index");
    is_ascii_chars_encode_utf8("/W [1 4 2]\n/Index ["@);
    is_ascii_chars_encode_utf8("W"@);
    is_ascii_chars_encode_utf8("Index"@);
    assert(decimal(1) =~= seq![49u8]);
    assert(decimal(4) =~= seq![52u8]);
    assert(decimal(2) =~= seq![50u8]);
    lemma_decimal_token(1, 1);
    lemma_decimal_token(4, 4);
    lemma_decimal_token(2, 2);
    let opened = seq![0x5Bu8] + rest;
    let index = key_token("Index"@) + (seq![32u8] + opened);
    let close = seq![0x5Du8] + (seq![10u8] + index);
    let third = decimal(2) + close;
    let second = decimal(4) + (seq![32u8] + third);
    let first = decimal(1) + (seq![32u8] + second);
    let open = seq![0x5Bu8] + first;
    assert(utf8("/W [1 4 2]\n/Index ["@) + rest =~= key_token("W"@) + (seq![32u8] + open));
    lemma_name(utf8("W"@), seq![32u8] + open);
    lemma_space(32, open);
    lemma_bracket(seq![0x5Bu8], first);
    lemma_word_and_space(decimal(1), 32, second);
    lemma_word_and_space(decimal(4), 32, third);
    lemma_word(decimal(2), close);
    lemma_bracket(seq![0x5Du8], seq![10u8] + index);
    lemma_space(10, index);
    lemma_name(utf8("Index"@), seq![32u8] + opened);
    lemma_space(32, opened);
    lemma_bracket(seq![0x5Bu8], rest);
    let tail = seq![key_token("Index"@), seq![0x5Bu8]] + tokens_of(rest);
    let numbers = number_tokens(seq![1nat, 4nat, 2nat]);
    assert(numbers =~= seq![decimal(1), decimal(4), decimal(2)]);
    assert(array_tokens("W"@, seq![1nat, 4nat, 2nat], tail) =~= seq![key_token("W"@)] + (seq![
        seq![0x5Bu8],
    ] + (seq![decimal(1)] + (seq![decimal(4)] + (seq![decimal(2)] + (seq![seq![0x5Du8]] + (seq![
        key_token("Index"@),
    ] + (seq![seq![0x5Bu8]] + tokens_of(rest)))))))));
}

/// The body of a stream holds no token.
proof fn lemma_stream_stops(rest: Seq<u8>)
    ensures
        tokens_of(utf8("stream"@) + (seq![10u8] + rest)) == Seq::<Seq<u8>>::empty(),
        tail_of(utf8("stream"@) + (seq![10u8] + rest)) == Some(rest),
{
    reveal_strlit("stream");
    is_ascii_chars_encode_utf8("stream"@);
    let word = utf8("stream"@);
    let data = word + (seq![10u8] + rest);
    assert(data[6] == 10);
    assert forall|i: int| 0 <= i < 6 implies !is_delimiter(#[trigger] data[i]) by {
        assert(data[i] == word[i]);
    }
    assert(data[0] == 115);
    lemma_run(data, 0, 6);
    assert(data.subrange(0, 6) =~= word);
    reveal_strlit("endobj");
    is_ascii_chars_encode_utf8("endobj"@);
    assert(utf8("endobj"@)[0] == 101);
    assert(data.skip(6) =~= seq![10u8] + rest);
    assert((seq![10u8] + rest).skip(1) =~= rest);
}

/// The fixed parts of a cross-reference stream, in pieces.
proof fn lemma_stream_literals(rest: Seq<u8>)
    ensures
        utf8("\n/W [1 4 2]\n/Index ["@) == seq![10u8] + utf8("/W [1 4 2]\n/Index ["@),
        utf8("]\n"@) == seq![0x5Du8] + seq![10u8],
        utf8("\n"@) == seq![10u8],
        utf8("\n>>\nstream\n"@) + rest == seq![10u8] + (seq![0x3Eu8, 0x3Eu8] + (seq![10u8] + (utf8(
            "stream"@,
        ) + (seq![10u8] + rest)))),
{
    reveal_strlit("\n/W [1 4 2]\n/Index [");
    reveal_strlit("/W [1 4 2]\n/Index [");
    reveal_strlit("]\n");
    reveal_strlit("\n");
    reveal_strlit("\n>>\nstream\n");
    reveal_strlit("stream");
    is_ascii_chars_encode_utf8("\n/W [1 4 2]\n/Index ["@);
    is_ascii_chars_encode_utf8("/W [1 4 2]\n/Index ["@);
    is_ascii_chars_encode_utf8("]\n"@);
    is_ascii_chars_encode_utf8("\n"@);
    is_ascii_chars_encode_utf8("\n>>\nstream\n"@);
    is_ascii_chars_encode_utf8("stream"@);
    assert(utf8("\n/W [1 4 2]\n/Index ["@) =~= seq![10u8] + utf8("/W [1 4 2]\n/Index ["@));
    assert(utf8("]\n"@) =~= seq![0x5Du8] + seq![10u8]);
    assert(utf8("\n"@) =~= seq![10u8]);
    assert(utf8("\n>>\nstream\n"@) + rest =~= seq![10u8] + (seq![0x3Eu8, 0x3Eu8] + (seq![10u8] + (
    utf8("stream"@) + (seq![10u8] + rest)))));
}

/// A cross-reference stream without its body and the end of the file.
spec fn stream_text(
    file: Opened,
    own: nat,
    size: nat,
    index: Seq<u32>,
    second: Seq<u8>,
    length: nat,
    ends: Seq<u8>,
) -> Seq<u8> {
    decimal(own) + (utf8(" 0 obj\n<<\n/Type /XRef\n/Size "@) + (decimal(size) + (seq![10u8] + (utf8(
        "/W [1 4 2]\n/Index ["@,
    ) + (spaced(index, index.len()) + (seq![0x5Du8] + (seq![10u8] + (reference_line(
        "/Root "@,
        file.trailer.root,
    ) + (key_token("Prev"@) + (seq![32u8] + (decimal(file.prev_startxref) + (seq![10u8] + (id_line(
        file.trailer.id,
        second,
    ) + (reference_line("/Info "@, file.trailer.info) + (key_token("Length"@) + (seq![32u8] + (
    decimal(length) + (seq![10u8] + (seq![0x3Eu8, 0x3Eu8] + (seq![10u8] + (utf8("stream"@) + (
    seq![10u8] + ends))))))))))))))))))))))
}

proof fn lemma_stream_shape(
    file: Opened,
    own: nat,
    size: nat,
    rows: Seq<Row>,
    second: Seq<u8>,
    xref_at: nat,
) -> (ends: Seq<u8>)
    ensures
        stream_section(file, own, size, rows, second, xref_at) == stream_text(
            file,
            own,
            size,
            index_array(rows, 0),
            second,
            stream_data(rows, rows.len()).len(),
            ends,
        ),
        ends == stream_data(rows, rows.len()) + (utf8("\nendstream\nendobj\nstartxref\n"@) + (decimal(
            xref_at,
        ) + utf8("\n%%EOF\n"@))),
{
    reveal(stream_section);
    lemma_trailer_keys();
    lemma_stream_keys();
    let data = stream_data(rows, rows.len());
    let index = index_array(rows, 0);
    let length = decimal(data.len());
    let a0 = decimal(own);
    let a1 = a0 + utf8(" 0 obj\n<<\n/Type /XRef\n/Size "@);
    let a2 = a1 + decimal(size);
    let a3 = a2 + utf8("\n/W [1 4 2]\n/Index ["@);
    let a4 = a3 + spaced(index, index.len());
    let a5 = a4 + utf8("]\n"@);
    let a6 = a5 + reference_line("/Root "@, file.trailer.root);
    let a7 = a6 + utf8("/Prev "@);
    let a8 = a7 + decimal(file.prev_startxref);
    let a9 = a8 + utf8("\n"@);
    let a10 = a9 + id_line(file.trailer.id, second);
    let a11 = a10 + reference_line("/Info "@, file.trailer.info);
    let a12 = a11 + utf8("/Length "@);
    let a13 = a12 + length;
    let a14 = a13 + utf8("\n>>\nstream\n"@);
    let a15 = a14 + data;
    let a16 = a15 + utf8("\nendstream\nendobj\nstartxref\n"@);
    let a17 = a16 + decimal(xref_at);
    let whole = a17 + utf8("\n%%EOF\n"@);
    assert(whole == stream_section(file, own, size, rows, second, xref_at));
    let z17 = decimal(xref_at) + utf8("\n%%EOF\n"@);
    let z16 = utf8("\nendstream\nendobj\nstartxref\n"@) + z17;
    let ends = data + z16;
    lemma_stream_literals(ends);
    lemma_regroup(a16, decimal(xref_at), utf8("\n%%EOF\n"@));
    lemma_regroup(a15, utf8("\nendstream\nendobj\nstartxref\n"@), z17);
    lemma_regroup(a14, data, z16);
    lemma_regroup(a13, utf8("\n>>\nstream\n"@), ends);
    let z13 = utf8("\n>>\nstream\n"@) + ends;
    lemma_regroup(a12, length, z13);
    let z12 = length + z13;
    lemma_regroup(a11, utf8("/Length "@), z12);
    lemma_regroup(key_token("Length"@), seq![32u8], z12);
    let z11 = key_token("Length"@) + (seq![32u8] + z12);
    assert(whole == a11 + z11);
    lemma_regroup(a10, reference_line("/Info "@, file.trailer.info), z11);
    let z10 = reference_line("/Info "@, file.trailer.info) + z11;
    lemma_regroup(a9, id_line(file.trailer.id, second), z10);
    let z9 = id_line(file.trailer.id, second) + z10;
    lemma_regroup(a8, seq![10u8], z9);
    lemma_regroup(a7, decimal(file.prev_startxref), seq![10u8] + z9);
    let z7 = decimal(file.prev_startxref) + (seq![10u8] + z9);
    lemma_regroup(a6, utf8("/Prev "@), z7);
    lemma_regroup(key_token("Prev"@), seq![32u8], z7);
    let z6 = key_token("Prev"@) + (seq![32u8] + z7);
    assert(whole == a6 + z6);
    lemma_regroup(a5, reference_line("/Root "@, file.trailer.root), z6);
    let z5 = reference_line("/Root "@, file.trailer.root) + z6;
    lemma_regroup(a4, utf8("]\n"@), z5);
    lemma_regroup(seq![0x5Du8], seq![10u8], z5);
    let z4 = seq![0x5Du8] + (seq![10u8] + z5);
    assert(whole == a4 + z4);
    lemma_regroup(a3, spaced(index, index.len()), z4);
    let z3 = spaced(index, index.len()) + z4;
    lemma_regroup(a2, utf8("\n/W [1 4 2]\n/Index ["@), z3);
    lemma_regroup(seq![10u8], utf8("/W [1 4 2]\n/Index ["@), z3);
    let z2 = seq![10u8] + (utf8("/W [1 4 2]\n/Index ["@) + z3);
    assert(whole == a2 + z2);
    lemma_regroup(a1, decimal(size), z2);
    lemma_regroup(a0, utf8(" 0 obj\n<<\n/Type /XRef\n/Size "@), decimal(size) + z2);
    ends
}

/// The tokens of a cross-reference stream from its `/Index` on.
spec fn stream_rest(file: Opened, index: Seq<u32>, second: Seq<u8>, length: nat) -> Seq<Seq<u8>> {
    array_tokens(
        "Index"@,
        widened(index),
        reference_tokens("Root"@, file.trailer.root) + (seq![
            key_token("Prev"@),
            decimal(file.prev_startxref),
        ] + (id_tokens(file.trailer.id, second) + (reference_tokens("Info"@, file.trailer.info) + (
        seq![key_token("Length"@), decimal(length)] + (seq![seq![0x3Eu8, 0x3Eu8]] + Seq::empty()))))),
    )
}

proof fn lemma_stream_tokens(
    file: Opened,
    own: nat,
    size: nat,
    index: Seq<u32>,
    second: Seq<u8>,
    length: nat,
    ends: Seq<u8>,
)
    requires
        file.trailer.id matches Some(strings) ==> strings.len() > 0,
    ensures
        tokens_of(stream_text(file, own, size, index, second, length, ends)) == stream_head(
            own,
            size,
        ) + array_tokens("W"@, seq![1nat, 4nat, 2nat], stream_rest(file, index, second, length)),
        tail_of(stream_text(file, own, size, index, second, length, ends)) == Some(ends),
{
    lemma_trailer_keys();
    lemma_stream_keys();
    let stop = utf8("stream"@) + (seq![10u8] + ends);
    let close = seq![0x3Eu8, 0x3Eu8] + (seq![10u8] + stop);
    let sized = key_token("Length"@) + (seq![32u8] + (decimal(length) + (seq![10u8] + close)));
    let info = reference_line("/Info "@, file.trailer.info) + sized;
    let id = id_line(file.trailer.id, second) + info;
    let prev = key_token("Prev"@) + (seq![32u8] + (decimal(file.prev_startxref) + (seq![10u8]
        + id)));
    let root = reference_line("/Root "@, file.trailer.root) + prev;
    let closed = seq![0x5Du8] + (seq![10u8] + root);
    let numbers = spaced(index, index.len()) + closed;
    let rest = utf8("/W [1 4 2]\n/Index ["@) + numbers;
    lemma_stream_head(own, size, rest);
    lemma_widths(numbers);
    lemma_spaced(index, index.len(), closed);
    assert(index.take(index.len() as int) =~= index);
    lemma_bracket(seq![0x5Du8], seq![10u8] + root);
    lemma_space(10, root);
    lemma_reference_line("/Root "@, "Root"@, file.trailer.root, prev);
    lemma_number_line("Prev"@, file.prev_startxref, id);
    lemma_id_line(file.trailer.id, second, info);
    lemma_reference_line("/Info "@, "Info"@, file.trailer.info, sized);
    lemma_number_line("Length"@, length, close);
    lemma_bracket(seq![0x3Eu8, 0x3Eu8], seq![10u8] + stop);
    lemma_space(10, stop);
    lemma_stream_stops(ends);
}

/// The entries of a cross-reference stream.
spec fn stream_entries(
    file: Opened,
    size: nat,
    index: Seq<u32>,
    second: Seq<u8>,
    length: nat,
) -> Entries {
    seq![
        ("Type"@, PdfValue::Name("XRef"@)),
        ("Size"@, PdfValue::Integer(size as int)),
        ("W"@, PdfValue::Array(number_values(seq![1nat, 4nat, 2nat]))),
        ("Index"@, PdfValue::Array(number_values(widened(index)))),
    ] + reference_entries("Root"@, file.trailer.root) + seq![
        ("Prev"@, PdfValue::Integer(file.prev_startxref as int)),
    ] + id_entries(file.trailer.id, second) + reference_entries("Info"@, file.trailer.info) + seq![
        ("Length"@, PdfValue::Integer(length as int)),
    ]
}

/// The first two entries of a cross-reference stream.
spec fn stream_first(size: nat) -> Entries {
    seq![("Type"@, PdfValue::Name("XRef"@)), ("Size"@, PdfValue::Integer(size as int))]
}

proof fn lemma_stream_first(tokens: Seq<Seq<u8>>, own: nat, size: nat, more: Seq<Seq<u8>>)
    requires
        size <= u32::MAX,
        tokens == stream_head(own, size) + more,
        starts_an_entry(more),
    ensures
        tokens.len() > 8,
        tokens[0] == decimal(own),
        tokens[1] == decimal(0),
        tokens[2] == utf8("obj"@),
        tokens[3] == utf8("<<"@),
        tokens.skip(8) == more,
        entries_at(tokens, 4, 0, Seq::empty()) == entries_at(tokens, 8, 0, stream_first(size)),
{
    lemma_trailer_keys();
    lemma_stream_keys();
    lemma_key("Size"@);
    reveal_strlit("<<");
    is_ascii_chars_encode_utf8("<<"@);
    let head = stream_head(own, size);
    let size_part = seq![key_token("Size"@), decimal(size)] + more;
    let type_part = seq![key_token("Type"@), key_token("XRef"@)] + size_part;
    assert(head + more =~= head.take(4) + type_part);
    assert(tokens.skip(0) =~= tokens);
    lemma_parts(tokens, 0, head, more);
    lemma_parts(tokens, 0, head.take(4), type_part);
    assert(tokens[0] == head[0]);
    assert(tokens[1] == head[1]);
    assert(tokens[2] == head[2]);
    assert(tokens[3] == head[3]);
    assert(decimal(0) =~= seq![48u8]);
    assert(tokens[3] =~= utf8("<<"@));
    let none: Entries = Seq::empty();
    let e1 = none.push(("Type"@, PdfValue::Name("XRef"@)));
    lemma_name_entry(tokens, 4, 0, none, "Type"@, "XRef"@, size_part);
    lemma_number_entry(tokens, 6, 0, e1, "Size"@, size, more);
    assert(e1.push(("Size"@, PdfValue::Integer(size as int))) =~= stream_first(size));
}

proof fn lemma_stream_entries(
    tokens: Seq<Seq<u8>>,
    file: Opened,
    size: nat,
    index: Seq<u32>,
    second: Seq<u8>,
    length: nat,
)
    requires
        file.prev_startxref <= 0x7FFF_FFFF_FFFF_FFFF,
        length <= 0x7FFF_FFFF_FFFF_FFFF,
        reference_fits(file.trailer.root),
        reference_fits(file.trailer.info),
        tokens.len() >= 8,
        tokens.skip(8) == array_tokens(
            "W"@,
            seq![1nat, 4nat, 2nat],
            stream_rest(file, index, second, length),
        ),
    ensures
        entries_at(tokens, 8, 0, stream_first(size)) matches Ok((entries, _)) && entries
            == stream_entries(file, size, index, second, length),
{
    lemma_trailer_keys();
    lemma_stream_keys();
    lemma_key("Info"@);
    lemma_key("Length"@);
    reveal_strlit("ID");
    reveal_strlit("endobj");
    reveal_strlit("stream");
    reveal_strlit(">>");
    is_ascii_chars_encode_utf8(">>"@);
    assert(is_plain_key("ID"@));
    lemma_key("ID"@);
    let widths = seq![1nat, 4nat, 2nat];
    let close = seq![seq![0x3Eu8, 0x3Eu8]] + Seq::<Seq<u8>>::empty();
    let sized = seq![key_token("Length"@), decimal(length)] + close;
    let info = reference_tokens("Info"@, file.trailer.info) + sized;
    let id = id_tokens(file.trailer.id, second) + info;
    let prev = seq![key_token("Prev"@), decimal(file.prev_startxref)] + id;
    let root = reference_tokens("Root"@, file.trailer.root) + prev;
    let listing = array_tokens("Index"@, widened(index), root);
    assert(starts_an_entry(close));
    assert(starts_an_entry(sized));
    assert(starts_an_entry(info));
    assert(starts_an_entry(id));
    let e2 = stream_first(size);
    let e3 = e2.push(("W"@, PdfValue::Array(number_values(widths))));
    let e4 = e3.push(("Index"@, PdfValue::Array(number_values(widened(index)))));
    let e5 = e4 + reference_entries("Root"@, file.trailer.root);
    let e6 = e5.push(("Prev"@, PdfValue::Integer(file.prev_startxref as int)));
    let e7 = e6 + id_entries(file.trailer.id, second);
    let e8 = e7 + reference_entries("Info"@, file.trailer.info);
    let e9 = e8.push(("Length"@, PdfValue::Integer(length as int)));
    lemma_array_entry(tokens, 8, 0, e2, "W"@, widths, listing);
    lemma_array_entry(tokens, 14, 0, e3, "Index"@, widened(index), root);
    let at5 = (17 + index.len()) as int;
    lemma_reference_entry(tokens, at5, 0, e4, "Root"@, file.trailer.root, prev);
    let at6 = (at5 + reference_tokens("Root"@, file.trailer.root).len()) as int;
    lemma_number_entry(tokens, at6, 0, e5, "Prev"@, file.prev_startxref, id);
    let at7 = at6 + 2;
    lemma_id_entry(tokens, at7, 0, e6, file.trailer.id, second, info);
    let at8 = (at7 + id_tokens(file.trailer.id, second).len()) as int;
    lemma_reference_entry(tokens, at8, 0, e7, "Info"@, file.trailer.info, sized);
    let at9 = (at8 + reference_tokens("Info"@, file.trailer.info).len()) as int;
    lemma_number_entry(tokens, at9, 0, e8, "Length"@, length, close);
    let at10 = at9 + 2;
    lemma_parts(tokens, at10, seq![seq![0x3Eu8, 0x3Eu8]], Seq::empty());
    assert(tokens[at10 + 0] == seq![seq![0x3Eu8, 0x3Eu8]][0]);
    assert(tokens[at10] =~= utf8(">>"@));
    assert(e9 =~= stream_entries(file, size, index, second, length));
}

proof fn lemma_stream_trailer(
    file: Opened,
    size: nat,
    index: Seq<u32>,
    second: Seq<u8>,
    length: nat,
)
    requires
        size <= u32::MAX,
    ensures
        trailer_of(stream_entries(file, size, index, second, length)) == updated_trailer(
            file,
            size,
            second,
        ),
        lookup(stream_entries(file, size, index, second, length), "Type"@) == Some(
            PdfValue::Name("XRef"@),
        ),
        lookup(stream_entries(file, size, index, second, length), "Encrypt"@) is None,
        lookup(stream_entries(file, size, index, second, length), "Filter"@) is None,
        lookup(stream_entries(file, size, index, second, length), "W"@) == Some(
            PdfValue::Array(number_values(seq![1nat, 4nat, 2nat])),
        ),
        lookup(stream_entries(file, size, index, second, length), "Index"@) == Some(
            PdfValue::Array(number_values(widened(index))),
        ),
        lookup(stream_entries(file, size, index, second, length), "Length"@) == Some(
            PdfValue::Integer(length as int),
        ),
{
    reveal_strlit("Type");
    reveal_strlit("Size");
    reveal_strlit("W");
    reveal_strlit("Index");
    reveal_strlit("Root");
    reveal_strlit("Prev");
    reveal_strlit("ID");
    reveal_strlit("Info");
    reveal_strlit("Length");
    reveal_strlit("XRefStm");
    reveal_strlit("Encrypt");
    reveal_strlit("Filter");
    assert("Encrypt"@[0] == 'E' && "Filter"@[0] == 'F');
    assert("Type"@[0] == 'T' && "Size"@[0] == 'S' && "W"@[0] == 'W' && "Root"@[0] == 'R');
    assert("Prev"@[0] == 'P' && "Length"@[0] == 'L' && "XRefStm"@[0] == 'X');
    assert("Index"@[0] == 'I' && "ID"@[0] == 'I' && "Info"@[0] == 'I');
    assert("Index"@.len() == 5 && "ID"@.len() == 2 && "Info"@.len() == 4);
    let entries = stream_entries(file, size, index, second, length);
    let r = reference_entries("Root"@, file.trailer.root).len() as int;
    let d = id_entries(file.trailer.id, second).len() as int;
    let f = reference_entries("Info"@, file.trailer.info).len() as int;
    assert(entries.len() == 6 + r + d + f);
    assert(entries[0].0 == "Type"@);
    assert(entries[1].0 == "Size"@);
    assert(entries[2].0 == "W"@);
    assert(entries[3].0 == "Index"@);
    if r == 1 {
        assert(entries[4].0 == "Root"@);
    }
    assert(entries[4 + r].0 == "Prev"@);
    if d == 1 {
        assert(entries[5 + r].0 == "ID"@);
    }
    if f == 1 {
        assert(entries[5 + r + d].0 == "Info"@);
    }
    assert(entries[5 + r + d + f].0 == "Length"@);
    lemma_entry_at(entries, "Type"@, 0, 0);
    lemma_entry_at(entries, "Size"@, 0, 1);
    lemma_entry_at(
        entries,
        "Root"@,
        0,
        if r == 1 {
            4
        } else {
            entries.len() as int
        },
    );
    lemma_entry_at(entries, "Prev"@, 0, 4 + r);
    lemma_entry_at(
        entries,
        "ID"@,
        0,
        if d == 1 {
            5 + r
        } else {
            entries.len() as int
        },
    );
    lemma_entry_at(
        entries,
        "Info"@,
        0,
        if f == 1 {
            5 + r + d
        } else {
            entries.len() as int
        },
    );
    lemma_entry_at(entries, "XRefStm"@, 0, entries.len() as int);
    lemma_entry_at(entries, "Encrypt"@, 0, entries.len() as int);
    lemma_entry_at(entries, "Filter"@, 0, entries.len() as int);
    lemma_entry_at(entries, "W"@, 0, 2);
    lemma_entry_at(entries, "Index"@, 0, 3);
    lemma_entry_at(entries, "Length"@, 0, 5 + r + d + f);
    reveal_with_fuel(strings_in, 3);
    if let Some(strings) = file.trailer.id {
        let items = seq![PdfValue::HexString(strings[0]), PdfValue::HexString(second)];
        assert(strings_in(items, 2) =~= seq![strings[0], second]);
    }
}

/// An object that holds the dictionary of a cross-reference stream.
proof fn lemma_stream_dictionary(
    tokens: Seq<Seq<u8>>,
    own: nat,
    entries: Entries,
    end: int,
    rest: Seq<u8>,
)
    requires
        own <= u32::MAX,
        tokens.len() > 4,
        tokens[0] == decimal(own),
        tokens[1] == decimal(0),
        tokens[2] == utf8("obj"@),
        tokens[3] == utf8("<<"@),
        entries_at(tokens, 4, 0, Seq::empty()) == Ok::<(Entries, int), ValueError>((entries, end)),
        lookup(entries, "Type"@) == Some(PdfValue::Name("XRef"@)),
    ensures
        section_of(tokens, rest) matches Some(section) && section.kind == XRefKind::Stream
            && section.trailer == entries && section.offsets == rows_read(entries, rest),
{
    lemma_decimal_token(own, u32::MAX as nat);
    lemma_decimal_token(0, u32::MAX as nat);
    law_decimal_reads_back(own);
    assert(is_digit(decimal(own)[0]));
    reveal_strlit("xref");
    is_ascii_chars_encode_utf8("xref"@);
    assert(utf8("xref"@)[0] == 120);
    assert(value_at(tokens, 3, 0) == Ok::<(PdfValue, int), ValueError>(
        (PdfValue::Dictionary(entries), end),
    ));
}

proof fn lemma_starts_with_key(key: Seq<char>, values: Seq<nat>, more: Seq<Seq<u8>>)
    requires
        is_plain_key(key),
    ensures
        starts_an_entry(array_tokens(key, values, more)),
{
    lemma_key(key);
}

/// The rows behind the dictionary of a cross-reference stream.
proof fn lemma_rows_behind(entries: Entries, text: Seq<u8>, rows: Seq<Row>, ends: Seq<u8>)
    requires
        rows.len() <= u32::MAX,
        are_near(rows),
        tail_of(text) == Some(ends),
        stream_data(rows, rows.len()).len() <= ends.len(),
        ends.take(stream_data(rows, rows.len()).len() as int) == stream_data(rows, rows.len()),
        lookup(entries, "Filter"@) is None,
        lookup(entries, "W"@) == Some(
            PdfValue::Array(number_values(seq![1nat, 4nat, 2nat])),
        ),
        lookup(entries, "Index"@) == Some(
            PdfValue::Array(number_values(widened(index_array(rows, 0)))),
        ),
        lookup(entries, "Length"@) == Some(
            PdfValue::Integer(stream_data(rows, rows.len()).len() as int),
        ),
    ensures
        rows_read(entries, text) == in_use(rows, 0),
{
    let index = index_array(rows, 0);
    let data = stream_data(rows, rows.len());
    lemma_index_is_read(rows, 0);
    let values = number_values(widened(index));
    assert(runs_in(values) =~= index_runs(index)) by {
        assert forall|k: int| 0 <= k < index.len() / 2 implies runs_in(values)[k] == index_runs(
            index,
        )[k] by {
            assert(has_objects(index, k));
            assert(values[2 * k] == PdfValue::Integer(index[2 * k] as int));
            assert(values[2 * k + 1] == PdfValue::Integer(index[2 * k + 1] as int));
        }
    }
    assert(index_runs(index).skip(0) =~= index_runs(index));
    law_rows_are_read_back(rows, data, index_runs(index), 0, 0);
    let widths = number_values(seq![1nat, 4nat, 2nat]);
    assert(widths[0] == PdfValue::Integer(1) && widths[1] == PdfValue::Integer(4) && widths[2]
        == PdfValue::Integer(2));
    assert(widths_of(entries) == Some((1nat, 4nat, 2nat)));
    assert(decoded(entries, data) == Some(data));
}

pub proof fn lemma_stream_section(
    file: Opened,
    own: nat,
    size: nat,
    rows: Seq<Row>,
    second: Seq<u8>,
    xref_at: nat,
)
    requires
        file.prev_startxref <= 0x7FFF_FFFF_FFFF_FFFF,
        stream_data(rows, rows.len()).len() <= 0x7FFF_FFFF_FFFF_FFFF,
        rows.len() <= u32::MAX,
        are_near(rows),
        own <= u32::MAX,
        size <= u32::MAX,
        reference_fits(file.trailer.root),
        reference_fits(file.trailer.info),
        file.trailer.id matches Some(strings) ==> strings.len() > 0,
    ensures
        section_of(
            tokens_of(stream_section(file, own, size, rows, second, xref_at)),
            stream_section(file, own, size, rows, second, xref_at),
        ) matches Some(section) && section.kind == XRefKind::Stream && trailer_of(section.trailer)
            == updated_trailer(file, size, second) && section.offsets == in_use(rows, 0) && lookup(
            section.trailer,
            "Encrypt"@,
        ) is None,
{
    let index = index_array(rows, 0);
    let length = stream_data(rows, rows.len()).len();
    let widths = seq![1nat, 4nat, 2nat];
    let ends = lemma_stream_shape(file, own, size, rows, second, xref_at);
    lemma_stream_tokens(file, own, size, index, second, length, ends);
    let tokens = tokens_of(stream_section(file, own, size, rows, second, xref_at));
    let rest = stream_rest(file, index, second, length);
    lemma_stream_keys();
    lemma_starts_with_key("W"@, widths, rest);
    lemma_stream_first(tokens, own, size, array_tokens("W"@, widths, rest));
    lemma_stream_entries(tokens, file, size, index, second, length);
    lemma_stream_trailer(file, size, index, second, length);
    let (entries, end) = entries_at(tokens, 8, 0, stream_first(size))->Ok_0;
    let text = stream_section(file, own, size, rows, second, xref_at);
    lemma_stream_dictionary(tokens, own, entries, end, text);
    assert(ends.take(length as int) =~= stream_data(rows, rows.len()));
    lemma_rows_behind(entries, text, rows, ends);
}

/// The end of an update leads to its cross-reference data.
proof fn lemma_end(
    before: Seq<u8>,
    opened: Seq<u8>,
    data: Seq<u8>,
    close: Seq<u8>,
    xref_at: nat,
)
    requires
        xref_at <= u64::MAX,
    ensures
        ({
            let section = opened + data + (close + utf8("startxref\n"@)) + decimal(xref_at) + utf8(
                "\n%%EOF\n"@,
            );
            &&& startxref_of(before + section) == Some(xref_at)
            &&& data.len() <= section.len()
        }),
{
    let number = decimal(xref_at);
    let last = utf8("\n%%EOF\n"@);
    let mark = utf8("startxref\n"@);
    let front = before + opened + data + close;
    assert(before + (opened + data + (close + mark) + number + last) =~= front + mark + number
        + last);
    law_startxref_reads_back(front, xref_at);
}

/// A cross-reference stream up to its body.
#[verifier::opaque]
spec fn stream_opening(
    file: Opened,
    own: nat,
    size: nat,
    rows: Seq<Row>,
    second: Seq<u8>,
) -> Seq<u8> {
    decimal(own) + utf8(" 0 obj\n<<\n/Type /XRef\n/Size "@) + decimal(size) + utf8(
        "\n/W [1 4 2]\n/Index ["@,
    ) + spaced(index_array(rows, 0), index_array(rows, 0).len()) + utf8("]\n"@) + reference_line(
        "/Root "@,
        file.trailer.root,
    ) + utf8("/Prev "@) + decimal(file.prev_startxref) + utf8("\n"@) + id_line(
        file.trailer.id,
        second,
    ) + reference_line("/Info "@, file.trailer.info) + utf8("/Length "@) + decimal(
        stream_data(rows, rows.len()).len(),
    ) + utf8("\n>>\nstream\n"@)
}

proof fn lemma_stream_opening(
    file: Opened,
    own: nat,
    size: nat,
    rows: Seq<Row>,
    second: Seq<u8>,
    xref_at: nat,
)
    ensures
        stream_section(file, own, size, rows, second, xref_at) == stream_opening(
            file,
            own,
            size,
            rows,
            second,
        ) + stream_data(rows, rows.len()) + utf8("\nendstream\nendobj\nstartxref\n"@) + decimal(
            xref_at,
        ) + utf8("\n%%EOF\n"@),
{
    reveal(stream_section);
    reveal(stream_opening);
}

/// The end of an update with a cross-reference stream leads to the stream.
pub proof fn lemma_stream_end(
    file: Opened,
    own: nat,
    size: nat,
    rows: Seq<Row>,
    second: Seq<u8>,
    xref_at: nat,
    before: Seq<u8>,
)
    requires
        xref_at <= u64::MAX,
    ensures
        startxref_of(before + stream_section(file, own, size, rows, second, xref_at)) == Some(
            xref_at,
        ),
        stream_data(rows, rows.len()).len() <= stream_section(
            file,
            own,
            size,
            rows,
            second,
            xref_at,
        ).len(),
{
    let close = utf8("\nendstream\nendobj\n"@);
    assert(utf8("\nendstream\nendobj\nstartxref\n"@) == close + utf8("startxref\n"@)) by {
        reveal_strlit("\nendstream\nendobj\nstartxref\n");
        reveal_strlit("\nendstream\nendobj\n");
        reveal_strlit("startxref\n");
        is_ascii_chars_encode_utf8("\nendstream\nendobj\nstartxref\n"@);
        is_ascii_chars_encode_utf8("\nendstream\nendobj\n"@);
        is_ascii_chars_encode_utf8("startxref\n"@);
        assert(utf8("\nendstream\nendobj\nstartxref\n"@) =~= close + utf8("startxref\n"@));
    }
    lemma_stream_opening(file, own, size, rows, second, xref_at);
    let opening = stream_opening(file, own, size, rows, second);
    lemma_end(before, opening, stream_data(rows, rows.len()), close, xref_at);
}

} // verus!
