//! What the tokens of whole values stand for.

use crate::bytes::{decimal, signed_decimal, utf8};
use crate::number::{integer_of, is_digit, unsigned_of};
use crate::pdfread::value::{
    entries_at, items_at, real_of, value_at, ValueError, MAX_VALUE_DEPTH,
};
use crate::pdfwrite::laws::law_decimal_reads_back;
use crate::pdfwrite::object::{
    array_body, dictionary_body, is_ascii_bytes, name_body, name_bytes, pdf_bytes, real_bytes,
    reference_bytes, utf16, PdfValue, Real,
};
use crate::pdfwrite::pieces::{
    is_parted, is_word, lemma_bracket, lemma_run, lemma_space, lemma_word, lemma_word_and_space,
    tokens_of,
};
use crate::pdfwrite::readback::scalars::{
    ascii_text, lemma_integer, lemma_literal, lemma_marked_text, lemma_number_is_a_word,
    lemma_real, lemma_whole_real, lemma_written_name, unit_bytes,
};
use crate::pdfwrite::reopen::lines::{
    lemma_decimal_token, lemma_hex_string_token, lemma_hex_string_value, lemma_parts,
};
use crate::pdfwrite::tokenizer::{is_delimiter, object_tokens};
use crate::pdfwrite::writer::object_bytes;
use vstd::prelude::*;
use vstd::utf8::{decode_utf8, is_ascii_chars_encode_utf8, valid_utf8};

verus! {

/// A value that the writer spells out itself, with numbers in range, and with
/// room for `room` levels inside it.
pub open spec fn is_writable(value: PdfValue, room: int) -> bool
    decreases value, 0nat,
{
    &&& room >= 0
    &&& match value {
        PdfValue::Integer(n) => i64::MIN <= n <= i64::MAX,
        PdfValue::IndirectRef { obj_num, gen_num } => obj_num <= u32::MAX && gen_num <= u16::MAX,
        PdfValue::Array(items) => are_writable(items, items.len(), room - 1),
        PdfValue::Dictionary(entries) => have_writable_values(entries, entries.len(), room - 1),
        PdfValue::Raw(_) => false,
        _ => true,
    }
}

/// The first `n` items are writable.
pub open spec fn are_writable(items: Seq<PdfValue>, n: nat, room: int) -> bool
    decreases items, n,
{
    n == 0 || n > items.len() || (are_writable(items, (n - 1) as nat, room) && is_writable(
        items[n - 1],
        room,
    ))
}

/// The first `n` entries have writable values.
pub open spec fn have_writable_values(
    entries: Seq<(Seq<char>, PdfValue)>,
    n: nat,
    room: int,
) -> bool
    decreases entries, n,
{
    n == 0 || n > entries.len() || (have_writable_values(entries, (n - 1) as nat, room)
        && is_writable(entries[n - 1].1, room))
}

/// A real number without what is behind its point.
pub open spec fn whole_part(number: Real) -> int {
    let whole = number.millionths as int / 1_000_000;
    if number.negative {
        -whole
    } else {
        whole
    }
}

/// Is a number read as an integer? It is a whole number, and one in range.
pub open spec fn reads_whole(number: Real) -> bool {
    number.millionths as nat % 1_000_000 == 0 && i64::MIN <= whole_part(number) <= i64::MAX
}

/// What a reader makes of a value that was written. The bytes of a string stay
/// and so do numbers, references and the names that need no escape; text beyond
/// ASCII comes back in UTF-16, and a whole number as an integer, if it is in
/// range.
pub open spec fn read_as(value: PdfValue) -> PdfValue
    decreases value, 0nat,
{
    match value {
        PdfValue::Real(number) => if reads_whole(number) {
            PdfValue::Integer(whole_part(number))
        } else {
            value
        },
        PdfValue::String(bytes) => if is_ascii_bytes(bytes) {
            PdfValue::RawString(bytes)
        } else if valid_utf8(bytes) {
            PdfValue::HexString(seq![0xFEu8, 0xFFu8] + unit_bytes(utf16(decode_utf8(bytes))))
        } else {
            PdfValue::HexString(bytes)
        },
        PdfValue::RawString(bytes) => PdfValue::HexString(bytes),
        PdfValue::Name(name) => PdfValue::Name(ascii_text(name_body(utf8(name)))),
        PdfValue::Array(items) => PdfValue::Array(items_read(items, items.len())),
        PdfValue::Dictionary(entries) => PdfValue::Dictionary(
            entries_read(entries, entries.len()),
        ),
        _ => value,
    }
}

/// What a reader makes of the first `n` items.
pub open spec fn items_read(items: Seq<PdfValue>, n: nat) -> Seq<PdfValue>
    decreases items, n,
{
    if n == 0 || n > items.len() {
        Seq::empty()
    } else {
        items_read(items, (n - 1) as nat).push(read_as(items[n - 1]))
    }
}

/// What a reader makes of the first `n` entries.
pub open spec fn entries_read(entries: Seq<(Seq<char>, PdfValue)>, n: nat) -> Seq<
    (Seq<char>, PdfValue),
>
    decreases entries, n,
{
    if n == 0 || n > entries.len() {
        Seq::empty()
    } else {
        entries_read(entries, (n - 1) as nat).push(
            (ascii_text(name_body(utf8(entries[n - 1].0))), read_as(entries[n - 1].1)),
        )
    }
}

/// The tokens of a value that was written.
pub open spec fn value_tokens(value: PdfValue) -> Seq<Seq<u8>>
    decreases value, 0nat,
{
    match value {
        PdfValue::IndirectRef { obj_num, gen_num } => seq![
            decimal(obj_num),
            decimal(gen_num),
            utf8("R"@),
        ],
        PdfValue::Array(items) => seq![seq![0x5Bu8]] + (items_tokens(items, items.len()) + seq![
            seq![0x5Du8],
        ]),
        PdfValue::Dictionary(entries) => seq![seq![0x3Cu8, 0x3Cu8]] + (entries_tokens(
            entries,
            entries.len(),
        ) + seq![seq![0x3Eu8, 0x3Eu8]]),
        _ => seq![pdf_bytes(value)],
    }
}

/// The tokens of the first `n` items.
pub open spec fn items_tokens(items: Seq<PdfValue>, n: nat) -> Seq<Seq<u8>>
    decreases items, n,
{
    if n == 0 || n > items.len() {
        Seq::empty()
    } else {
        items_tokens(items, (n - 1) as nat) + value_tokens(items[n - 1])
    }
}

/// The tokens of the first `n` entries.
pub open spec fn entries_tokens(entries: Seq<(Seq<char>, PdfValue)>, n: nat) -> Seq<Seq<u8>>
    decreases entries, n,
{
    if n == 0 || n > entries.len() {
        Seq::empty()
    } else {
        entries_tokens(entries, (n - 1) as nat) + (seq![name_bytes(entries[n - 1].0)]
            + value_tokens(entries[n - 1].1))
    }
}

/// What follows does not make a number before it the start of a reference.
spec fn is_calm(tokens: Seq<Seq<u8>>) -> bool {
    &&& tokens.len() > 0 ==> tokens[0] != utf8("R"@)
    &&& tokens.len() > 1 && unsigned_of(tokens[0], 0xFFFF) is Some ==> tokens[1] != utf8("R"@)
}

/// The words that stand for a value.
proof fn lemma_keywords()
    ensures
        is_word(utf8("null"@)),
        is_word(utf8("true"@)),
        is_word(utf8("false"@)),
        is_word(utf8("R"@)),
        utf8("null"@)[0] == 110,
        utf8("true"@)[0] == 116,
        utf8("false"@)[0] == 102,
        utf8("R"@) == seq![82u8],
        utf8("["@) == seq![0x5Bu8],
        utf8("]"@) == seq![0x5Du8],
        utf8("<<"@) == seq![0x3Cu8, 0x3Cu8],
        utf8(">>"@) == seq![0x3Eu8, 0x3Eu8],
        utf8(" "@) == seq![32u8],
{
    reveal_strlit("null");
    reveal_strlit("true");
    reveal_strlit("false");
    reveal_strlit("R");
    reveal_strlit("[");
    reveal_strlit("]");
    reveal_strlit("<<");
    reveal_strlit(">>");
    reveal_strlit(" ");
    reveal_strlit("endobj");
    reveal_strlit("stream");
    is_ascii_chars_encode_utf8("null"@);
    is_ascii_chars_encode_utf8("true"@);
    is_ascii_chars_encode_utf8("false"@);
    is_ascii_chars_encode_utf8("R"@);
    is_ascii_chars_encode_utf8("["@);
    is_ascii_chars_encode_utf8("]"@);
    is_ascii_chars_encode_utf8("<<"@);
    is_ascii_chars_encode_utf8(">>"@);
    is_ascii_chars_encode_utf8(" "@);
    is_ascii_chars_encode_utf8("endobj"@);
    is_ascii_chars_encode_utf8("stream"@);
    assert(utf8("R"@) =~= seq![82u8]);
    assert(utf8("["@) =~= seq![0x5Bu8]);
    assert(utf8("]"@) =~= seq![0x5Du8]);
    assert(utf8("<<"@) =~= seq![0x3Cu8, 0x3Cu8]);
    assert(utf8(">>"@) =~= seq![0x3Eu8, 0x3Eu8]);
    assert(utf8(" "@) =~= seq![32u8]);
}

/// A value that is one token long.
spec fn is_scalar(value: PdfValue) -> bool {
    !(value is Array || value is Dictionary || value is IndirectRef || value is Raw)
}

/// A scalar is one token.
proof fn lemma_scalar_token(value: PdfValue, rest: Seq<u8>)
    requires
        is_scalar(value),
        is_writable(value, 0),
        is_parted(rest),
    ensures
        tokens_of(pdf_bytes(value) + rest) == seq![pdf_bytes(value)] + tokens_of(rest),
{
    lemma_keywords();
    match value {
        PdfValue::Null => {
            lemma_word(utf8("null"@), rest);
        },
        PdfValue::Boolean(b) => {
            lemma_word(pdf_bytes(value), rest);
        },
        PdfValue::Integer(n) => {
            lemma_integer(n);
            lemma_number_is_a_word(signed_decimal(n));
            lemma_word(signed_decimal(n), rest);
        },
        PdfValue::Real(number) => {
            lemma_real_is_a_word(number);
            lemma_word(real_bytes(number), rest);
        },
        PdfValue::String(bytes) => {
            if is_ascii_bytes(bytes) {
                lemma_literal(bytes, rest);
            } else if valid_utf8(bytes) {
                let units = utf16(decode_utf8(bytes));
                lemma_marked_text(units);
                lemma_hex_string_token(seq![0xFEu8, 0xFFu8] + unit_bytes(units), rest);
            } else {
                lemma_hex_string_token(bytes, rest);
            }
        },
        PdfValue::RawString(bytes) => {
            lemma_hex_string_token(bytes, rest);
        },
        PdfValue::HexString(bytes) => {
            lemma_hex_string_token(bytes, rest);
        },
        PdfValue::Name(name) => {
            lemma_written_name(name, rest);
        },
        _ => {},
    }
}

proof fn lemma_real_is_a_word(number: Real)
    ensures
        real_bytes(number).len() > 0,
        forall|i: int|
            0 <= i < real_bytes(number).len() ==> is_digit(#[trigger] real_bytes(number)[i])
                || real_bytes(number)[i] == 45 || real_bytes(number)[i] == 46,
        is_word(real_bytes(number)),
        reads_whole(number) ==> integer_of(real_bytes(number)) == Some(whole_part(number)),
        !reads_whole(number) ==> integer_of(real_bytes(number)) is None && real_of(
            real_bytes(number),
        ) == Some(number),
{
    if number.millionths as nat % 1_000_000 == 0 {
        reveal_strlit("-");
        is_ascii_chars_encode_utf8("-"@);
        assert(utf8("-"@) =~= seq![45u8]);
        let n = number.millionths as nat / 1_000_000;
        let digits = decimal(n);
        let text = real_bytes(number);
        law_decimal_reads_back(n);
        if number.negative {
            assert(text =~= seq![45u8] + digits);
            assert(text.drop_first() =~= digits);
        } else {
            assert(text =~= digits);
        }
        assert forall|i: int| 0 <= i < text.len() implies is_digit(#[trigger] text[i]) || text[i]
            == 45 by {
            if number.negative {
                if i > 0 {
                    assert(text[i] == digits[i - 1]);
                    assert(is_digit(digits[i - 1]));
                }
            } else {
                assert(is_digit(digits[i]));
            }
        }
        assert(is_digit(digits[0]));
        lemma_whole_real(number);
    } else {
        lemma_real(number);
    }
    lemma_number_is_a_word(real_bytes(number));
}

proof fn lemma_reference_token(obj_num: nat, gen_num: nat, rest: Seq<u8>)
    requires
        is_parted(rest),
    ensures
        tokens_of(reference_bytes(obj_num, gen_num) + rest) == seq![
            decimal(obj_num),
            decimal(gen_num),
            utf8("R"@),
        ] + tokens_of(rest),
{
    lemma_keywords();
    reveal_strlit(" R");
    is_ascii_chars_encode_utf8(" R"@);
    assert(utf8(" R"@) =~= seq![32u8, 82u8]);
    lemma_decimal_token(obj_num, obj_num);
    lemma_decimal_token(gen_num, gen_num);
    let mark = utf8("R"@) + rest;
    let second = decimal(gen_num) + (seq![32u8] + mark);
    assert(reference_bytes(obj_num, gen_num) + rest =~= decimal(obj_num) + (seq![32u8] + second));
    lemma_word_and_space(decimal(obj_num), 32, second);
    lemma_word_and_space(decimal(gen_num), 32, mark);
    lemma_word(utf8("R"@), rest);
    assert(seq![decimal(obj_num), decimal(gen_num), utf8("R"@)] + tokens_of(rest) =~= seq![
        decimal(obj_num),
    ] + (seq![decimal(gen_num)] + (seq![utf8("R"@)] + tokens_of(rest))));
}

/// A value is read as the tokens it was written in.
proof fn lemma_value_tokens(value: PdfValue, room: int, rest: Seq<u8>)
    requires
        is_writable(value, room),
        is_parted(rest),
    ensures
        tokens_of(pdf_bytes(value) + rest) == value_tokens(value) + tokens_of(rest),
    decreases value, 0nat,
{
    lemma_keywords();
    match value {
        PdfValue::IndirectRef { obj_num, gen_num } => {
            lemma_reference_token(obj_num, gen_num, rest);
        },
        PdfValue::Array(items) => {
            let open = seq![0x5Bu8];
            let close = seq![0x5Du8];
            let body = array_body(items, items.len());
            let inner = items_tokens(items, items.len());
            assert(pdf_bytes(value) + rest =~= open + (body + (close + rest)));
            lemma_bracket(open, body + (close + rest));
            lemma_items_tokens(items, items.len(), room - 1, close + rest);
            lemma_bracket(close, rest);
            assert(value_tokens(value) + tokens_of(rest) =~= seq![open] + (inner + (seq![close]
                + tokens_of(rest))));
        },
        PdfValue::Dictionary(entries) => {
            let open = seq![0x3Cu8, 0x3Cu8];
            let close = seq![0x3Eu8, 0x3Eu8];
            let body = dictionary_body(entries, entries.len());
            let inner = entries_tokens(entries, entries.len());
            assert(pdf_bytes(value) + rest =~= open + (body + (close + rest)));
            lemma_bracket(open, body + (close + rest));
            lemma_entries_tokens(entries, entries.len(), room - 1, close + rest);
            lemma_bracket(close, rest);
            assert(value_tokens(value) + tokens_of(rest) =~= seq![open] + (inner + (seq![close]
                + tokens_of(rest))));
        },
        _ => {
            lemma_scalar_token(value, rest);
        },
    }
}

proof fn lemma_items_tokens(items: Seq<PdfValue>, n: nat, room: int, rest: Seq<u8>)
    requires
        n <= items.len(),
        are_writable(items, n, room),
        is_parted(rest),
    ensures
        tokens_of(array_body(items, n) + rest) == items_tokens(items, n) + tokens_of(rest),
    decreases items, n,
{
    if n == 0 {
        assert(array_body(items, n) + rest =~= rest);
        assert(items_tokens(items, n) + tokens_of(rest) =~= tokens_of(rest));
    } else {
        lemma_keywords();
        let item = items[n - 1];
        let before = array_body(items, (n - 1) as nat);
        let written = pdf_bytes(item) + rest;
        lemma_value_tokens(item, room, rest);
        if n > 1 {
            assert(array_body(items, n) + rest =~= before + (seq![32u8] + written));
            lemma_items_tokens(items, (n - 1) as nat, room, seq![32u8] + written);
            lemma_space(32, written);
        } else {
            assert(array_body(items, n) + rest =~= written);
            assert(items_tokens(items, 0) =~= Seq::empty());
        }
        assert(items_tokens(items, n) + tokens_of(rest) =~= items_tokens(items, (n - 1) as nat) + (
        value_tokens(item) + tokens_of(rest)));
    }
}

proof fn lemma_entries_tokens(
    entries: Seq<(Seq<char>, PdfValue)>,
    n: nat,
    room: int,
    rest: Seq<u8>,
)
    requires
        n <= entries.len(),
        have_writable_values(entries, n, room),
        is_parted(rest),
    ensures
        tokens_of(dictionary_body(entries, n) + rest) == entries_tokens(entries, n) + tokens_of(
            rest,
        ),
    decreases entries, n,
{
    if n == 0 {
        assert(dictionary_body(entries, n) + rest =~= rest);
        assert(entries_tokens(entries, n) + tokens_of(rest) =~= tokens_of(rest));
    } else {
        lemma_keywords();
        let key = name_bytes(entries[n - 1].0);
        let value = entries[n - 1].1;
        let before = dictionary_body(entries, (n - 1) as nat);
        let written = pdf_bytes(value) + rest;
        let entry = key + (seq![32u8] + written);
        lemma_value_tokens(value, room, rest);
        lemma_space(32, written);
        lemma_written_name(entries[n - 1].0, seq![32u8] + written);
        assert(dictionary_body(entries, n) + rest =~= before + entry);
        assert(entry[0] == key[0]);
        lemma_entries_tokens(entries, (n - 1) as nat, room, entry);
        assert(entries_tokens(entries, n) + tokens_of(rest) =~= entries_tokens(
            entries,
            (n - 1) as nat,
        ) + (seq![key] + (value_tokens(value) + tokens_of(rest))));
    }
}

/// What the first token of a value is not.
proof fn lemma_first_of_value(value: PdfValue, room: int, more: Seq<Seq<u8>>)
    requires
        is_writable(value, room),
        is_calm(more),
    ensures
        value_tokens(value).len() > 0,
        value_tokens(value)[0] != utf8("]"@),
        value_tokens(value)[0] != utf8(">>"@),
        is_calm(value_tokens(value) + more),
{
    lemma_keywords();
    let tokens = value_tokens(value) + more;
    match value {
        PdfValue::IndirectRef { obj_num, gen_num } => {
            lemma_decimal_text(obj_num);
            lemma_decimal_text(gen_num);
            assert(tokens[0] == decimal(obj_num));
            assert(tokens[1] == decimal(gen_num));
        },
        PdfValue::Array(items) => {
            let open = seq![0x5Bu8];
            assert(tokens[0] == open);
            assert(!is_digit(open[0]));
        },
        PdfValue::Dictionary(entries) => {
            let open = seq![0x3Cu8, 0x3Cu8];
            assert(tokens[0] == open);
            assert(!is_digit(open[0]));
        },
        _ => {
            lemma_scalar_text(value);
            assert(tokens[0] == pdf_bytes(value));
            if more.len() > 0 {
                assert(tokens[1] == more[0]);
            }
        },
    }
}

proof fn lemma_decimal_text(n: nat)
    ensures
        decimal(n) != utf8("R"@),
        decimal(n) != utf8("]"@),
        decimal(n) != utf8(">>"@),
{
    law_decimal_reads_back(n);
    assert forall|i: int| 0 <= i < decimal(n).len() implies is_digit(#[trigger] decimal(n)[i]) by {
    }
    lemma_number_is_a_word(decimal(n));
}

/// The text of a scalar is no bracket and no mark of a reference.
proof fn lemma_scalar_text(value: PdfValue)
    requires
        is_scalar(value),
        is_writable(value, 0),
    ensures
        pdf_bytes(value) != utf8("R"@),
        pdf_bytes(value) != utf8("["@),
        pdf_bytes(value) != utf8("]"@),
        pdf_bytes(value) != utf8("<<"@),
        pdf_bytes(value) != utf8(">>"@),
{
    lemma_keywords();
    match value {
        PdfValue::Integer(n) => {
            lemma_integer(n);
            lemma_number_is_a_word(signed_decimal(n));
        },
        PdfValue::Real(number) => {
            lemma_real_is_a_word(number);
            lemma_number_is_a_word(real_bytes(number));
        },
        PdfValue::String(bytes) => {
            if is_ascii_bytes(bytes) {
                lemma_literal(bytes, Seq::empty());
            } else if valid_utf8(bytes) {
                let units = utf16(decode_utf8(bytes));
                lemma_marked_text(units);
                lemma_hex_string_value(seq![0xFEu8, 0xFFu8] + unit_bytes(units));
            } else {
                lemma_hex_string_value(bytes);
            }
        },
        PdfValue::RawString(bytes) => {
            lemma_hex_string_value(bytes);
        },
        PdfValue::HexString(bytes) => {
            lemma_hex_string_value(bytes);
        },
        PdfValue::Name(name) => {
            lemma_written_name(name, Seq::empty());
        },
        _ => {},
    }
}

/// A scalar is read as itself.
proof fn lemma_scalar_value(tokens: Seq<Seq<u8>>, at: int, depth: nat, value: PdfValue)
    requires
        is_scalar(value),
        is_writable(value, 0),
        depth <= MAX_VALUE_DEPTH,
        0 <= at < tokens.len(),
        tokens[at] == pdf_bytes(value),
        is_calm(tokens.skip(at + 1)),
    ensures
        value_at(tokens, at, depth) == Ok::<(PdfValue, int), ValueError>((read_as(value), at + 1)),
{
    lemma_keywords();
    lemma_scalar_text(value);
    let after = tokens.skip(at + 1);
    if at + 1 < tokens.len() {
        assert(after[0] == tokens[at + 1]);
    }
    if at + 2 < tokens.len() {
        assert(after[1] == tokens[at + 2]);
    }
    match value {
        PdfValue::Integer(n) => {
            lemma_integer(n);
            lemma_number_is_a_word(signed_decimal(n));
        },
        PdfValue::Real(number) => {
            lemma_real_is_a_word(number);
            lemma_number_is_a_word(real_bytes(number));
        },
        PdfValue::String(bytes) => {
            if is_ascii_bytes(bytes) {
                lemma_literal(bytes, Seq::empty());
            } else if valid_utf8(bytes) {
                let units = utf16(decode_utf8(bytes));
                lemma_marked_text(units);
                lemma_hex_string_value(seq![0xFEu8, 0xFFu8] + unit_bytes(units));
            } else {
                lemma_hex_string_value(bytes);
            }
        },
        PdfValue::RawString(bytes) => {
            lemma_hex_string_value(bytes);
        },
        PdfValue::HexString(bytes) => {
            lemma_hex_string_value(bytes);
        },
        PdfValue::Name(name) => {
            lemma_written_name(name, Seq::empty());
        },
        PdfValue::Boolean(b) => {
            assert(utf8("true"@)[0] != utf8("false"@)[0]);
        },
        PdfValue::Null => {
            assert(utf8("null"@)[0] != utf8("true"@)[0]);
            assert(utf8("null"@)[0] != utf8("false"@)[0]);
        },
        _ => {},
    }
}

/// A value is read from its tokens.
proof fn lemma_value_read(
    tokens: Seq<Seq<u8>>,
    at: int,
    depth: nat,
    value: PdfValue,
    room: int,
    more: Seq<Seq<u8>>,
)
    requires
        is_writable(value, room),
        depth + room <= MAX_VALUE_DEPTH,
        0 <= at <= tokens.len(),
        tokens.skip(at) == value_tokens(value) + more,
        is_calm(more),
    ensures
        value_at(tokens, at, depth) == Ok::<(PdfValue, int), ValueError>(
            (read_as(value), at + value_tokens(value).len()),
        ),
    decreases value, 0nat,
{
    lemma_keywords();
    let written = value_tokens(value);
    lemma_parts(tokens, at, written, more);
    lemma_first_of_value(value, room, more);
    match value {
        PdfValue::IndirectRef { obj_num, gen_num } => {
            assert(tokens[at + 0] == written[0]);
            assert(tokens[at + 1] == written[1]);
            assert(tokens[at + 2] == written[2]);
            lemma_decimal_token(obj_num, u32::MAX as nat);
            lemma_decimal_token(gen_num, u16::MAX as nat);
            law_decimal_reads_back(obj_num);
            assert forall|i: int| 0 <= i < decimal(obj_num).len() implies is_digit(
                #[trigger] decimal(obj_num)[i],
            ) by {}
            lemma_number_is_a_word(decimal(obj_num));
        },
        PdfValue::Array(items) => {
            let open = seq![seq![0x5Bu8]];
            let close = seq![seq![0x5Du8]];
            let inner = items_tokens(items, items.len());
            assert(written + more =~= open + (inner + (close + more)));
            lemma_parts(tokens, at, open, inner + (close + more));
            assert(tokens[at + 0] == open[0]);
            assert((close + more)[0] == seq![0x5Du8]);
            assert(!is_digit(seq![0x5Du8][0]));
            lemma_items_read(tokens, at + 1, depth, Seq::empty(), items, items.len(), room - 1, close
                + more);
            let end = (at + 1 + inner.len()) as int;
            lemma_parts(tokens, at + 1, inner, close + more);
            lemma_parts(tokens, end, close, more);
            assert(tokens[end + 0] == close[0]);
            assert(Seq::<PdfValue>::empty() + items_read(items, items.len()) =~= items_read(
                items,
                items.len(),
            ));
        },
        PdfValue::Dictionary(entries) => {
            let open = seq![seq![0x3Cu8, 0x3Cu8]];
            let close = seq![seq![0x3Eu8, 0x3Eu8]];
            let inner = entries_tokens(entries, entries.len());
            assert(written + more =~= open + (inner + (close + more)));
            lemma_parts(tokens, at, open, inner + (close + more));
            assert(tokens[at + 0] == open[0]);
            assert((close + more)[0] == seq![0x3Eu8, 0x3Eu8]);
            assert(!is_digit(seq![0x3Eu8, 0x3Eu8][0]));
            lemma_entries_read(
                tokens,
                at + 1,
                depth,
                Seq::empty(),
                entries,
                entries.len(),
                room - 1,
                close + more,
            );
            let end = (at + 1 + inner.len()) as int;
            lemma_parts(tokens, at + 1, inner, close + more);
            lemma_parts(tokens, end, close, more);
            assert(tokens[end + 0] == close[0]);
            assert(Seq::<(Seq<char>, PdfValue)>::empty() + entries_read(entries, entries.len())
                =~= entries_read(entries, entries.len()));
        },
        _ => {
            assert(tokens[at + 0] == written[0]);
            lemma_scalar_value(tokens, at, depth, value);
        },
    }
}

proof fn lemma_items_read(
    tokens: Seq<Seq<u8>>,
    at: int,
    depth: nat,
    before: Seq<PdfValue>,
    items: Seq<PdfValue>,
    n: nat,
    room: int,
    more: Seq<Seq<u8>>,
)
    requires
        n <= items.len(),
        are_writable(items, n, room),
        depth + 1 + room <= MAX_VALUE_DEPTH,
        0 <= at <= tokens.len(),
        tokens.skip(at) == items_tokens(items, n) + more,
        is_calm(more),
    ensures
        items_at(tokens, at, depth, before) == items_at(
            tokens,
            at + items_tokens(items, n).len(),
            depth,
            before + items_read(items, n),
        ),
    decreases items, n,
{
    if n == 0 {
        assert(before + items_read(items, n) =~= before);
    } else {
        let item = items[n - 1];
        let fewer = items_tokens(items, (n - 1) as nat);
        let written = value_tokens(item);
        assert(items_tokens(items, n) + more =~= fewer + (written + more));
        lemma_first_of_value(item, room, more);
        lemma_items_read(tokens, at, depth, before, items, (n - 1) as nat, room, written + more);
        lemma_parts(tokens, at, fewer, written + more);
        let here = (at + fewer.len()) as int;
        lemma_parts(tokens, here, written, more);
        assert(tokens[here + 0] == written[0]);
        lemma_value_read(tokens, here, depth + 1, item, room, more);
        let so_far = before + items_read(items, (n - 1) as nat);
        assert(so_far.push(read_as(item)) =~= before + items_read(items, n));
    }
}

proof fn lemma_entries_read(
    tokens: Seq<Seq<u8>>,
    at: int,
    depth: nat,
    before: Seq<(Seq<char>, PdfValue)>,
    entries: Seq<(Seq<char>, PdfValue)>,
    n: nat,
    room: int,
    more: Seq<Seq<u8>>,
)
    requires
        n <= entries.len(),
        have_writable_values(entries, n, room),
        depth + 1 + room <= MAX_VALUE_DEPTH,
        0 <= at <= tokens.len(),
        tokens.skip(at) == entries_tokens(entries, n) + more,
        is_calm(more),
    ensures
        entries_at(tokens, at, depth, before) == entries_at(
            tokens,
            at + entries_tokens(entries, n).len(),
            depth,
            before + entries_read(entries, n),
        ),
    decreases entries, n,
{
    if n == 0 {
        assert(before + entries_read(entries, n) =~= before);
    } else {
        lemma_keywords();
        let name = entries[n - 1].0;
        let key = name_bytes(name);
        let value = entries[n - 1].1;
        let fewer = entries_tokens(entries, (n - 1) as nat);
        let written = value_tokens(value);
        let entry = seq![key] + (written + more);
        assert(entries_tokens(entries, n) + more =~= fewer + entry);
        lemma_written_name(name, Seq::empty());
        lemma_first_of_value(value, room, more);
        assert(entry[0] == key);
        assert(!is_digit(key[0]));
        lemma_entries_read(tokens, at, depth, before, entries, (n - 1) as nat, room, entry);
        lemma_parts(tokens, at, fewer, entry);
        let here = (at + fewer.len()) as int;
        lemma_parts(tokens, here, seq![key], written + more);
        assert(tokens[here + 0] == seq![key][0]);
        lemma_parts(tokens, here + 1, written, more);
        lemma_value_read(tokens, here + 1, depth + 1, value, room, more);
        let so_far = before + entries_read(entries, (n - 1) as nat);
        assert(so_far.push((ascii_text(name_body(utf8(name))), read_as(value))) =~= before
            + entries_read(entries, n));
    }
}

/// An object that was written to a file is read back: its header gives its
/// number and its generation, and the value behind it is the one that was
/// written, as far as a reader can tell.
pub proof fn law_an_object_is_read_back(
    obj_num: u32,
    gen_num: u16,
    value: PdfValue,
    rest: Seq<u8>,
)
    requires
        is_writable(value, MAX_VALUE_DEPTH as int),
    ensures
        ({
            let tokens = object_tokens(object_bytes((obj_num, gen_num, value)) + rest, 0);
            &&& tokens.len() > 3
            &&& unsigned_of(tokens[0], u32::MAX as nat) == Some(obj_num as nat)
            &&& unsigned_of(tokens[1], u16::MAX as nat) == Some(gen_num as nat)
            &&& tokens[2] == utf8("obj"@)
            &&& value_at(tokens, 3, 0) == Ok::<(PdfValue, int), ValueError>(
                (read_as(value), tokens.len() as int),
            )
        }),
{
    let one = decimal(obj_num as nat);
    let two = decimal(gen_num as nat);
    lemma_decimal_token(obj_num as nat, u32::MAX as nat);
    lemma_decimal_token(gen_num as nat, u16::MAX as nat);
    let none = Seq::<Seq<u8>>::empty();
    let head = seq![one, two, utf8("obj"@)];
    let tokens = tokens_of(object_bytes((obj_num, gen_num, value)) + rest);
    lemma_object_tokens(obj_num, gen_num, value, rest);
    assert(value_tokens(value) + none =~= value_tokens(value));
    assert(tokens.skip(0) =~= tokens);
    lemma_parts(tokens, 0, head, value_tokens(value) + none);
    assert(tokens[0] == head[0]);
    assert(tokens[1] == head[1]);
    assert(tokens[2] == head[2]);
    lemma_first_of_value(value, MAX_VALUE_DEPTH as int, none);
    lemma_value_read(tokens, 3, 0, value, MAX_VALUE_DEPTH as int, none);
}

/// An object with what is behind it, in pieces.
proof fn lemma_object_shape(obj_num: u32, gen_num: u16, value: PdfValue, rest: Seq<u8>)
    ensures
        object_bytes((obj_num, gen_num, value)) + rest == decimal(obj_num as nat) + (seq![32u8] + (
        decimal(gen_num as nat) + (seq![32u8] + (utf8("obj"@) + (seq![10u8] + (pdf_bytes(value) + (
        seq![10u8] + (utf8("endobj"@) + (seq![10u8] + rest))))))))),
{
    reveal_strlit(" ");
    reveal_strlit(" obj\n");
    reveal_strlit("obj");
    reveal_strlit("\nendobj\n");
    reveal_strlit("endobj");
    is_ascii_chars_encode_utf8(" "@);
    is_ascii_chars_encode_utf8(" obj\n"@);
    is_ascii_chars_encode_utf8("obj"@);
    is_ascii_chars_encode_utf8("\nendobj\n"@);
    is_ascii_chars_encode_utf8("endobj"@);
    assert(utf8(" obj\n"@) =~= seq![32u8] + utf8("obj"@) + seq![10u8]);
    assert(utf8("\nendobj\n"@) =~= seq![10u8] + utf8("endobj"@) + seq![10u8]);
    assert(object_bytes((obj_num, gen_num, value)) + rest =~= decimal(obj_num as nat) + (
    seq![32u8] + (decimal(gen_num as nat) + (seq![32u8] + (utf8("obj"@) + (seq![10u8] + (pdf_bytes(
        value,
    ) + (seq![10u8] + (utf8("endobj"@) + (seq![10u8] + rest))))))))));
}

/// The tokens of an object are those of its header and of its value.
proof fn lemma_object_tokens(obj_num: u32, gen_num: u16, value: PdfValue, rest: Seq<u8>)
    requires
        is_writable(value, MAX_VALUE_DEPTH as int),
    ensures
        tokens_of(object_bytes((obj_num, gen_num, value)) + rest) == seq![
            decimal(obj_num as nat),
            decimal(gen_num as nat),
            utf8("obj"@),
        ] + value_tokens(value),
{
    let word = utf8("obj"@);
    assert(is_word(word)) by {
        reveal_strlit("obj");
        reveal_strlit("endobj");
        reveal_strlit("stream");
        is_ascii_chars_encode_utf8("obj"@);
        is_ascii_chars_encode_utf8("endobj"@);
        is_ascii_chars_encode_utf8("stream"@);
    }
    let one = decimal(obj_num as nat);
    let two = decimal(gen_num as nat);
    lemma_decimal_token(obj_num as nat, u32::MAX as nat);
    lemma_decimal_token(gen_num as nat, u16::MAX as nat);
    let stop = utf8("endobj"@) + (seq![10u8] + rest);
    let end = seq![10u8] + stop;
    let written = pdf_bytes(value) + end;
    let third = word + (seq![10u8] + written);
    let second = two + (seq![32u8] + third);
    lemma_object_shape(obj_num, gen_num, value, rest);
    lemma_word_and_space(one, 32, second);
    lemma_word_and_space(two, 32, third);
    lemma_word_and_space(word, 10, written);
    lemma_value_tokens(value, MAX_VALUE_DEPTH as int, end);
    lemma_space(10, stop);
    lemma_object_stops(rest);
    assert(seq![one, two, word] + value_tokens(value) =~= seq![one] + (seq![two] + (seq![word] + (
    value_tokens(value) + Seq::<Seq<u8>>::empty()))));
}

/// Nothing is read behind the end of an object.
proof fn lemma_object_stops(rest: Seq<u8>)
    ensures
        tokens_of(utf8("endobj"@) + (seq![10u8] + rest)) == Seq::<Seq<u8>>::empty(),
{
    reveal_strlit("endobj");
    is_ascii_chars_encode_utf8("endobj"@);
    let word = utf8("endobj"@);
    let data = word + (seq![10u8] + rest);
    assert(data[6] == 10);
    assert forall|i: int| 0 <= i < 6 implies !is_delimiter(#[trigger] data[i]) by {
        assert(data[i] == word[i]);
    }
    assert(data[0] == 101);
    lemma_run(data, 0, 6);
    assert(data.subrange(0, 6) =~= word);
}

} // verus!
