//! The lines of a trailer: what tokens they are read as, and what entries those
//! tokens stand for.

use crate::bytes::{decimal, hex, hex_pair, padded_decimal, repeated, utf8};
use crate::number::{all_digits, digits_value, integer_of, is_digit, unsigned_of};
use crate::pdfread::dictionary::{entry_index, Entries};
use crate::pdfread::value::{
    entries_at, hex_digit_values, is_reference_at, items_at, paired, value_at, ValueError,
    MAX_VALUE_DEPTH,
};
use crate::pdfwrite::laws::{law_decimal_reads_back, law_hexadecimal_reads_back};
use crate::pdfwrite::object::{hex_string_bytes, PdfValue};
use crate::pdfwrite::pieces::{
    is_word, lemma_bracket, lemma_hex_string, lemma_name, lemma_space, lemma_word_and_space,
    tail_of, tokens_of,
};
use crate::pdfwrite::tokenizer::is_delimiter;
use crate::pdfwrite::writer::{id_line, reference_line, Opened, Trailer};
use vstd::prelude::*;
use vstd::utf8::{
    decode_utf8, encode_utf8_decode_utf8, encode_utf8_valid_utf8, is_ascii_chars,
    is_ascii_chars_encode_utf8, valid_utf8,
};

verus! {

/// Digits are read as one token.
proof fn lemma_digits_are_a_word(digits: Seq<u8>)
    requires
        digits.len() > 0,
        all_digits(digits),
    ensures
        is_word(digits),
{
    assert forall|i: int| 0 <= i < digits.len() implies !is_delimiter(
        #[trigger] digits[i],
    ) by {
        assert(is_digit(digits[i]));
    }
    reveal_strlit("endobj");
    reveal_strlit("stream");
    is_ascii_chars_encode_utf8("endobj"@);
    is_ascii_chars_encode_utf8("stream"@);
    assert(is_digit(digits[0]));
    assert(utf8("endobj"@)[0] == 101);
    assert(utf8("stream"@)[0] == 115);
}

/// A number is read as one token, which stands for it.
pub proof fn lemma_decimal_token(n: nat, max: nat)
    requires
        n <= max,
    ensures
        is_word(decimal(n)),
        unsigned_of(decimal(n), max) == Some(n),
        n <= 0x7FFF_FFFF_FFFF_FFFF ==> integer_of(decimal(n)) == Some(n as int),
{
    law_decimal_reads_back(n);
    lemma_digits_are_a_word(decimal(n));
    assert(is_digit(decimal(n)[0]));
}

proof fn lemma_leading_zeros(zeros: nat, digits: Seq<u8>)
    requires
        all_digits(digits),
    ensures
        all_digits(repeated(48u8, zeros) + digits),
        digits_value(repeated(48u8, zeros) + digits) == digits_value(digits),
    decreases zeros + digits.len(),
{
    let all = repeated(48u8, zeros) + digits;
    assert forall|i: int| 0 <= i < all.len() implies is_digit(#[trigger] all[i]) by {
        if i >= zeros {
            assert(all[i] == digits[i - zeros]);
        }
    }
    if digits.len() > 0 {
        lemma_leading_zeros(zeros, digits.drop_last());
        assert(all.drop_last() =~= repeated(48u8, zeros) + digits.drop_last());
        assert(all.last() == digits.last());
    } else if zeros > 0 {
        lemma_leading_zeros((zeros - 1) as nat, digits);
        assert(all.drop_last() =~= repeated(48u8, (zeros - 1) as nat) + digits);
    }
}

/// A number with zeros before it is read as one token, which stands for it.
pub proof fn lemma_padded_token(n: nat, width: nat, max: nat)
    requires
        n <= max,
    ensures
        is_word(padded_decimal(n, width)),
        unsigned_of(padded_decimal(n, width), max) == Some(n),
{
    lemma_decimal_token(n, max);
    law_decimal_reads_back(n);
    if decimal(n).len() < width {
        lemma_leading_zeros((width - decimal(n).len()) as nat, decimal(n));
        let all = padded_decimal(n, width);
        lemma_digits_are_a_word(all);
        assert(is_digit(all[0]));
    }
}

/// What stands from a place on, in two parts.
pub proof fn lemma_parts(tokens: Seq<Seq<u8>>, at: int, first: Seq<Seq<u8>>, more: Seq<Seq<u8>>)
    requires
        0 <= at <= tokens.len(),
        tokens.skip(at) == first + more,
    ensures
        at + first.len() <= tokens.len(),
        tokens.skip((at + first.len()) as int) == more,
        forall|i: int| 0 <= i < first.len() ==> tokens[at + i] == #[trigger] first[i],
        more.len() > 0 ==> tokens[at + first.len()] == more[0],
        tokens.len() == at + first.len() + more.len(),
{
    let whole = tokens.skip(at);
    assert(whole.len() == first.len() + more.len());
    assert forall|i: int| 0 <= i < first.len() implies tokens[at + i] == #[trigger] first[i] by {
        assert(whole[i] == tokens[at + i]);
    }
    let next = (at + first.len()) as int;
    assert(tokens.skip(next) =~= more) by {
        assert forall|i: int| 0 <= i < more.len() implies tokens.skip(next)[i] == more[i] by {
            assert(whole[first.len() + i] == tokens[next + i]);
        }
    }
    if more.len() > 0 {
        assert(tokens.skip(next)[0] == tokens[next]);
    }
}

/// A key that stands in a file as it is.
pub open spec fn is_plain_key(key: Seq<char>) -> bool {
    &&& is_ascii_chars(key)
    &&& key.len() > 0
    &&& forall|i: int| 0 <= i < key.len() ==> !is_delimiter(#[trigger] key[i] as u8)
    &&& key != "endobj"@
    &&& key != "stream"@
}

/// The token of a key.
pub open spec fn key_token(key: Seq<char>) -> Seq<u8> {
    seq![0x2Fu8] + utf8(key)
}

pub proof fn lemma_key(key: Seq<char>)
    requires
        is_plain_key(key),
    ensures
        is_word(utf8(key)),
        key_token(key).len() > 0,
        key_token(key)[0] == 0x2F,
        valid_utf8(key_token(key)),
        decode_utf8(key_token(key)).drop_first() == key,
        valid_utf8(utf8(key)),
        decode_utf8(utf8(key)) == key,
{
    is_ascii_chars_encode_utf8(key);
    assert forall|i: int| 0 <= i < utf8(key).len() implies !is_delimiter(
        #[trigger] utf8(key)[i],
    ) by {
        assert(utf8(key)[i] == key[i] as u8);
    }
    encode_utf8_decode_utf8(key);
    encode_utf8_valid_utf8(key);
    encode_utf8_decode_utf8("endobj"@);
    encode_utf8_decode_utf8("stream"@);
    let whole = seq!['/'] + key;
    assert(is_ascii_chars(whole)) by {
        assert forall|i: int| 0 <= i < whole.len() implies '\0' <= #[trigger] whole[i] && whole[i]
            <= '\u{7f}' by {
            if i > 0 {
                assert(whole[i] == key[i - 1]);
            }
        }
    }
    is_ascii_chars_encode_utf8(whole);
    assert(utf8(whole) =~= key_token(key)) by {
        assert forall|i: int| 0 <= i < whole.len() implies utf8(whole)[i] == key_token(key)[i] by {
            assert(utf8(whole)[i] == whole[i] as u8);
            if i > 0 {
                assert(whole[i] == key[i - 1]);
                assert(utf8(key)[i - 1] == key[i - 1] as u8);
            }
        }
    }
    encode_utf8_decode_utf8(whole);
    encode_utf8_valid_utf8(whole);
    assert(whole.drop_first() =~= key);
}

/// A key with a number behind it.
pub proof fn lemma_number_line(key: Seq<char>, n: nat, rest: Seq<u8>)
    requires
        is_plain_key(key),
    ensures
        tokens_of(key_token(key) + (seq![32u8] + (decimal(n) + (seq![10u8] + rest)))) == seq![
            key_token(key),
            decimal(n),
        ] + tokens_of(rest),
        tail_of(key_token(key) + (seq![32u8] + (decimal(n) + (seq![10u8] + rest)))) == tail_of(rest),
{
    lemma_key(key);
    lemma_decimal_token(n, n);
    let value = decimal(n) + (seq![10u8] + rest);
    lemma_name(utf8(key), seq![32u8] + value);
    lemma_space(32, value);
    lemma_word_and_space(decimal(n), 10, rest);
    assert(seq![key_token(key), decimal(n)] + tokens_of(rest) =~= seq![key_token(key)] + (seq![
        decimal(n),
    ] + tokens_of(rest)));
}

/// The tokens of a key with a reference behind it, when there is one.
pub open spec fn reference_tokens(key: Seq<char>, reference: Option<(nat, nat)>) -> Seq<Seq<u8>> {
    match reference {
        Some((obj_num, gen_num)) => seq![
            key_token(key),
            decimal(obj_num),
            decimal(gen_num),
            utf8("R"@),
        ],
        None => Seq::empty(),
    }
}

pub proof fn lemma_reference_line(
    line: Seq<char>,
    key: Seq<char>,
    reference: Option<(nat, nat)>,
    rest: Seq<u8>,
)
    requires
        is_plain_key(key),
        utf8(line) == key_token(key) + seq![32u8],
    ensures
        tokens_of(reference_line(line, reference) + rest) == reference_tokens(key, reference)
            + tokens_of(rest),
        tail_of(reference_line(line, reference) + rest) == tail_of(rest),
{
    match reference {
        Some((obj_num, gen_num)) => {
            reveal_strlit(" ");
            reveal_strlit(" R");
            reveal_strlit("R");
            reveal_strlit("\n");
            is_ascii_chars_encode_utf8(" "@);
            is_ascii_chars_encode_utf8(" R"@);
            is_ascii_chars_encode_utf8("R"@);
            is_ascii_chars_encode_utf8("\n"@);
            lemma_key(key);
            lemma_decimal_token(obj_num, obj_num);
            lemma_decimal_token(gen_num, gen_num);
            let mark = utf8("R"@);
            assert(mark =~= seq![82u8]);
            assert(is_word(mark)) by {
                reveal_strlit("endobj");
                reveal_strlit("stream");
                is_ascii_chars_encode_utf8("endobj"@);
                is_ascii_chars_encode_utf8("stream"@);
            }
            let third = mark + (seq![10u8] + rest);
            let second = decimal(gen_num) + (seq![32u8] + third);
            let first = decimal(obj_num) + (seq![32u8] + second);
            assert(reference_line(line, reference) + rest =~= key_token(key) + (seq![32u8]
                + first));
            lemma_name(utf8(key), seq![32u8] + first);
            lemma_space(32, first);
            lemma_word_and_space(decimal(obj_num), 32, second);
            lemma_word_and_space(decimal(gen_num), 32, third);
            lemma_word_and_space(mark, 10, rest);
            assert(reference_tokens(key, reference) + tokens_of(rest) =~= seq![key_token(key)] + (
            seq![decimal(obj_num)] + (seq![decimal(gen_num)] + (seq![mark] + tokens_of(rest)))));
        },
        None => {
            assert(reference_line(line, reference) + rest =~= rest);
            assert(reference_tokens(key, reference) + tokens_of(rest) =~= tokens_of(rest));
        },
    }
}

/// The tokens of an identifier, when there is one.
pub open spec fn id_tokens(id: Option<Seq<Seq<u8>>>, second: Seq<u8>) -> Seq<Seq<u8>> {
    match id {
        Some(id) => seq![
            key_token("ID"@),
            seq![0x5Bu8],
            hex_string_bytes(id[0]),
            hex_string_bytes(second),
            seq![0x5Du8],
        ],
        None => Seq::empty(),
    }
}

proof fn lemma_hex_digits(bytes: Seq<u8>)
    ensures
        forall|i: int|
            0 <= i < hex(bytes).len() ==> #[trigger] hex(bytes)[i] != 0x3E && hex(bytes)[i] != 0x3C,
    decreases bytes.len(),
{
    if bytes.len() > 0 {
        let before = hex(bytes.drop_last());
        lemma_hex_digits(bytes.drop_last());
        assert forall|i: int| 0 <= i < hex(bytes).len() implies #[trigger] hex(bytes)[i] != 0x3E
            && hex(bytes)[i] != 0x3C by {
            if i < before.len() {
                assert(hex(bytes)[i] == before[i]);
            } else {
                assert(hex(bytes)[i] == hex_pair(bytes.last())[i - before.len()]);
            }
        }
    }
}

pub proof fn lemma_hex_string_token(bytes: Seq<u8>, rest: Seq<u8>)
    ensures
        tokens_of(hex_string_bytes(bytes) + rest) == seq![hex_string_bytes(bytes)] + tokens_of(
            rest,
        ),
        tail_of(hex_string_bytes(bytes) + rest) == tail_of(rest),
{
    reveal_strlit("<");
    reveal_strlit(">");
    is_ascii_chars_encode_utf8("<"@);
    is_ascii_chars_encode_utf8(">"@);
    assert(utf8("<"@) =~= seq![0x3Cu8]);
    assert(utf8(">"@) =~= seq![0x3Eu8]);
    lemma_hex_digits(bytes);
    lemma_hex_string(hex(bytes), rest);
}

pub proof fn lemma_id_line(id: Option<Seq<Seq<u8>>>, second: Seq<u8>, rest: Seq<u8>)
    requires
        id matches Some(strings) ==> strings.len() > 0,
    ensures
        tokens_of(id_line(id, second) + rest) == id_tokens(id, second) + tokens_of(rest),
        tail_of(id_line(id, second) + rest) == tail_of(rest),
{
    match id {
        Some(strings) => {
            reveal_strlit("ID");
            reveal_strlit("endobj");
            reveal_strlit("stream");
            reveal_strlit("/ID [");
            reveal_strlit("]\n");
            is_ascii_chars_encode_utf8("ID"@);
            is_ascii_chars_encode_utf8("/ID ["@);
            is_ascii_chars_encode_utf8("]\n"@);
            let key = "ID"@;
            assert(is_plain_key(key));
            lemma_key(key);
            let end = seq![10u8] + rest;
            let close = seq![0x5Du8] + end;
            let two = hex_string_bytes(second) + close;
            let one = hex_string_bytes(strings[0]) + two;
            let open = seq![0x5Bu8] + one;
            assert(utf8("/ID ["@) =~= key_token(key) + seq![32u8, 0x5Bu8]);
            assert(utf8("]\n"@) =~= seq![0x5Du8, 10u8]);
            assert(id_line(id, second) + rest =~= key_token(key) + (seq![32u8] + open));
            lemma_name(utf8(key), seq![32u8] + open);
            lemma_space(32, open);
            lemma_bracket(seq![0x5Bu8], one);
            lemma_hex_string_token(strings[0], two);
            lemma_hex_string_token(second, close);
            lemma_bracket(seq![0x5Du8], end);
            lemma_space(10, rest);
            assert(id_tokens(id, second) + tokens_of(rest) =~= seq![key_token(key)] + (seq![
                seq![0x5Bu8],
            ] + (seq![hex_string_bytes(strings[0])] + (seq![hex_string_bytes(second)] + (seq![
                seq![0x5Du8],
            ] + tokens_of(rest))))));
        },
        None => {
            assert(id_line(id, second) + rest =~= rest);
            assert(id_tokens(id, second) + tokens_of(rest) =~= tokens_of(rest));
        },
    }
}

/// The next token is a key, or closes the dictionary.
pub open spec fn starts_an_entry(tokens: Seq<Seq<u8>>) -> bool {
    &&& tokens.len() > 0
    &&& tokens[0].len() > 0
    &&& tokens[0][0] == 0x2F || tokens[0][0] == 0x3E
}

pub proof fn lemma_number_entry(
    tokens: Seq<Seq<u8>>,
    at: int,
    depth: nat,
    before: Entries,
    key: Seq<char>,
    n: nat,
    more: Seq<Seq<u8>>,
)
    requires
        is_plain_key(key),
        n <= 0x7FFF_FFFF_FFFF_FFFF,
        depth < MAX_VALUE_DEPTH,
        0 <= at <= tokens.len(),
        tokens.skip(at) == seq![key_token(key), decimal(n)] + more,
        starts_an_entry(more),
    ensures
        at + 2 <= tokens.len(),
        tokens.skip(at + 2) == more,
        entries_at(tokens, at, depth, before) == entries_at(
            tokens,
            at + 2,
            depth,
            before.push((key, PdfValue::Integer(n as int))),
        ),
{
    lemma_key(key);
    lemma_decimal_token(n, n);
    law_decimal_reads_back(n);
    let first = seq![key_token(key), decimal(n)];
    lemma_parts(tokens, at, first, more);
    assert(tokens[at + 0] == first[0]);
    assert(tokens[at + 1] == first[1]);
    let number = tokens[at + 1];
    assert(is_digit(number[0]));
    lemma_no_keyword(number);
    assert(unsigned_of(more[0], 0xFFFF) is None) by {
        assert(more[0][0] == 0x2F || more[0][0] == 0x3E);
        assert(!is_digit(more[0][0]));
    }
    assert(value_at(tokens, at + 1, depth + 1) == Ok::<(PdfValue, int), ValueError>(
        (PdfValue::Integer(n as int), at + 2),
    ));
    lemma_no_close(tokens[at]);
}

/// A number is none of the words and brackets that start another value.
pub proof fn lemma_no_keyword(token: Seq<u8>)
    requires
        token.len() > 0,
        is_digit(token[0]),
    ensures
        token != utf8("<<"@),
        token != utf8("["@),
        token != utf8("true"@),
        token != utf8("false"@),
        token != utf8("null"@),
        token != utf8("]"@),
{
    reveal_strlit("<<");
    reveal_strlit("[");
    reveal_strlit("true");
    reveal_strlit("false");
    reveal_strlit("null");
    reveal_strlit("]");
    is_ascii_chars_encode_utf8("<<"@);
    is_ascii_chars_encode_utf8("["@);
    is_ascii_chars_encode_utf8("true"@);
    is_ascii_chars_encode_utf8("false"@);
    is_ascii_chars_encode_utf8("null"@);
    is_ascii_chars_encode_utf8("]"@);
}

/// A key does not close a dictionary.
pub proof fn lemma_no_close(token: Seq<u8>)
    requires
        token.len() > 0,
        token[0] == 0x2F,
    ensures
        token != utf8(">>"@),
{
    reveal_strlit(">>");
    is_ascii_chars_encode_utf8(">>"@);
}

/// The entry of a reference, when there is one.
pub open spec fn reference_entries(key: Seq<char>, reference: Option<(nat, nat)>) -> Entries {
    match reference {
        Some((obj_num, gen_num)) => seq![(key, PdfValue::IndirectRef { obj_num, gen_num })],
        None => Seq::empty(),
    }
}

/// A reference has numbers of the size that references have.
pub open spec fn reference_fits(reference: Option<(nat, nat)>) -> bool {
    reference matches Some((obj_num, gen_num)) ==> obj_num <= u32::MAX && gen_num <= u16::MAX
}

pub proof fn lemma_reference_entry(
    tokens: Seq<Seq<u8>>,
    at: int,
    depth: nat,
    before: Entries,
    key: Seq<char>,
    reference: Option<(nat, nat)>,
    more: Seq<Seq<u8>>,
)
    requires
        is_plain_key(key),
        reference_fits(reference),
        depth < MAX_VALUE_DEPTH,
        0 <= at <= tokens.len(),
        tokens.skip(at) == reference_tokens(key, reference) + more,
    ensures
        ({
            let next = at + reference_tokens(key, reference).len();
            &&& next <= tokens.len()
            &&& tokens.skip(next) == more
            &&& entries_at(tokens, at, depth, before) == entries_at(
                tokens,
                next,
                depth,
                before + reference_entries(key, reference),
            )
        }),
{
    match reference {
        Some((obj_num, gen_num)) => {
            lemma_key(key);
            lemma_decimal_token(obj_num, u32::MAX as nat);
            lemma_decimal_token(gen_num, u16::MAX as nat);
            law_decimal_reads_back(obj_num);
            let first = reference_tokens(key, reference);
            lemma_parts(tokens, at, first, more);
            assert(tokens[at + 0] == first[0]);
            assert(tokens[at + 1] == first[1]);
            assert(tokens[at + 2] == first[2]);
            assert(tokens[at + 3] == first[3]);
            let number = tokens[at + 1];
            assert(is_digit(number[0]));
            lemma_no_keyword(number);
            assert(is_reference_at(tokens, at + 1));
            let value = PdfValue::IndirectRef { obj_num, gen_num };
            assert(value_at(tokens, at + 1, depth + 1) == Ok::<(PdfValue, int), ValueError>(
                (value, at + 4),
            ));
            lemma_no_close(tokens[at]);
            assert(before.push((key, value)) =~= before + reference_entries(key, reference));
        },
        None => {
            assert(tokens.skip(at) =~= more);
            assert(before + reference_entries(key, reference) =~= before);
        },
    }
}

proof fn lemma_marked_digits(digits: Seq<u8>)
    ensures
        hex_digit_values(seq![0x3Cu8] + digits) == hex_digit_values(digits),
    decreases digits.len(),
{
    let marked = seq![0x3Cu8] + digits;
    if digits.len() > 0 {
        lemma_marked_digits(digits.drop_last());
        assert(marked.drop_last() =~= seq![0x3Cu8] + digits.drop_last());
        assert(marked.last() == digits.last());
    } else {
        assert(marked.drop_last() =~= Seq::empty());
        assert(hex_digit_values(Seq::<u8>::empty()) =~= Seq::empty());
    }
}

/// A hexadecimal string is read as the bytes it was made from.
pub proof fn lemma_hex_string_value(bytes: Seq<u8>)
    ensures
        hex_string_bytes(bytes).len() >= 2,
        hex_string_bytes(bytes)[0] == 0x3C,
        hex_string_bytes(bytes) != utf8("<<"@),
        hex_string_bytes(bytes) != utf8("["@),
        hex_string_bytes(bytes) != utf8("]"@),
        paired(hex_digit_values(hex_string_bytes(bytes))) == bytes,
{
    reveal_strlit("<");
    reveal_strlit(">");
    reveal_strlit("<<");
    reveal_strlit("[");
    reveal_strlit("]");
    is_ascii_chars_encode_utf8("<"@);
    is_ascii_chars_encode_utf8(">"@);
    is_ascii_chars_encode_utf8("<<"@);
    is_ascii_chars_encode_utf8("["@);
    is_ascii_chars_encode_utf8("]"@);
    let text = hex_string_bytes(bytes);
    let opened = seq![0x3Cu8] + hex(bytes);
    assert(text =~= opened.push(0x3E));
    assert(text.last() == 0x3E);
    assert(utf8("<<"@)[1] == 0x3C);
    assert(text.drop_last() =~= opened);
    lemma_marked_digits(hex(bytes));
    law_hexadecimal_reads_back(bytes);
}

/// The entry of an identifier, when there is one.
pub open spec fn id_entries(id: Option<Seq<Seq<u8>>>, second: Seq<u8>) -> Entries {
    match id {
        Some(strings) => seq![
            (
                "ID"@,
                PdfValue::Array(
                    seq![PdfValue::HexString(strings[0]), PdfValue::HexString(second)],
                ),
            ),
        ],
        None => Seq::empty(),
    }
}

pub proof fn lemma_id_entry(
    tokens: Seq<Seq<u8>>,
    at: int,
    depth: nat,
    before: Entries,
    id: Option<Seq<Seq<u8>>>,
    second: Seq<u8>,
    more: Seq<Seq<u8>>,
)
    requires
        depth + 1 < MAX_VALUE_DEPTH,
        0 <= at <= tokens.len(),
        tokens.skip(at) == id_tokens(id, second) + more,
    ensures
        ({
            let next = at + id_tokens(id, second).len();
            &&& next <= tokens.len()
            &&& tokens.skip(next) == more
            &&& entries_at(tokens, at, depth, before) == entries_at(
                tokens,
                next,
                depth,
                before + id_entries(id, second),
            )
        }),
{
    match id {
        Some(strings) => {
            reveal_strlit("ID");
            reveal_strlit("endobj");
            reveal_strlit("stream");
            reveal_strlit("[");
            reveal_strlit("]");
            reveal_strlit("<<");
            is_ascii_chars_encode_utf8("["@);
            is_ascii_chars_encode_utf8("]"@);
            is_ascii_chars_encode_utf8("<<"@);
            assert(is_plain_key("ID"@));
            lemma_key("ID"@);
            let first = id_tokens(id, second);
            lemma_parts(tokens, at, first, more);
            assert(tokens[at + 0] == first[0]);
            assert(tokens[at + 1] == first[1]);
            assert(tokens[at + 2] == first[2]);
            assert(tokens[at + 3] == first[3]);
            assert(tokens[at + 4] == first[4]);
            lemma_no_close(tokens[at]);
            lemma_hex_string_value(strings[0]);
            lemma_hex_string_value(second);
            assert(tokens[at + 1] =~= utf8("["@));
            assert(tokens[at + 4] =~= utf8("]"@));
            assert(tokens[at + 1] != utf8("<<"@));
            let one = PdfValue::HexString(strings[0]);
            let two = PdfValue::HexString(second);
            let none = Seq::<PdfValue>::empty();
            assert(value_at(tokens, at + 2, depth + 2) == Ok::<(PdfValue, int), ValueError>(
                (one, at + 3),
            ));
            assert(value_at(tokens, at + 3, depth + 2) == Ok::<(PdfValue, int), ValueError>(
                (two, at + 4),
            ));
            assert(items_at(tokens, at + 4, depth + 1, none.push(one).push(two)) == Ok::<
                (Seq<PdfValue>, int),
                ValueError,
            >((none.push(one).push(two), at + 5)));
            assert(items_at(tokens, at + 3, depth + 1, none.push(one)) == items_at(
                tokens,
                at + 4,
                depth + 1,
                none.push(one).push(two),
            ));
            assert(items_at(tokens, at + 2, depth + 1, none) == items_at(
                tokens,
                at + 3,
                depth + 1,
                none.push(one),
            ));
            assert(none.push(one).push(two) =~= seq![one, two]);
            let value = PdfValue::Array(seq![one, two]);
            assert(value_at(tokens, at + 1, depth + 1) == Ok::<(PdfValue, int), ValueError>(
                (value, at + 5),
            ));
            assert(before.push(("ID"@, value)) =~= before + id_entries(id, second));
        },
        None => {
            assert(tokens.skip(at) =~= more);
            assert(before + id_entries(id, second) =~= before);
        },
    }
}

/// The keys of a trailer stand in a file as they are.
pub proof fn lemma_trailer_keys()
    ensures
        is_plain_key("Prev"@),
        is_plain_key("Root"@),
        is_plain_key("Info"@),
        is_plain_key("Size"@),
        utf8("/Root "@) == key_token("Root"@) + seq![32u8],
        utf8("/Info "@) == key_token("Info"@) + seq![32u8],
        utf8("/Size "@) == key_token("Size"@) + seq![32u8],
        utf8("/Prev "@) == key_token("Prev"@) + seq![32u8],
{
    reveal_strlit("Prev");
    reveal_strlit("Root");
    reveal_strlit("Info");
    reveal_strlit("Size");
    reveal_strlit("/Root ");
    reveal_strlit("/Info ");
    reveal_strlit("/Size ");
    reveal_strlit("/Prev ");
    reveal_strlit("endobj");
    reveal_strlit("stream");
    is_ascii_chars_encode_utf8("Prev"@);
    is_ascii_chars_encode_utf8("Root"@);
    is_ascii_chars_encode_utf8("Info"@);
    is_ascii_chars_encode_utf8("Size"@);
    is_ascii_chars_encode_utf8("/Root "@);
    is_ascii_chars_encode_utf8("/Info "@);
    is_ascii_chars_encode_utf8("/Size "@);
    is_ascii_chars_encode_utf8("/Prev "@);
    assert(utf8("/Root "@) =~= key_token("Root"@) + seq![32u8]);
    assert(utf8("/Info "@) =~= key_token("Info"@) + seq![32u8]);
    assert(utf8("/Size "@) =~= key_token("Size"@) + seq![32u8]);
    assert(utf8("/Prev "@) =~= key_token("Prev"@) + seq![32u8]);
}

pub proof fn lemma_regroup(a: Seq<u8>, b: Seq<u8>, c: Seq<u8>)
    ensures
        a + b + c == a + (b + c),
{
    assert(a + b + c =~= a + (b + c));
}

/// What the trailer of an update says: the file's own root, information and
/// first identifier, the section before, and a size and a second identifier of
/// its own.
pub open spec fn updated_trailer(file: Opened, size: nat, second: Seq<u8>) -> Trailer {
    Trailer {
        root: file.trailer.root,
        info: file.trailer.info,
        size,
        prev: Some(file.prev_startxref),
        id: match file.trailer.id {
            Some(strings) => Some(seq![strings[0], second]),
            None => None,
        },
        has_xref_stm: false,
    }
}

pub proof fn lemma_entry_at(entries: Entries, key: Seq<char>, from: int, at: int)
    requires
        0 <= from <= at <= entries.len(),
        forall|i: int| from <= i < at ==> (#[trigger] entries[i]).0 != key,
        at < entries.len() ==> entries[at].0 == key,
    ensures
        entry_index(entries, key, from) == at,
    decreases at - from,
{
    if from < at {
        lemma_entry_at(entries, key, from + 1, at);
    }
}

} // verus!
