//! What the tokens of single values stand for.

use crate::bytes::{decimal, hex, hex_pair, padded_decimal, repeated, signed_decimal, utf8};
use crate::number::{all_digits, digits_value, integer_of, is_digit};
use crate::pdfread::value::{
    body_end, exponent_mark, fraction_parts, literal_value, real_of, six_places, unescaped,
};
use crate::pdfwrite::laws::{law_decimal_reads_back, lemma_decimal_len, pow10};
use crate::pdfwrite::object::{
    escaped, hex_string_bytes, hex_units, is_escaped_in_name, name_body, name_bytes, real_bytes,
    without_trailing_zeros, PdfValue, Real,
};
use crate::pdfwrite::pieces::{is_parted, is_word, lemma_first_token, lemma_run, tokens_of};
use crate::pdfwrite::tokenizer::{is_delimiter, literal_end, next_of};
use vstd::prelude::*;
use vstd::utf8::{
    decode_utf8, encode_utf8_decode_utf8, encode_utf8_valid_utf8, is_ascii_chars_encode_utf8,
    valid_utf8,
};

verus! {

/// A text of digits, signs and points is read as one token.
pub proof fn lemma_number_is_a_word(text: Seq<u8>)
    requires
        text.len() > 0,
        forall|i: int|
            0 <= i < text.len() ==> is_digit(#[trigger] text[i]) || text[i] == 45 || text[i] == 46,
    ensures
        is_word(text),
        text[0] != 0x28,
        text[0] != 0x2F,
        text[0] != 0x3C,
        text != utf8("<<"@),
        text != utf8("["@),
        text != utf8("]"@),
        text != utf8(">>"@),
        text != utf8("R"@),
        text != utf8("true"@),
        text != utf8("false"@),
        text != utf8("null"@),
{
    assert(is_digit(text[0]) || text[0] == 45 || text[0] == 46);
    assert forall|i: int| 0 <= i < text.len() implies !is_delimiter(#[trigger] text[i]) by {
        assert(is_digit(text[i]) || text[i] == 45 || text[i] == 46);
    }
    reveal_strlit("endobj");
    reveal_strlit("stream");
    reveal_strlit("<<");
    reveal_strlit("[");
    reveal_strlit("]");
    reveal_strlit(">>");
    reveal_strlit("R");
    reveal_strlit("true");
    reveal_strlit("false");
    reveal_strlit("null");
    is_ascii_chars_encode_utf8("endobj"@);
    is_ascii_chars_encode_utf8("stream"@);
    is_ascii_chars_encode_utf8("<<"@);
    is_ascii_chars_encode_utf8("["@);
    is_ascii_chars_encode_utf8("]"@);
    is_ascii_chars_encode_utf8(">>"@);
    is_ascii_chars_encode_utf8("R"@);
    is_ascii_chars_encode_utf8("true"@);
    is_ascii_chars_encode_utf8("false"@);
    is_ascii_chars_encode_utf8("null"@);
    assert(utf8("endobj"@)[0] == 101);
    assert(utf8("stream"@)[0] == 115);
    assert(utf8("<<"@)[0] == 0x3C);
    assert(utf8("["@)[0] == 0x5B);
    assert(utf8("]"@)[0] == 0x5D);
    assert(utf8(">>"@)[0] == 0x3E);
    assert(utf8("R"@)[0] == 82);
    assert(utf8("true"@)[0] == 116);
    assert(utf8("false"@)[0] == 102);
    assert(utf8("null"@)[0] == 110);
}

/// An integer is read as the integer it was written for.
pub proof fn lemma_integer(n: int)
    requires
        i64::MIN <= n <= i64::MAX,
    ensures
        signed_decimal(n).len() > 0,
        forall|i: int|
            0 <= i < signed_decimal(n).len() ==> is_digit(#[trigger] signed_decimal(n)[i])
                || signed_decimal(n)[i] == 45 || signed_decimal(n)[i] == 46,
        integer_of(signed_decimal(n)) == Some(n),
{
    let text = signed_decimal(n);
    if n < 0 {
        let digits = decimal((-n) as nat);
        law_decimal_reads_back((-n) as nat);
        assert(text.drop_first() =~= digits);
        assert forall|i: int| 0 <= i < text.len() implies is_digit(#[trigger] text[i]) || text[i]
            == 45 || text[i] == 46 by {
            if i > 0 {
                assert(text[i] == digits[i - 1]);
                assert(is_digit(digits[i - 1]));
            }
        }
    } else {
        law_decimal_reads_back(n as nat);
        assert forall|i: int| 0 <= i < text.len() implies is_digit(#[trigger] text[i]) by {}
        assert(is_digit(text[0]));
    }
}

pub proof fn lemma_digits_joined(a: Seq<u8>, b: Seq<u8>)
    ensures
        digits_value(a + b) == digits_value(a) * pow10(b.len()) + digits_value(b),
    decreases b.len(),
{
    let v = digits_value(a);
    if b.len() == 0 {
        assert(a + b =~= a);
        assert(v * 1 == v) by (nonlinear_arith);
    } else {
        let shorter = b.drop_last();
        assert((a + b).drop_last() =~= a + shorter);
        assert((a + b).last() == b.last());
        lemma_digits_joined(a, shorter);
        let p = pow10(shorter.len());
        assert(pow10(b.len()) == 10 * p);
        assert(v * p * 10 == v * (10 * p)) by (nonlinear_arith);
    }
}

proof fn lemma_trailing_zeros(digits: Seq<u8>)
    ensures
        ({
            let short = without_trailing_zeros(digits);
            &&& short.len() <= digits.len()
            &&& forall|i: int| 0 <= i < short.len() ==> #[trigger] short[i] == digits[i]
            &&& forall|i: int| short.len() <= i < digits.len() ==> #[trigger] digits[i] == 48
        }),
    decreases digits.len(),
{
    if digits.len() > 0 && digits.last() == 48 {
        lemma_trailing_zeros(digits.drop_last());
        let short = without_trailing_zeros(digits);
        assert forall|i: int| short.len() <= i < digits.len() implies #[trigger] digits[i] == 48 by {
            if i < digits.len() - 1 {
                assert(digits.drop_last()[i] == digits[i]);
            }
        }
        assert forall|i: int| 0 <= i < short.len() implies #[trigger] short[i] == digits[i] by {
            assert(digits.drop_last()[i] == digits[i]);
        }
    }
}

pub proof fn lemma_zeros(count: nat)
    ensures
        digits_value(repeated(48u8, count)) == 0,
    decreases count,
{
    if count > 0 {
        lemma_zeros((count - 1) as nat);
        assert(repeated(48u8, count).drop_last() =~= repeated(48u8, (count - 1) as nat));
    }
}

/// Six digits of a number below a million.
proof fn lemma_six_digits(n: nat)
    requires
        n < 1_000_000,
    ensures
        padded_decimal(n, 6).len() == 6,
        all_digits(padded_decimal(n, 6)),
        digits_value(padded_decimal(n, 6)) == n,
{
    law_decimal_reads_back(n);
    reveal_with_fuel(pow10, 7);
    lemma_decimal_len(n, 6, 1_000_000);
    let digits = decimal(n);
    if digits.len() < 6 {
        let zeros = repeated(48u8, (6 - digits.len()) as nat);
        lemma_zeros((6 - digits.len()) as nat);
        lemma_digits_joined(zeros, digits);
        let all = zeros + digits;
        assert(0 * pow10(digits.len()) == 0) by (nonlinear_arith);
        assert forall|i: int| 0 <= i < all.len() implies is_digit(#[trigger] all[i]) by {
            if i >= zeros.len() {
                assert(all[i] == digits[i - zeros.len()]);
            }
        }
    }
}

pub proof fn lemma_point(digits: Seq<u8>, rest: Seq<u8>, at: int)
    requires
        all_digits(digits),
        0 <= at <= digits.len(),
        rest.len() > 0,
        rest[0] == 0x2E,
    ensures
        next_of(digits + rest, 0x2E, at) == digits.len(),
    decreases digits.len() - at,
{
    let all = digits + rest;
    if at < digits.len() {
        assert(is_digit(digits[at]));
        assert(all[at] == digits[at]);
        lemma_point(digits, rest, at + 1);
    } else {
        assert(all[at] == rest[0]);
    }
}

/// The digits after the point, without the zeros they end in.
spec fn fraction_digits(n: nat) -> Seq<u8> {
    without_trailing_zeros(padded_decimal(n, 6))
}

/// The parts of a decimal fraction.
proof fn lemma_fraction(w: nat, f: nat)
    requires
        0 < f < 1_000_000,
    ensures
        ({
            let body = decimal(w) + (seq![46u8] + fraction_digits(f));
            &&& fraction_parts(body) == (decimal(w), fraction_digits(f))
            &&& 0 < fraction_digits(f).len() <= 6
            &&& all_digits(decimal(w))
            &&& all_digits(fraction_digits(f))
            &&& digits_value(decimal(w) + six_places(fraction_digits(f))) == w * 1_000_000 + f
            &&& decimal(w).len() > 0
        }),
{
    let whole = decimal(w);
    let six = padded_decimal(f, 6);
    let fraction = fraction_digits(f);
    law_decimal_reads_back(w);
    lemma_six_digits(f);
    lemma_trailing_zeros(six);
    assert(six_places(fraction) =~= six);
    assert(fraction.len() > 0) by {
        if fraction.len() == 0 {
            assert(six =~= repeated(48u8, 6));
            lemma_zeros(6);
        }
    }
    let rest = seq![46u8] + fraction;
    let body = whole + rest;
    lemma_point(whole, rest, 0);
    assert(body.take(whole.len() as int) =~= whole);
    assert(body.skip(whole.len() as int + 1) =~= fraction);
    assert forall|i: int| 0 <= i < fraction.len() implies is_digit(#[trigger] fraction[i]) by {
        assert(fraction[i] == six[i]);
        assert(is_digit(six[i]));
    }
    lemma_digits_joined(whole, six);
    assert(pow10(6) == 1_000_000) by {
        reveal_with_fuel(pow10, 7);
    }
}

proof fn lemma_real_text(number: Real)
    requires
        number.millionths as nat % 1_000_000 != 0,
    ensures
        ({
            let body = decimal(number.millionths as nat / 1_000_000) + (seq![46u8]
                + fraction_digits(number.millionths as nat % 1_000_000));
            real_bytes(number) == if number.negative {
                seq![45u8] + body
            } else {
                body
            }
        }),
{
    reveal_strlit("-");
    reveal_strlit(".");
    is_ascii_chars_encode_utf8("-"@);
    is_ascii_chars_encode_utf8("."@);
    assert(utf8("-"@) =~= seq![45u8]);
    assert(utf8("."@) =~= seq![46u8]);
    let body = decimal(number.millionths as nat / 1_000_000) + (seq![46u8] + fraction_digits(
        number.millionths as nat % 1_000_000,
    ));
    if number.negative {
        assert(real_bytes(number) =~= seq![45u8] + body);
    } else {
        assert(real_bytes(number) =~= body);
    }
}

/// Without the mark of an exponent a number has none.
proof fn lemma_no_exponent(body: Seq<u8>, at: int)
    requires
        0 <= at <= body.len(),
        forall|i: int| at <= i < body.len() ==> is_digit(#[trigger] body[i]) || body[i] == 46,
    ensures
        exponent_mark(body, at) == body.len(),
    decreases body.len() - at,
{
    if at < body.len() {
        assert(is_digit(body[at]) || body[at] == 46);
        lemma_no_exponent(body, at + 1);
    }
}

/// A whole number is read as itself by a reader of real numbers.
pub proof fn lemma_whole_real(number: Real)
    requires
        number.millionths as nat % 1_000_000 == 0,
    ensures
        real_of(real_bytes(number)) == Some(number),
{
    let w = number.millionths as nat / 1_000_000;
    let body = decimal(w);
    let text = real_bytes(number);
    law_decimal_reads_back(w);
    reveal_strlit("-");
    is_ascii_chars_encode_utf8("-"@);
    assert(utf8("-"@) =~= seq![45u8]);
    assert(is_digit(body[0]));
    if number.negative {
        assert(text =~= seq![45u8] + body);
        assert(text.drop_first() =~= body);
    } else {
        assert(text =~= body);
    }
    assert forall|i: int| 0 <= i < body.len() implies is_digit(#[trigger] body[i]) || body[i]
        == 46 by {
        assert(is_digit(body[i]));
    }
    lemma_no_exponent(body, 0);
    assert(body.take(body.len() as int) =~= body);
    lemma_no_point(body, 0);
    assert(fraction_parts(body) == (body, Seq::<u8>::empty()));
    let none = Seq::<u8>::empty();
    assert(six_places(none) =~= repeated(48u8, 6));
    lemma_zeros(6);
    lemma_digits_joined(body, repeated(48u8, 6));
    assert(pow10(6) == 1_000_000) by {
        reveal_with_fuel(pow10, 7);
    }
    assert(w * 1_000_000 == number.millionths);
}

/// Digits hold no point.
proof fn lemma_no_point(body: Seq<u8>, at: int)
    requires
        0 <= at <= body.len(),
        all_digits(body),
    ensures
        next_of(body, 0x2E, at) == body.len(),
    decreases body.len() - at,
{
    if at < body.len() {
        assert(is_digit(body[at]));
        lemma_no_point(body, at + 1);
    }
}

/// A real number that is no whole number is read as itself.
pub proof fn lemma_real(number: Real)
    requires
        number.millionths as nat % 1_000_000 != 0,
    ensures
        real_bytes(number).len() > 0,
        forall|i: int|
            0 <= i < real_bytes(number).len() ==> is_digit(#[trigger] real_bytes(number)[i])
                || real_bytes(number)[i] == 45 || real_bytes(number)[i] == 46,
        integer_of(real_bytes(number)) is None,
        real_of(real_bytes(number)) == Some(number),
{
    let w = number.millionths as nat / 1_000_000;
    let f = number.millionths as nat % 1_000_000;
    let whole = decimal(w);
    let fraction = fraction_digits(f);
    let body = whole + (seq![46u8] + fraction);
    let text = real_bytes(number);
    lemma_fraction(w, f);
    lemma_real_text(number);
    assert(w * 1_000_000 + f == number.millionths);
    assert(is_digit(whole[0]));
    assert(body[0] == whole[0]);
    assert(body[whole.len() as int] == 46);
    assert(!is_digit(body[whole.len() as int]));
    assert forall|i: int| 0 <= i < body.len() implies is_digit(#[trigger] body[i]) || body[i]
        == 46 by {
        if i < whole.len() {
            assert(body[i] == whole[i]);
            assert(is_digit(whole[i]));
        } else if i > whole.len() {
            assert(body[i] == fraction[i - whole.len() - 1]);
            assert(is_digit(fraction[i - whole.len() - 1]));
        }
    }
    lemma_no_exponent(body, 0);
    assert(body.take(body.len() as int) =~= body);
    if number.negative {
        assert(text.drop_first() =~= body);
        assert(text[0] == 45);
        assert forall|i: int| 0 <= i < text.len() implies is_digit(#[trigger] text[i]) || text[i]
            == 45 || text[i] == 46 by {
            if i > 0 {
                assert(text[i] == body[i - 1]);
            }
        }
        assert(!all_digits(text.drop_first()));
    } else {
        assert(!all_digits(text));
    }
}

/// The body of a literal string closes no parenthesis that it did not open.
proof fn lemma_escaped_end(data: Seq<u8>, at: int, bytes: Seq<u8>)
    requires
        0 <= at,
        at + escaped(bytes).len() < data.len(),
        data.subrange(at, at + escaped(bytes).len()) == escaped(bytes),
    ensures
        literal_end(data, at, 1) == literal_end(data, at + escaped(bytes).len(), 1),
        body_end(data, at, 1) == body_end(data, at + escaped(bytes).len(), 1),
    decreases bytes.len(),
{
    if bytes.len() > 0 {
        let before = bytes.drop_last();
        let text = escaped(bytes);
        let k = escaped(before).len() as int;
        assert(data.subrange(at, at + k) =~= escaped(before)) by {
            assert forall|i: int| 0 <= i < k implies data[at + i] == escaped(before)[i] by {
                assert(data.subrange(at, at + text.len())[i] == text[i]);
            }
        }
        lemma_escaped_end(data, at, before);
        let last = bytes.last();
        assert(data[at + k] == text[k]) by {
            assert(data.subrange(at, at + text.len())[k] == text[k]);
        }
        if last == 40 || last == 41 || last == 92 {
            assert(text[k] == 92);
        } else {
            assert(text[k] == last);
        }
    }
}

proof fn lemma_unescaped(bytes: Seq<u8>, rest: Seq<u8>)
    ensures
        unescaped(escaped(bytes) + rest) == bytes + unescaped(rest),
    decreases bytes.len(),
{
    if bytes.len() == 0 {
        assert(escaped(bytes) + rest =~= rest);
        assert(bytes + unescaped(rest) =~= unescaped(rest));
    } else {
        let before = bytes.drop_last();
        let last = bytes.last();
        let piece = if last == 40 || last == 41 || last == 92 {
            seq![92u8, last]
        } else {
            seq![last]
        };
        let tail = piece + rest;
        assert(escaped(bytes) + rest =~= escaped(before) + tail);
        lemma_unescaped(before, tail);
        if piece.len() == 2 {
            assert(tail[0] == 92 && tail[1] == last);
            assert(tail.skip(2) =~= rest);
        } else {
            assert(tail[0] == last);
            assert(tail.drop_first() =~= rest);
        }
        assert(unescaped(tail) == seq![last] + unescaped(rest));
        assert(before + (seq![last] + unescaped(rest)) =~= bytes + unescaped(rest));
    }
}

/// A literal string is one token, and read as the bytes it was written for.
pub proof fn lemma_literal(bytes: Seq<u8>, rest: Seq<u8>)
    ensures
        ({
            let token = utf8("("@) + escaped(bytes) + utf8(")"@);
            &&& tokens_of(token + rest) == seq![token] + tokens_of(rest)
            &&& token.len() > 0
            &&& token[0] == 0x28
            &&& literal_value(token) == PdfValue::RawString(bytes)
        }),
{
    reveal_strlit("(");
    reveal_strlit(")");
    reveal_strlit("endobj");
    reveal_strlit("stream");
    is_ascii_chars_encode_utf8("("@);
    is_ascii_chars_encode_utf8(")"@);
    is_ascii_chars_encode_utf8("endobj"@);
    is_ascii_chars_encode_utf8("stream"@);
    assert(utf8("endobj"@)[0] == 101);
    assert(utf8("stream"@)[0] == 115);
    assert(utf8("("@) =~= seq![0x28u8]);
    assert(utf8(")"@) =~= seq![0x29u8]);
    let text = escaped(bytes);
    let token = utf8("("@) + text + utf8(")"@);
    let data = token + rest;
    let end = text.len() as int + 1;
    assert(data[0] == 0x28);
    assert(data.subrange(1, 1 + text.len() as int) =~= text);
    assert(token.subrange(1, 1 + text.len() as int) =~= text);
    assert(data[end] == 0x29);
    assert(token[end] == 0x29);
    lemma_escaped_end(data, 1, bytes);
    lemma_escaped_end(token, 1, bytes);
    assert(literal_end(data, end, 1) == end + 1) by {
        reveal_with_fuel(literal_end, 2);
    }
    lemma_first_token(token, rest);
    lemma_unescaped(bytes, Seq::empty());
    assert(text + Seq::empty() =~= text);
    assert(bytes + Seq::<u8>::empty() =~= bytes);
    assert(unescaped(Seq::<u8>::empty()) =~= Seq::empty());
}

/// Code units as bytes, the high one first.
pub open spec fn unit_bytes(units: Seq<u16>) -> Seq<u8>
    decreases units.len(),
{
    if units.len() == 0 {
        Seq::empty()
    } else {
        unit_bytes(units.drop_last()).push((units.last() / 256) as u8).push(
            (units.last() % 256) as u8,
        )
    }
}

proof fn lemma_hex_joined(a: Seq<u8>, b: Seq<u8>)
    ensures
        hex(a + b) == hex(a) + hex(b),
    decreases b.len(),
{
    if b.len() == 0 {
        assert(a + b =~= a);
        assert(hex(a) + hex(b) =~= hex(a));
    } else {
        assert((a + b).drop_last() =~= a + b.drop_last());
        lemma_hex_joined(a, b.drop_last());
        assert(hex(a + b) =~= hex(a) + hex(b));
    }
}

proof fn lemma_hex_units(units: Seq<u16>)
    ensures
        hex_units(units) == hex(unit_bytes(units)),
    decreases units.len(),
{
    if units.len() > 0 {
        let before = unit_bytes(units.drop_last());
        lemma_hex_units(units.drop_last());
        let high = (units.last() / 256) as u8;
        let low = (units.last() % 256) as u8;
        assert(before.push(high).push(low).drop_last() =~= before.push(high));
        assert(before.push(high).drop_last() =~= before);
        assert(hex(before.push(high)) == hex(before) + hex_pair(high));
        assert(hex(unit_bytes(units)) == hex(before.push(high)) + hex_pair(low));
    }
}

/// Text in UTF-16 is written as a hexadecimal string with a byte order mark.
pub proof fn lemma_marked_text(units: Seq<u16>)
    ensures
        utf8("<FEFF"@) + hex_units(units) + utf8(">"@) == hex_string_bytes(
            seq![0xFEu8, 0xFFu8] + unit_bytes(units),
        ),
{
    reveal_strlit("<FEFF");
    reveal_strlit("<");
    is_ascii_chars_encode_utf8("<FEFF"@);
    is_ascii_chars_encode_utf8("<"@);
    let mark = seq![0xFEu8, 0xFFu8];
    lemma_hex_units(units);
    lemma_hex_joined(mark, unit_bytes(units));
    assert(mark.drop_last() =~= seq![0xFEu8]);
    assert(seq![0xFEu8].drop_last() =~= Seq::empty());
    assert(hex(Seq::<u8>::empty()) =~= Seq::empty());
    assert(hex(seq![0xFEu8]) =~= seq![70u8, 69u8]);
    assert(hex(mark) =~= seq![70u8, 69u8, 70u8, 70u8]);
    assert(utf8("<FEFF"@) =~= utf8("<"@) + hex(mark));
    let digits = hex(unit_bytes(units));
    assert(utf8("<"@) + hex(mark) + digits =~= utf8("<"@) + (hex(mark) + digits));
}

proof fn lemma_name_body(bytes: Seq<u8>)
    ensures
        forall|i: int|
            0 <= i < name_body(bytes).len() ==> !is_delimiter(#[trigger] name_body(bytes)[i])
                && name_body(bytes)[i] < 128,
    decreases bytes.len(),
{
    if bytes.len() > 0 {
        let before = name_body(bytes.drop_last());
        let body = name_body(bytes);
        lemma_name_body(bytes.drop_last());
        assert forall|i: int| 0 <= i < body.len() implies !is_delimiter(#[trigger] body[i])
            && body[i] < 128 by {
            if i < before.len() {
                assert(body[i] == before[i]);
            } else if is_escaped_in_name(bytes.last()) {
                let pair = hex_pair(bytes.last());
                assert(body[i] == (seq![0x23u8] + pair)[i - before.len()]);
            } else {
                assert(body[i] == bytes.last());
            }
        }
    }
}

/// ASCII bytes as text.
pub open spec fn ascii_text(bytes: Seq<u8>) -> Seq<char> {
    bytes.map_values(|byte: u8| byte as char)
}

/// ASCII bytes are the UTF-8 of their text.
pub proof fn lemma_ascii_text(bytes: Seq<u8>)
    requires
        forall|i: int| 0 <= i < bytes.len() ==> #[trigger] bytes[i] < 128,
    ensures
        utf8(ascii_text(bytes)) == bytes,
        valid_utf8(bytes),
        decode_utf8(bytes) == ascii_text(bytes),
{
    let text = ascii_text(bytes);
    assert forall|i: int| 0 <= i < text.len() implies '\0' <= #[trigger] text[i] && text[i]
        <= '\u{7f}' by {
        assert(bytes[i] < 128);
    }
    is_ascii_chars_encode_utf8(text);
    assert(utf8(text) =~= bytes) by {
        assert forall|i: int| 0 <= i < bytes.len() implies utf8(text)[i] == bytes[i] by {
            assert(utf8(text)[i] == text[i] as u8);
            assert(bytes[i] < 128);
        }
    }
    encode_utf8_decode_utf8(text);
    encode_utf8_valid_utf8(text);
}

/// A name is one token, and read as the text that was written.
pub proof fn lemma_written_name(name: Seq<char>, rest: Seq<u8>)
    requires
        is_parted(rest),
    ensures
        ({
            let token = name_bytes(name);
            let text = ascii_text(name_body(utf8(name)));
            &&& tokens_of(token + rest) == seq![token] + tokens_of(rest)
            &&& token.len() > 0
            &&& token[0] == 0x2F
            &&& valid_utf8(token)
            &&& decode_utf8(token).drop_first() == text
            &&& valid_utf8(token.drop_first())
            &&& decode_utf8(token.drop_first()) == text
        }),
{
    reveal_strlit("/");
    reveal_strlit("endobj");
    reveal_strlit("stream");
    is_ascii_chars_encode_utf8("/"@);
    is_ascii_chars_encode_utf8("endobj"@);
    is_ascii_chars_encode_utf8("stream"@);
    assert(utf8("endobj"@)[0] == 101);
    assert(utf8("stream"@)[0] == 115);
    assert(utf8("/"@) =~= seq![0x2Fu8]);
    let body = name_body(utf8(name));
    let token = name_bytes(name);
    lemma_name_body(utf8(name));
    lemma_ascii_text(body);
    assert forall|i: int| 0 <= i < token.len() implies #[trigger] token[i] < 128 by {
        if i > 0 {
            assert(token[i] == body[i - 1]);
        }
    }
    lemma_ascii_text(token);
    assert(token.drop_first() =~= body);
    assert(ascii_text(token).drop_first() =~= ascii_text(body));
    let data = token + rest;
    let end = token.len() as int;
    assert(data[0] == 0x2F);
    assert forall|i: int| 1 <= i < end implies !is_delimiter(#[trigger] data[i]) by {
        assert(data[i] == body[i - 1]);
    }
    if end < data.len() {
        assert(data[end] == rest[0]);
    }
    lemma_run(data, 1, end);
    lemma_first_token(token, rest);
}

proof fn lemma_plain_body(bytes: Seq<u8>)
    requires
        forall|i: int| 0 <= i < bytes.len() ==> !is_escaped_in_name(#[trigger] bytes[i]),
    ensures
        name_body(bytes) == bytes,
    decreases bytes.len(),
{
    if bytes.len() > 0 {
        let before = bytes.drop_last();
        assert forall|i: int| 0 <= i < before.len() implies !is_escaped_in_name(
            #[trigger] before[i],
        ) by {
            assert(before[i] == bytes[i]);
        }
        lemma_plain_body(before);
        assert(name_body(bytes) =~= bytes);
    }
}

/// A name without characters that have to be escaped is written, and read back,
/// as it is.
pub proof fn law_plain_names_read_back(name: Seq<char>)
    requires
        forall|i: int| 0 <= i < utf8(name).len() ==> !is_escaped_in_name(#[trigger] utf8(name)[i]),
    ensures
        ascii_text(name_body(utf8(name))) == name,
{
    lemma_plain_body(utf8(name));
    assert forall|i: int| 0 <= i < utf8(name).len() implies #[trigger] utf8(name)[i] < 128 by {
        assert(!is_escaped_in_name(utf8(name)[i]));
    }
    lemma_ascii_text(utf8(name));
    encode_utf8_decode_utf8(name);
}

} // verus!
