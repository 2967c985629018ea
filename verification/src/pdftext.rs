//! Text strings of PDF documents, as text.
//!
//! A text string is UTF-16BE behind the byte order mark `FE FF`, UTF-8 behind
//! `EF BB BF`, or PDFDocEncoding. Decoding never fails: what is ill-formed
//! becomes U+FFFD.

use crate::pdfread::value::{hex_digit_values, hex_value};
use crate::text::{lossy_utf8, text_from_utf8_lossy};
use vstd::prelude::*;
use vstd::slice::slice_subrange;

verus! {

/// The character that stands for what cannot be decoded.
pub const REPLACEMENT: char = '\u{FFFD}';

/// A digit of an octal escape.
pub open spec fn is_octal(byte: u8) -> bool {
    48 <= byte <= 55
}

/// Where an octal escape ends that starts at `at`: it has at most three digits.
pub open spec fn octal_end(body: Seq<u8>, at: int) -> int {
    if at + 1 < body.len() && is_octal(body[at + 1]) {
        if at + 2 < body.len() && is_octal(body[at + 2]) {
            at + 3
        } else {
            at + 2
        }
    } else {
        at + 1
    }
}

/// The value of octal digits.
pub open spec fn octal_value(digits: Seq<u8>) -> nat
    decreases digits.len(),
{
    if digits.len() == 0 {
        0
    } else {
        octal_value(digits.drop_last()) * 8 + (digits.last() - 48) as nat
    }
}

/// What an escape that starts with the backslash at `at` stands for, and where
/// it ends. A backslash before the end of a line joins two lines.
pub open spec fn escape_at(body: Seq<u8>, at: int) -> (Seq<u8>, int) {
    let escaped = body[at + 1];
    if escaped == 110 {
        (seq![10u8], at + 2)
    } else if escaped == 114 {
        (seq![13u8], at + 2)
    } else if escaped == 116 {
        (seq![9u8], at + 2)
    } else if escaped == 98 {
        (seq![8u8], at + 2)
    } else if escaped == 102 {
        (seq![12u8], at + 2)
    } else if escaped == 10 {
        (Seq::empty(), at + 2)
    } else if escaped == 13 {
        (
            Seq::empty(),
            if at + 2 < body.len() && body[at + 2] == 10 {
                at + 3
            } else {
                at + 2
            },
        )
    } else if is_octal(escaped) {
        let end = octal_end(body, at + 1);
        (seq![(octal_value(body.subrange(at + 1, end)) % 256) as u8], end)
    } else {
        (seq![escaped], at + 2)
    }
}

/// The bytes that the body of a literal string stands for, from `at` on. A
/// backslash at the end stands for nothing.
pub open spec fn unescaped_from(body: Seq<u8>, at: int) -> Seq<u8>
    decreases body.len() - at,
{
    if at >= body.len() {
        Seq::empty()
    } else if body[at] != 92 {
        seq![body[at]] + unescaped_from(body, at + 1)
    } else if at + 1 >= body.len() {
        Seq::empty()
    } else {
        let (bytes, end) = escape_at(body, at);
        bytes + unescaped_from(body, end)
    }
}

/// Reads an octal escape that starts at `at`.
fn read_octal(body: &[u8], at: usize) -> (read: (u8, usize))
    requires
        at < body@.len(),
        is_octal(body@[at as int]),
    ensures
        read.1 == octal_end(body@, at as int),
        read.0 == octal_value(body@.subrange(at as int, read.1 as int)) % 256,
        read.1 <= body@.len(),
{
    let length: usize = body.len();
    let mut value: u32 = (body[at] - 48) as u32;
    let mut end: usize = at + 1;
    proof {
        let one = body@.subrange(at as int, at + 1);
        assert(one.drop_last() =~= Seq::empty());
        assert(octal_value(one) == value) by {
            assert(octal_value(one.drop_last()) == 0);
        }
    }
    if end < length && body[end] >= 48 && body[end] <= 55 {
        value = value * 8 + (body[end] - 48) as u32;
        end += 1;
        proof {
            assert(body@.subrange(at as int, at + 2).drop_last() =~= body@.subrange(
                at as int,
                at + 1,
            ));
            assert(octal_value(body@.subrange(at as int, at + 2)) == value);
        }
        if end < length && body[end] >= 48 && body[end] <= 55 {
            value = value * 8 + (body[end] - 48) as u32;
            end += 1;
            proof {
                assert(body@.subrange(at as int, at + 3).drop_last() =~= body@.subrange(
                    at as int,
                    at + 2,
                ));
                assert(octal_value(body@.subrange(at as int, at + 3)) == value);
            }
        }
    }
    assert(octal_value(body@.subrange(at as int, end as int)) == value);
    ((value % 256) as u8, end)
}

/// Resolves the escapes of the body of a literal string.
pub fn unescape_literal(body: &[u8]) -> (out: Vec<u8>)
    ensures
        out@ == unescaped_from(body@, 0),
{
    let ghost whole = unescaped_from(body@, 0);
    let length: usize = body.len();
    let mut out: Vec<u8> = Vec::new();
    let mut at: usize = 0;
    assert(out@ + unescaped_from(body@, 0) =~= whole);
    while at < length
        invariant
            at <= length,
            length == body@.len(),
            whole == unescaped_from(body@, 0),
            out@ + unescaped_from(body@, at as int) == whole,
        decreases length - at,
    {
        let ghost before = out@;
        let ghost start = at as int;
        let byte: u8 = body[at];
        if byte != 92 {
            out.push(byte);
            at += 1;
            assert(out@ + unescaped_from(body@, at as int) =~= before + unescaped_from(
                body@,
                start,
            ));
        } else if length - at == 1 {
            assert(out@ + Seq::<u8>::empty() =~= out@);
            return out;
        } else {
            let escaped: u8 = body[at + 1];
            at += 2;
            if escaped == 110 {
                out.push(10);
            } else if escaped == 114 {
                out.push(13);
            } else if escaped == 116 {
                out.push(9);
            } else if escaped == 98 {
                out.push(8);
            } else if escaped == 102 {
                out.push(12);
            } else if escaped == 10 {
            } else if escaped == 13 {
                if at < length && body[at] == 10 {
                    at += 1;
                }
            } else if escaped >= 48 && escaped <= 55 {
                let (value, end) = read_octal(body, at - 1);
                out.push(value);
                at = end;
            } else {
                out.push(escaped);
            }
            proof {
                let (bytes, end) = escape_at(body@, start);
                assert(end == at);
                assert(out@ =~= before + bytes);
                assert(out@ + unescaped_from(body@, at as int) =~= before + unescaped_from(
                    body@,
                    start,
                ));
            }
        }
    }
    assert(out@ + Seq::<u8>::empty() =~= out@);
    out
}

/// The code unit at `at`.
pub open spec fn unit_at(bytes: Seq<u8>, at: int) -> int {
    bytes[at] * 256 + bytes[at + 1]
}

/// The first half of a character beyond the first plane.
pub open spec fn is_high(unit: int) -> bool {
    0xD800 <= unit < 0xDC00
}

/// The second half of a character beyond the first plane.
pub open spec fn is_low(unit: int) -> bool {
    0xDC00 <= unit < 0xE000
}

/// The text that UTF-16BE stands for, from `at` on. Half a character, and a
/// byte too many, become U+FFFD.
pub open spec fn utf16be_text(bytes: Seq<u8>, at: int) -> Seq<char>
    decreases bytes.len() - at,
{
    if at >= bytes.len() {
        Seq::empty()
    } else if at + 1 == bytes.len() {
        seq![REPLACEMENT]
    } else {
        let unit = unit_at(bytes, at);
        if is_high(unit) && at + 3 < bytes.len() && is_low(unit_at(bytes, at + 2)) {
            seq![
                (0x10000 + (unit - 0xD800) * 0x400 + (unit_at(bytes, at + 2) - 0xDC00)) as char,
            ] + utf16be_text(bytes, at + 4)
        } else if is_high(unit) || is_low(unit) {
            seq![REPLACEMENT] + utf16be_text(bytes, at + 2)
        } else {
            seq![unit as char] + utf16be_text(bytes, at + 2)
        }
    }
}

fn scalar(code: u32) -> (c: char)
    requires
        code < 0xD800 || 0xE000 <= code <= 0x10FFFF,
    ensures
        c as int == code,
        c == code as char,
{
    match std::char::from_u32(code) {
        Some(c) => {
            proof {
                crate::text::lemma_char_code(c);
            }
            c
        },
        None => REPLACEMENT,
    }
}

fn decode_utf16be(bytes: &[u8]) -> (text: String)
    ensures
        text@ == utf16be_text(bytes@, 0),
{
    let ghost whole = utf16be_text(bytes@, 0);
    let length: usize = bytes.len();
    let mut text = String::new();
    let mut at: usize = 0;
    assert(text@ + utf16be_text(bytes@, 0) =~= whole);
    while at < length
        invariant
            at <= length,
            length == bytes@.len(),
            whole == utf16be_text(bytes@, 0),
            text@ + utf16be_text(bytes@, at as int) == whole,
        decreases length - at,
    {
        let ghost before = text@;
        let ghost start = at as int;
        if length - at == 1 {
            text.push(REPLACEMENT);
            assert(text@ =~= before + seq![REPLACEMENT]);
            return text;
        }
        let unit: u32 = bytes[at] as u32 * 256 + bytes[at + 1] as u32;
        assert(unit == unit_at(bytes@, start));
        if unit >= 0xD800 && unit < 0xE000 {
            let mut pair: Option<u32> = None;
            if unit < 0xDC00 && length - at >= 4 {
                let second: u32 = bytes[at + 2] as u32 * 256 + bytes[at + 3] as u32;
                assert(second == unit_at(bytes@, start + 2));
                if second >= 0xDC00 && second < 0xE000 {
                    pair = Some(0x10000 + (unit - 0xD800) * 0x400 + (second - 0xDC00));
                }
            }
            match pair {
                Some(code) => {
                    text.push(scalar(code));
                    at += 4;
                },
                None => {
                    text.push(REPLACEMENT);
                    at += 2;
                },
            }
        } else {
            text.push(scalar(unit));
            at += 2;
        }
        assert(text@ + utf16be_text(bytes@, at as int) =~= before + utf16be_text(bytes@, start));
    }
    assert(text@ + Seq::<char>::empty() =~= text@);
    text
}

/// The character that a byte of a text string stands for when the string has no
/// byte order mark.
pub open spec fn doc_encoding(byte: u8) -> char {
    match byte {
        0x80 => '\u{2022}',
        0x81 => '\u{2020}',
        0x82 => '\u{2021}',
        0x83 => '\u{2026}',
        0x84 => '\u{2014}',
        0x85 => '\u{2013}',
        0x86 => '\u{0192}',
        0x87 => '\u{2044}',
        0x88 => '\u{2039}',
        0x89 => '\u{203A}',
        0x8A => '\u{2212}',
        0x8B => '\u{2030}',
        0x8C => '\u{201E}',
        0x8D => '\u{201C}',
        0x8E => '\u{201D}',
        0x8F => '\u{2018}',
        0x90 => '\u{2019}',
        0x91 => '\u{201A}',
        0x92 => '\u{2122}',
        0x93 => '\u{FB01}',
        0x94 => '\u{FB02}',
        0x95 => '\u{0141}',
        0x96 => '\u{0152}',
        0x97 => '\u{0160}',
        0x98 => '\u{0178}',
        0x99 => '\u{017D}',
        0x9A => '\u{0131}',
        0x9B => '\u{0142}',
        0x9C => '\u{0153}',
        0x9D => '\u{0161}',
        0x9E => '\u{017E}',
        0x9F => '\u{FFFD}',
        _ => byte as char,
    }
}

/// The character that a byte stands for in PDFDocEncoding.
pub fn doc_encoded(byte: u8) -> (c: char)
    ensures
        c == doc_encoding(byte),
{
    match byte {
        0x80 => '\u{2022}',
        0x81 => '\u{2020}',
        0x82 => '\u{2021}',
        0x83 => '\u{2026}',
        0x84 => '\u{2014}',
        0x85 => '\u{2013}',
        0x86 => '\u{0192}',
        0x87 => '\u{2044}',
        0x88 => '\u{2039}',
        0x89 => '\u{203A}',
        0x8A => '\u{2212}',
        0x8B => '\u{2030}',
        0x8C => '\u{201E}',
        0x8D => '\u{201C}',
        0x8E => '\u{201D}',
        0x8F => '\u{2018}',
        0x90 => '\u{2019}',
        0x91 => '\u{201A}',
        0x92 => '\u{2122}',
        0x93 => '\u{FB01}',
        0x94 => '\u{FB02}',
        0x95 => '\u{0141}',
        0x96 => '\u{0152}',
        0x97 => '\u{0160}',
        0x98 => '\u{0178}',
        0x99 => '\u{017D}',
        0x9A => '\u{0131}',
        0x9B => '\u{0142}',
        0x9C => '\u{0153}',
        0x9D => '\u{0161}',
        0x9E => '\u{017E}',
        0x9F => '\u{FFFD}',
        _ => byte as char,
    }
}

/// The character that a byte stands for in PDFDocEncoding. Bytes that stand for
/// nothing become U+FFFD.
pub open spec fn pdf_doc_char(byte: u8) -> char {
    match byte {
        0x18 => '\u{02D8}',
        0x19 => '\u{02C7}',
        0x1A => '\u{02C6}',
        0x1B => '\u{02D9}',
        0x1C => '\u{02DD}',
        0x1D => '\u{02DB}',
        0x1E => '\u{02DA}',
        0x1F => '\u{02DC}',
        0x7F => '\u{FFFD}',
        0xA0 => '\u{20AC}',
        0xAD => '\u{FFFD}',
        _ => doc_encoding(byte),
    }
}

fn pdf_doc_encoding(byte: u8) -> (c: char)
    ensures
        c == pdf_doc_char(byte),
{
    match byte {
        0x18 => '\u{02D8}',
        0x19 => '\u{02C7}',
        0x1A => '\u{02C6}',
        0x1B => '\u{02D9}',
        0x1C => '\u{02DD}',
        0x1D => '\u{02DB}',
        0x1E => '\u{02DA}',
        0x1F => '\u{02DC}',
        0x7F => '\u{FFFD}',
        0xA0 => '\u{20AC}',
        0xAD => '\u{FFFD}',
        _ => doc_encoded(byte),
    }
}

/// The text that a text string stands for.
pub open spec fn text_string(bytes: Seq<u8>) -> Seq<char> {
    if bytes.len() >= 2 && bytes[0] == 0xFE && bytes[1] == 0xFF {
        utf16be_text(bytes.skip(2), 0)
    } else if bytes.len() >= 3 && bytes[0] == 0xEF && bytes[1] == 0xBB && bytes[2] == 0xBF {
        lossy_utf8(bytes.skip(3))
    } else {
        Seq::new(bytes.len(), |i: int| pdf_doc_char(bytes[i]))
    }
}

/// Decodes the bytes of a text string, whose escapes are resolved.
pub fn decode_text_string(bytes: &[u8]) -> (text: String)
    ensures
        text@ == text_string(bytes@),
{
    let length: usize = bytes.len();
    if length >= 2 && bytes[0] == 0xFE && bytes[1] == 0xFF {
        let rest = slice_subrange(bytes, 2, length);
        assert(rest@ =~= bytes@.skip(2));
        return decode_utf16be(rest);
    }
    if length >= 3 && bytes[0] == 0xEF && bytes[1] == 0xBB && bytes[2] == 0xBF {
        let rest = slice_subrange(bytes, 3, length);
        assert(rest@ =~= bytes@.skip(3));
        return text_from_utf8_lossy(rest);
    }
    let mut text = String::new();
    let mut i: usize = 0;
    while i < length
        invariant
            i <= length,
            length == bytes@.len(),
            text@ =~= Seq::new(i as nat, |k: int| pdf_doc_char(bytes@[k])),
        decreases length - i,
    {
        text.push(pdf_doc_encoding(bytes[i]));
        i += 1;
    }
    text
}

/// The bytes that hexadecimal digits stand for, two to the byte; an odd digit
/// at the end counts as if a zero followed it.
pub open spec fn unhexed(digits: Seq<nat>) -> Seq<u8> {
    Seq::new(
        (digits.len() + 1) / 2,
        |i: int|
            (digits[2 * i] * 16 + if 2 * i + 1 < digits.len() {
                digits[2 * i + 1]
            } else {
                0nat
            }) as u8,
    )
}

/// The bytes of a hexadecimal string. What is no digit is left out.
fn unhex(body: &[u8]) -> (out: Vec<u8>)
    ensures
        out@ == unhexed(hex_digit_values(body@)),
{
    let mut digits: Vec<u8> = Vec::new();
    let mut i: usize = 0;
    assert(body@.take(0) =~= Seq::empty());
    while i < body.len()
        invariant
            i <= body@.len(),
            digits@.len() == hex_digit_values(body@.take(i as int)).len(),
            forall|k: int|
                0 <= k < digits@.len() ==> (#[trigger] digits@[k]) < 16 && digits@[k]
                    == hex_digit_values(body@.take(i as int))[k],
        decreases body@.len() - i,
    {
        let ghost before = hex_digit_values(body@.take(i as int));
        assert(body@.take(i + 1).drop_last() =~= body@.take(i as int));
        if let Some(value) = hex_value(body[i]) {
            digits.push(value);
        }
        i += 1;
    }
    assert(body@.take(i as int) =~= body@);
    let ghost values = hex_digit_values(body@);
    let count: usize = digits.len();
    let mut out: Vec<u8> = Vec::new();
    let mut k: usize = 0;
    while k < count
        invariant
            k <= count,
            k % 2 == 0,
            count == digits@.len(),
            count == values.len(),
            values == hex_digit_values(body@),
            forall|j: int|
                0 <= j < digits@.len() ==> (#[trigger] digits@[j]) < 16 && digits@[j] == values[j],
            out@.len() == k / 2,
            forall|j: int| 0 <= j < out@.len() ==> #[trigger] out@[j] == unhexed(values)[j],
        decreases count - k,
    {
        let low: u8 = if count - k >= 2 {
            digits[k + 1]
        } else {
            0
        };
        let high: u8 = digits[k];
        out.push(high * 16 + low);
        if count - k < 2 {
            assert(out@ =~= unhexed(values));
            return out;
        }
        k += 2;
    }
    assert(out@ =~= unhexed(values));
    out
}

/// The text that a string token stands for, if it is one: what stands between
/// parentheses, or between angle brackets.
pub open spec fn token_text(token: Seq<u8>) -> Option<Seq<char>> {
    let body = token.subrange(1, token.len() - 1);
    if token.len() >= 2 && token[0] == 40 && token.last() == 41 {
        Some(text_string(unescaped_from(body, 0)))
    } else if token.len() >= 2 && token[0] == 60 && token.last() == 62 && !(body.len() > 0
        && body[0] == 60) {
        Some(text_string(unhexed(hex_digit_values(body))))
    } else {
        None
    }
}

proof fn lemma_plain(body: Seq<u8>, at: int)
    requires
        0 <= at <= body.len(),
        forall|i: int| 0 <= i < body.len() ==> #[trigger] body[i] != 92,
    ensures
        unescaped_from(body, at) == body.skip(at),
    decreases body.len() - at,
{
    if at < body.len() {
        lemma_plain(body, at + 1);
        assert(seq![body[at]] + body.skip(at + 1) =~= body.skip(at));
    } else {
        assert(body.skip(at) =~= Seq::empty());
    }
}

/// ASCII that could be typed is unchanged, whether it comes as bytes or as a
/// literal string.
pub proof fn law_plain_ascii_is_unchanged(bytes: Seq<u8>)
    requires
        forall|i: int| 0 <= i < bytes.len() ==> 0x20 <= #[trigger] bytes[i] < 0x7F,
    ensures
        text_string(bytes) == Seq::new(bytes.len(), |i: int| bytes[i] as char),
        (forall|i: int| 0 <= i < bytes.len() ==> #[trigger] bytes[i] != 92) ==> token_text(
            seq![40u8] + bytes + seq![41u8],
        ) == Some(Seq::new(bytes.len(), |i: int| bytes[i] as char)),
{
    let plain = Seq::new(bytes.len(), |i: int| bytes[i] as char);
    assert(text_string(bytes) =~= plain);
    if forall|i: int| 0 <= i < bytes.len() ==> #[trigger] bytes[i] != 92 {
        let token = seq![40u8] + bytes + seq![41u8];
        assert(token.subrange(1, token.len() - 1) =~= bytes);
        lemma_plain(bytes, 0);
        assert(bytes.skip(0) =~= bytes);
    }
}

/// Decodes a string token with its delimiters. Anything else is no string; what
/// opens a dictionary is none.
pub fn decode_text_string_token(token: &[u8]) -> (text: Option<String>)
    ensures
        match token_text(token@) {
            Some(found) => text matches Some(decoded) && decoded@ == found,
            None => text is None,
        },
{
    let length: usize = token.len();
    if length >= 2 && token[0] == 40 && token[length - 1] == 41 {
        let body = slice_subrange(token, 1, length - 1);
        let bytes = unescape_literal(body);
        return Some(decode_text_string(bytes.as_slice()));
    }
    if length >= 2 && token[0] == 60 && token[length - 1] == 62 {
        let body = slice_subrange(token, 1, length - 1);
        if body.len() > 0 && body[0] == 60 {
            return None;
        }
        let bytes = unhex(body);
        return Some(decode_text_string(bytes.as_slice()));
    }
    None
}

proof fn lemma_unescaped_behind(body: Seq<u8>, k: int, at: int)
    requires
        0 <= k <= at <= body.len(),
    ensures
        unescaped_from(body, at) == unescaped_from(body.skip(k), at - k),
    decreases body.len() - at,
{
    let rest = body.skip(k);
    if at < body.len() {
        assert(rest[at - k] == body[at]);
        if body[at] != 92 {
            lemma_unescaped_behind(body, k, at + 1);
        } else if at + 1 < body.len() {
            assert(rest[at - k + 1] == body[at + 1]);
            if at + 2 < body.len() {
                assert(rest[at - k + 2] == body[at + 2]);
            }
            if at + 3 < body.len() {
                assert(rest[at - k + 3] == body[at + 3]);
            }
            let end = octal_end(body, at + 1);
            if is_octal(body[at + 1]) {
                assert(body.subrange(at + 1, end) =~= rest.subrange(at - k + 1, end - k));
            }
            lemma_unescaped_behind(body, k, escape_at(body, at).1);
        }
    }
}

/// A backslash and three octal digits stand for the byte that has these digits.
pub proof fn law_octal_digits_stand_for_a_byte(byte: u8, rest: Seq<u8>)
    ensures
        unescaped_from(
            seq![
                92u8,
                (48 + byte / 64) as u8,
                (48 + byte / 8 % 8) as u8,
                (48 + byte % 8) as u8,
            ] + rest,
            0,
        ) == seq![byte] + unescaped_from(rest, 0),
{
    let digits = seq![(48 + byte / 64) as u8, (48 + byte / 8 % 8) as u8, (48 + byte % 8) as u8];
    let body = seq![
        92u8,
        (48 + byte / 64) as u8,
        (48 + byte / 8 % 8) as u8,
        (48 + byte % 8) as u8,
    ] + rest;
    assert(body.subrange(1, 4) =~= digits);
    assert(digits.drop_last() =~= seq![digits[0], digits[1]]);
    assert(digits.drop_last().drop_last() =~= seq![digits[0]]);
    assert(digits.drop_last().drop_last().drop_last() =~= Seq::empty());
    reveal_with_fuel(octal_value, 4);
    assert(octal_value(digits) == byte);
    assert(is_octal(body[1]) && is_octal(body[2]) && is_octal(body[3]));
    assert(escape_at(body, 0) == (seq![byte], 4int));
    lemma_unescaped_behind(body, 4, 4);
    assert(body.skip(4) =~= rest);
}

/// Two hexadecimal digits stand for a byte; a last one without another stands
/// for what it does before a zero.
pub proof fn law_hexadecimal_digits_stand_for_bytes(digits: Seq<nat>, i: int)
    requires
        0 <= i < digits.len(),
        forall|j: int| 0 <= j < digits.len() ==> #[trigger] digits[j] < 16,
    ensures
        digits.len() <= 2 * unhexed(digits).len() <= digits.len() + 1,
        i % 2 == 0 ==> unhexed(digits)[i / 2] / 16 == digits[i],
        i % 2 == 1 ==> unhexed(digits)[i / 2] % 16 == digits[i],
        digits.len() % 2 == 1 ==> unhexed(digits).last() % 16 == 0,
{
    assert(digits[2 * (i / 2)] < 16);
    if 2 * (i / 2) + 1 < digits.len() {
        assert(digits[2 * (i / 2) + 1] < 16);
    }
    assert(digits[digits.len() - 1] < 16);
}

/// Of the bytes of a text without a mark, those of ASCII and those of the upper half
/// of Latin-1 stand for the character of their own number, but for a few; and no two
/// bytes stand for the same character, but for those that stand for none.
pub proof fn law_bytes_stand_for_characters(one: u8, two: u8)
    ensures
        0x20 <= one < 0x7F || (one > 0xA0 && one != 0xAD) ==> pdf_doc_char(one) as int == one,
        pdf_doc_char(one) == pdf_doc_char(two) && pdf_doc_char(one) != REPLACEMENT ==> one == two,
{
}

} // verus!
