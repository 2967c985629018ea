//! Reading PDF values from tokens.

use crate::bytes::{repeated, same_bytes, utf8};
use crate::number::{
    all_digits, digits_to_long, digits_value, integer_of, only_digits, parse_integer,
    parse_unsigned, unsigned_of,
};
use crate::pdfwrite::object::{
    entry_values, item_values, lemma_container_values, PdfObject, PdfValue, Real,
};
use crate::pdfwrite::tokenizer::token_views;
use crate::text::{lossy_utf8, text_from_utf8, text_from_utf8_lossy};
use vstd::prelude::*;
use vstd::slice::slice_subrange;
use vstd::utf8::{decode_utf8, valid_utf8};

verus! {

/// How deep values may be nested.
pub const MAX_VALUE_DEPTH: usize = 64;

/// Why a value could not be read.
#[derive(Debug, Clone, Copy, PartialEq, Eq, Structural)]
pub enum ValueError {
    /// Values are nested deeper than [`MAX_VALUE_DEPTH`].
    TooDeep,
    /// The tokens are no PDF value.
    Malformed,
}

/// A literal string without its escapes: a backslash goes, and the byte after
/// it stays whatever it is.
pub open spec fn unescaped(bytes: Seq<u8>) -> Seq<u8>
    decreases bytes.len(),
{
    if bytes.len() == 0 {
        Seq::empty()
    } else if bytes[0] != 0x5C {
        seq![bytes[0]] + unescaped(bytes.drop_first())
    } else if bytes.len() == 1 {
        Seq::empty()
    } else {
        seq![bytes[1]] + unescaped(bytes.skip(2))
    }
}

/// Where the body of a literal string ends, with `depth` parentheses open at
/// `at`: on the parenthesis that closes the last, or at the end of the token.
pub open spec fn body_end(token: Seq<u8>, at: int, depth: nat) -> int
    decreases token.len() - at,
{
    if at >= token.len() {
        token.len() as int
    } else if token[at] == 0x5C && at + 1 < token.len() {
        body_end(token, at + 2, depth)
    } else if token[at] == 0x28 {
        body_end(token, at + 1, depth + 1)
    } else if token[at] == 0x29 {
        if depth <= 1 {
            at
        } else {
            body_end(token, at + 1, (depth - 1) as nat)
        }
    } else {
        body_end(token, at + 1, depth)
    }
}

/// A literal string. One that is never closed is taken whole.
pub open spec fn literal_value(token: Seq<u8>) -> PdfValue {
    let end = body_end(token, 1, 1);
    let body = unescaped(token.subrange(1, end));
    if end < token.len() {
        PdfValue::RawString(body)
    } else {
        PdfValue::String(body)
    }
}

/// The value of a hexadecimal digit, or nothing.
pub open spec fn hex_digit_value(byte: u8) -> Option<nat> {
    if 48 <= byte <= 57 {
        Some((byte - 48) as nat)
    } else if 65 <= byte <= 70 {
        Some((byte - 55) as nat)
    } else if 97 <= byte <= 102 {
        Some((byte - 87) as nat)
    } else {
        None
    }
}

/// The values of the hexadecimal digits of a text; other bytes are passed over.
pub open spec fn hex_digit_values(bytes: Seq<u8>) -> Seq<nat>
    decreases bytes.len(),
{
    if bytes.len() == 0 {
        Seq::empty()
    } else {
        match hex_digit_value(bytes.last()) {
            Some(v) => hex_digit_values(bytes.drop_last()).push(v),
            None => hex_digit_values(bytes.drop_last()),
        }
    }
}

/// The bytes that pairs of hexadecimal digits stand for; a last digit without
/// a partner is dropped.
pub open spec fn paired(digits: Seq<nat>) -> Seq<u8> {
    Seq::new(digits.len() / 2, |i: int| (digits[2 * i] * 16 + digits[2 * i + 1]) as u8)
}

/// A decimal fraction in its two runs of digits, before and after the point.
pub open spec fn fraction_parts(body: Seq<u8>) -> (Seq<u8>, Seq<u8>) {
    let point = crate::pdfwrite::tokenizer::next_of(body, 0x2E, 0);
    if point < body.len() {
        (body.take(point), body.skip(point + 1))
    } else {
        (body, Seq::empty())
    }
}

/// The first six digits after the point, filled up with zeros.
pub open spec fn six_places(fraction: Seq<u8>) -> Seq<u8> {
    Seq::new(
        6,
        |i: int|
            if i < fraction.len() {
                fraction[i]
            } else {
                48u8
            },
    )
}

/// Does what is left after the sixth place round the number up? Halves go to
/// the even neighbour.
pub open spec fn rounds_up(rest: Seq<u8>, kept: nat) -> bool {
    &&& rest.len() > 0
    &&& rest[0] >= 53
    &&& rest[0] > 53 || kept % 2 == 1 || exists|i: int|
        1 <= i < rest.len() && #[trigger] rest[i] != 48
}

/// Where the mark of an exponent stands from `at` on, or the end.
pub open spec fn exponent_mark(body: Seq<u8>, at: int) -> int
    decreases body.len() - at,
{
    if at >= body.len() || body[at] == 0x65 || body[at] == 0x45 {
        at
    } else {
        exponent_mark(body, at + 1)
    }
}

/// The largest exponent, on either side of zero.
pub const MAX_EXPONENT: u64 = 9_999;

/// The exponent that a text stands for.
pub open spec fn exponent_of(text: Seq<u8>) -> Option<int> {
    if text.len() > 0 && text[0] == 45 {
        if text.len() > 1 && text[1] == 43 {
            None
        } else {
            match unsigned_of(text.drop_first(), MAX_EXPONENT as nat) {
                Some(n) => Some(-n),
                None => None,
            }
        }
    } else {
        match unsigned_of(text, MAX_EXPONENT as nat) {
            Some(n) => Some(n as int),
            None => None,
        }
    }
}

/// Two runs of digits with the point moved by an exponent, and zeros where it
/// leaves them.
pub open spec fn scaled(whole: Seq<u8>, fraction: Seq<u8>, exponent: int) -> (Seq<u8>, Seq<u8>) {
    let digits = whole + fraction;
    let point = whole.len() + exponent;
    if point < 0 {
        (Seq::empty(), repeated(48, (-point) as nat) + digits)
    } else if point <= digits.len() {
        (digits.take(point), digits.skip(point))
    } else {
        (digits + repeated(48, (point - digits.len()) as nat), Seq::empty())
    }
}

/// The digits of a number before and after its point, without an exponent.
pub open spec fn real_parts(body: Seq<u8>) -> Option<(Seq<u8>, Seq<u8>)> {
    let mark = exponent_mark(body, 0);
    let (whole, fraction) = fraction_parts(body.take(mark));
    if whole.len() + fraction.len() == 0 || !all_digits(whole) || !all_digits(fraction) {
        None
    } else if mark >= body.len() {
        Some((whole, fraction))
    } else {
        match exponent_of(body.skip(mark + 1)) {
            Some(exponent) => Some(scaled(whole, fraction, exponent)),
            None => None,
        }
    }
}

/// A number with these digits before and after its point, to the nearest
/// millionth.
pub open spec fn millionths_in(whole: Seq<u8>, fraction: Seq<u8>) -> nat {
    let kept = digits_value(whole + six_places(fraction));
    kept + if fraction.len() > 6 && rounds_up(fraction.skip(6), kept) {
        1nat
    } else {
        0nat
    }
}

/// The number a text stands for, to the nearest millionth, when it is a
/// decimal fraction in range, with an exponent or without.
pub open spec fn real_of(bytes: Seq<u8>) -> Option<Real> {
    let negative = bytes.len() > 0 && bytes[0] == 45;
    let body = if negative || (bytes.len() > 0 && bytes[0] == 43) {
        bytes.drop_first()
    } else {
        bytes
    };
    match real_parts(body) {
        Some((whole, fraction)) => {
            let millionths = millionths_in(whole, fraction);
            if millionths <= u128::MAX {
                Some(Real { negative, millionths: millionths as u128 })
            } else {
                None
            }
        },
        None => None,
    }
}

/// The tokens at `index` are an indirect reference: a number that is not
/// negative, a generation and `R`.
pub open spec fn is_reference_at(tokens: Seq<Seq<u8>>, index: int) -> bool {
    &&& index + 2 < tokens.len()
    &&& unsigned_of(tokens[index + 1], 0xFFFF) is Some
    &&& tokens[index + 2] == utf8("R"@)
}

/// A value that is one token long, or an indirect reference.
pub open spec fn scalar_at(tokens: Seq<Seq<u8>>, index: int) -> Result<(PdfValue, int), ValueError> {
    let token = tokens[index];
    if token.len() > 0 && token[0] == 0x28 {
        Ok((literal_value(token), index + 1))
    } else if token.len() > 0 && token[0] == 0x2F {
        Ok((PdfValue::Name(lossy_utf8(token.drop_first())), index + 1))
    } else if token.len() > 0 && token[0] == 0x3C {
        Ok((PdfValue::HexString(paired(hex_digit_values(token))), index + 1))
    } else if token == utf8("true"@) {
        Ok((PdfValue::Boolean(true), index + 1))
    } else if token == utf8("false"@) {
        Ok((PdfValue::Boolean(false), index + 1))
    } else if token == utf8("null"@) {
        Ok((PdfValue::Null, index + 1))
    } else {
        match integer_of(token) {
            Some(number) => if number >= 0 && is_reference_at(tokens, index) {
                Ok(
                    (
                        PdfValue::IndirectRef {
                            obj_num: (number % 0x1_0000_0000) as nat,
                            gen_num: unsigned_of(tokens[index + 1], 0xFFFF)->0,
                        },
                        index + 3,
                    ),
                )
            } else {
                Ok((PdfValue::Integer(number), index + 1))
            },
            None => match real_of(token) {
                Some(number) => Ok((PdfValue::Real(number), index + 1)),
                None => Err(ValueError::Malformed),
            },
        }
    }
}

/// The value that starts at `index`, nested `depth` deep, and the index just
/// past it.
pub open spec fn value_at(tokens: Seq<Seq<u8>>, index: int, depth: nat) -> Result<
    (PdfValue, int),
    ValueError,
>
    decreases tokens.len() - index, 0nat,
{
    if depth > MAX_VALUE_DEPTH {
        Err(ValueError::TooDeep)
    } else if !(0 <= index < tokens.len()) {
        Err(ValueError::Malformed)
    } else if tokens[index] == utf8("<<"@) {
        match entries_at(tokens, index + 1, depth, Seq::empty()) {
            Ok((entries, end)) => Ok((PdfValue::Dictionary(entries), end)),
            Err(e) => Err(e),
        }
    } else if tokens[index] == utf8("["@) {
        match items_at(tokens, index + 1, depth, Seq::empty()) {
            Ok((items, end)) => Ok((PdfValue::Array(items), end)),
            Err(e) => Err(e),
        }
    } else {
        scalar_at(tokens, index)
    }
}

/// The entries of a dictionary from `index` to its `>>`, after those before.
pub open spec fn entries_at(
    tokens: Seq<Seq<u8>>,
    index: int,
    depth: nat,
    before: Seq<(Seq<char>, PdfValue)>,
) -> Result<(Seq<(Seq<char>, PdfValue)>, int), ValueError>
    decreases tokens.len() - index, 1nat,
{
    if !(0 <= index < tokens.len()) {
        Err(ValueError::Malformed)
    } else if tokens[index] == utf8(">>"@) {
        Ok((before, index + 1))
    } else if !(tokens[index].len() > 0 && tokens[index][0] == 0x2F && valid_utf8(tokens[index])) {
        Err(ValueError::Malformed)
    } else {
        match value_at(tokens, index + 1, depth + 1) {
            Ok((value, next)) => if index + 1 < next <= tokens.len() {
                entries_at(
                    tokens,
                    next,
                    depth,
                    before.push((decode_utf8(tokens[index]).drop_first(), value)),
                )
            } else {
                Err(ValueError::Malformed)
            },
            Err(e) => Err(e),
        }
    }
}

/// The items of an array from `index` to its `]`, after those before.
pub open spec fn items_at(
    tokens: Seq<Seq<u8>>,
    index: int,
    depth: nat,
    before: Seq<PdfValue>,
) -> Result<(Seq<PdfValue>, int), ValueError>
    decreases tokens.len() - index, 1nat,
{
    if !(0 <= index < tokens.len()) {
        Err(ValueError::Malformed)
    } else if tokens[index] == utf8("]"@) {
        Ok((before, index + 1))
    } else {
        match value_at(tokens, index, depth + 1) {
            Ok((value, next)) => if index < next <= tokens.len() {
                items_at(tokens, next, depth, before.push(value))
            } else {
                Err(ValueError::Malformed)
            },
            Err(e) => Err(e),
        }
    }
}

proof fn lemma_unescaped_push(done: Seq<u8>, rest: Seq<u8>)
    ensures
        rest.len() > 0 && rest[0] != 0x5C ==> done + unescaped(rest) == done.push(rest[0])
            + unescaped(rest.drop_first()),
        rest.len() > 1 && rest[0] == 0x5C ==> done + unescaped(rest) == done.push(rest[1])
            + unescaped(rest.skip(2)),
{
    if rest.len() > 0 && rest[0] != 0x5C {
        assert(done + (seq![rest[0]] + unescaped(rest.drop_first())) =~= done.push(rest[0])
            + unescaped(rest.drop_first()));
    }
    if rest.len() > 1 && rest[0] == 0x5C {
        assert(done + (seq![rest[1]] + unescaped(rest.skip(2))) =~= done.push(rest[1]) + unescaped(
            rest.skip(2),
        ));
    }
}

/// A literal string without its escapes.
pub fn unescape_bytes(bytes: &[u8]) -> (out: Vec<u8>)
    ensures
        out@ == unescaped(bytes@),
{
    let mut out: Vec<u8> = Vec::new();
    let mut i: usize = 0;
    assert(bytes@.skip(0) =~= bytes@);
    assert(out@ + unescaped(bytes@) =~= unescaped(bytes@));
    while i < bytes.len()
        invariant
            i <= bytes@.len(),
            out@ + unescaped(bytes@.skip(i as int)) == unescaped(bytes@),
        decreases bytes@.len() - i,
    {
        let ghost rest = bytes@.skip(i as int);
        proof {
            lemma_unescaped_push(out@, rest);
            assert(rest.drop_first() =~= bytes@.skip(i + 1));
            if rest.len() > 1 {
                assert(rest.skip(2) =~= bytes@.skip(i + 2));
            }
        }
        if bytes[i] != 0x5C {
            out.push(bytes[i]);
            i += 1;
        } else if bytes.len() - i == 1 {
            assert(unescaped(rest) =~= Seq::<u8>::empty());
            assert(bytes@.skip(i + 1) =~= Seq::<u8>::empty());
            i += 1;
        } else {
            out.push(bytes[i + 1]);
            i += 2;
        }
    }
    assert(bytes@.skip(i as int) =~= Seq::<u8>::empty());
    assert(out@ =~= unescaped(bytes@));
    out
}

fn read_literal(token: &[u8]) -> (object: PdfObject)
    requires
        token@.len() > 0,
    ensures
        object@ == literal_value(token@),
{
    let mut i: usize = 1;
    let mut depth: usize = 1;
    let length: usize = token.len();
    while i < token.len()
        invariant
            1 <= i <= token@.len(),
            length == token@.len(),
            1 <= depth <= i,
            body_end(token@, i as int, depth as nat) == body_end(token@, 1, 1),
        decreases token@.len() - i,
    {
        let byte: u8 = token[i];
        if byte == 0x5C && token.len() - i > 1 {
            i += 2;
        } else if byte == 0x28 {
            depth += 1;
            i += 1;
        } else if byte == 0x29 {
            if depth == 1 {
                return PdfObject::RawString(unescape_bytes(slice_subrange(token, 1, i)));
            }
            depth -= 1;
            i += 1;
        } else {
            i += 1;
        }
    }
    PdfObject::String(unescape_bytes(slice_subrange(token, 1, length)))
}

/// The value of a hexadecimal digit.
pub fn hex_value(byte: u8) -> (value: Option<u8>)
    ensures
        match value {
            Some(v) => v < 16 && hex_digit_value(byte) == Some(v as nat),
            None => hex_digit_value(byte) is None,
        },
{
    match byte {
        48..=57 => Some(byte - 48),
        65..=70 => Some(byte - 55),
        97..=102 => Some(byte - 87),
        _ => None,
    }
}

/// The bytes that the hexadecimal digits of a text stand for.
pub fn read_hex(bytes: &[u8]) -> (out: Vec<u8>)
    ensures
        out@ == paired(hex_digit_values(bytes@)),
{
    let mut out: Vec<u8> = Vec::new();
    let mut high: u8 = 0;
    let mut odd = false;
    let mut i: usize = 0;
    assert(bytes@.take(0) =~= Seq::<u8>::empty());
    while i < bytes.len()
        invariant
            i <= bytes@.len(),
            ({
                let seen = hex_digit_values(bytes@.take(i as int));
                &&& out@ == paired(seen)
                &&& odd == (seen.len() % 2 == 1)
                &&& odd ==> high == seen.last() && high < 16
            }),
        decreases bytes@.len() - i,
    {
        let ghost seen = hex_digit_values(bytes@.take(i as int));
        proof {
            assert(bytes@.take(i + 1).drop_last() =~= bytes@.take(i as int));
        }
        if let Some(value) = hex_value(bytes[i]) {
            let ghost longer = seen.push(value as nat);
            assert(hex_digit_values(bytes@.take(i + 1)) == longer);
            if odd {
                out.push(high * 16 + value);
                odd = false;
                assert(out@ =~= paired(longer));
            } else {
                high = value;
                odd = true;
                assert(out@ =~= paired(longer));
            }
        }
        i += 1;
    }
    assert(bytes@.take(i as int) =~= bytes@);
    out
}

fn find_exponent_mark(body: &[u8]) -> (mark: usize)
    ensures
        mark == exponent_mark(body@, 0),
        mark <= body@.len(),
{
    let mut mark: usize = 0;
    while mark < body.len() && body[mark] != 0x65 && body[mark] != 0x45
        invariant
            mark <= body@.len(),
            exponent_mark(body@, mark as int) == exponent_mark(body@, 0),
        decreases body@.len() - mark,
    {
        mark += 1;
    }
    mark
}

fn parse_exponent(text: &[u8]) -> (exponent: Option<i32>)
    ensures
        match exponent {
            Some(n) => exponent_of(text@) == Some(n as int) && -9_999 <= n <= 9_999,
            None => exponent_of(text@) is None,
        },
{
    if text.len() > 0 && text[0] == 45 {
        if text.len() > 1 && text[1] == 43 {
            return None;
        }
        let digits = slice_subrange(text, 1, text.len());
        assert(digits@ =~= text@.drop_first());
        match parse_unsigned(digits, MAX_EXPONENT) {
            Some(n) => {
                proof {
                    crate::number::lemma_unsigned_bound(digits@, MAX_EXPONENT as nat);
                }
                Some(-(n as i32))
            },
            None => None,
        }
    } else {
        match parse_unsigned(text, MAX_EXPONENT) {
            Some(n) => {
                proof {
                    crate::number::lemma_unsigned_bound(text@, MAX_EXPONENT as nat);
                }
                Some(n as i32)
            },
            None => None,
        }
    }
}

fn find_fraction_parts<'a>(body: &'a [u8]) -> (parts: (&'a [u8], &'a [u8]))
    ensures
        (parts.0@, parts.1@) == fraction_parts(body@),
        parts.0@.len() + parts.1@.len() <= body@.len(),
{
    let mut point: usize = 0;
    while point < body.len() && body[point] != 0x2E
        invariant
            point <= body@.len(),
            crate::pdfwrite::tokenizer::next_of(body@, 0x2E, point as int)
                == crate::pdfwrite::tokenizer::next_of(body@, 0x2E, 0),
        decreases body@.len() - point,
    {
        point += 1;
    }
    let whole = slice_subrange(body, 0, point);
    let fraction = if point < body.len() {
        slice_subrange(body, point + 1, body.len())
    } else {
        slice_subrange(body, point, body.len())
    };
    assert(whole@ =~= fraction_parts(body@).0);
    assert(fraction@ =~= fraction_parts(body@).1);
    (whole, fraction)
}

fn scale(whole: &[u8], fraction: &[u8], exponent: i32) -> (parts: (Vec<u8>, Vec<u8>))
    requires
        all_digits(whole@),
        all_digits(fraction@),
    ensures
        (parts.0@, parts.1@) == scaled(whole@, fraction@, exponent as int),
        all_digits(parts.0@),
        all_digits(parts.1@),
{
    let mut digits = crate::bytes::copy_bytes(whole);
    crate::bytes::push_bytes(&mut digits, fraction);
    let ghost all = whole@ + fraction@;
    assert(digits@ =~= all);
    let point: i128 = whole.len() as i128 + exponent as i128;
    let total: usize = digits.len();
    if point < 0 {
        let before: Vec<u8> = Vec::new();
        let mut after: Vec<u8> = Vec::new();
        crate::bytes::push_repeated(&mut after, 48, (-point) as usize);
        crate::bytes::push_bytes(&mut after, digits.as_slice());
        assert(after@ =~= repeated(48, (-point) as nat) + all);
        assert(before@ =~= Seq::empty());
        (before, after)
    } else if point <= total as i128 {
        let at: usize = point as usize;
        let before = crate::bytes::copy_bytes(slice_subrange(digits.as_slice(), 0, at));
        let after = crate::bytes::copy_bytes(slice_subrange(digits.as_slice(), at, total));
        assert(before@ =~= all.take(point as int));
        assert(after@ =~= all.skip(point as int));
        (before, after)
    } else {
        let after: Vec<u8> = Vec::new();
        let more: usize = (point - total as i128) as usize;
        crate::bytes::push_repeated(&mut digits, 48, more);
        assert(digits@ =~= all + repeated(48, more as nat));
        assert(after@ =~= Seq::empty());
        (digits, after)
    }
}

fn round(whole: &[u8], fraction: &[u8]) -> (millionths: Option<u128>)
    requires
        all_digits(whole@),
        all_digits(fraction@),
    ensures
        match millionths {
            Some(n) => millionths_in(whole@, fraction@) == n,
            None => millionths_in(whole@, fraction@) > u128::MAX,
        },
{
    let mut digits = crate::bytes::copy_bytes(whole);
    let mut i: usize = 0;
    while i < 6
        invariant
            i <= 6,
            all_digits(fraction@),
            digits@ == whole@ + six_places(fraction@).take(i as int),
        decreases 6 - i,
    {
        if i < fraction.len() {
            digits.push(fraction[i]);
        } else {
            digits.push(48);
        }
        i += 1;
        assert(digits@ =~= whole@ + six_places(fraction@).take(i as int));
    }
    assert(six_places(fraction@).take(6) =~= six_places(fraction@));
    assert(all_digits(digits@));
    let kept: u128 = match digits_to_long(digits.as_slice()) {
        Some(kept) => kept,
        None => return None,
    };
    let mut up = false;
    if fraction.len() > 6 {
        let rest = slice_subrange(fraction, 6, fraction.len());
        assert(rest@ =~= fraction@.skip(6));
        if rest[0] > 53 {
            up = true;
        } else if rest[0] == 53 {
            up = kept % 2 == 1;
            let mut j: usize = 1;
            while j < rest.len()
                invariant
                    1 <= j <= rest@.len(),
                    up == (kept % 2 == 1 || exists|k: int| 1 <= k < j && #[trigger] rest@[k] != 48),
                decreases rest@.len() - j,
            {
                if rest[j] != 48 {
                    up = true;
                }
                j += 1;
            }
        }
        assert(up == rounds_up(rest@, kept as nat));
    }
    if up {
        if kept == u128::MAX {
            return None;
        }
        Some(kept + 1)
    } else {
        Some(kept)
    }
}

/// The number a text stands for, to the nearest millionth.
pub fn parse_real(bytes: &[u8]) -> (number: Option<Real>)
    ensures
        number == real_of(bytes@),
{
    let negative = bytes.len() > 0 && bytes[0] == 45;
    let signed = negative || (bytes.len() > 0 && bytes[0] == 43);
    let body = if signed {
        slice_subrange(bytes, 1, bytes.len())
    } else {
        bytes
    };
    assert(signed ==> body@ =~= bytes@.drop_first());
    let mark = find_exponent_mark(body);
    let mantissa = slice_subrange(body, 0, mark);
    assert(mantissa@ =~= body@.take(mark as int));
    let (whole, fraction) = find_fraction_parts(mantissa);
    if (whole.len() == 0 && fraction.len() == 0) || !only_digits(whole) || !only_digits(fraction) {
        return None;
    }
    let millionths = if mark < body.len() {
        let text = slice_subrange(body, mark + 1, body.len());
        assert(text@ =~= body@.skip(mark + 1));
        let exponent: i32 = match parse_exponent(text) {
            Some(exponent) => exponent,
            None => return None,
        };
        let (before, after) = scale(whole, fraction, exponent);
        round(before.as_slice(), after.as_slice())
    } else {
        round(whole, fraction)
    };
    match millionths {
        Some(millionths) => Some(Real { negative, millionths }),
        None => None,
    }
}

fn starts_with(token: &[u8], byte: u8) -> (starts: bool)
    ensures
        starts == (token@.len() > 0 && token@[0] == byte),
{
    token.len() > 0 && token[0] == byte
}

/// What was read: an object and the index just past it, or an error.
pub open spec fn read_result(result: Result<(PdfObject, usize), ValueError>) -> Result<
    (PdfValue, int),
    ValueError,
> {
    match result {
        Ok((object, next)) => Ok((object@, next as int)),
        Err(e) => Err(e),
    }
}

fn read_scalar(tokens: &[Vec<u8>], index: usize) -> (result: Result<(PdfObject, usize), ValueError>)
    requires
        index < tokens@.len(),
    ensures
        read_result(result) == scalar_at(token_views(tokens@), index as int),
        result matches Ok((_, next)) ==> index < next <= tokens@.len(),
{
    let ghost views = token_views(tokens@);
    let token: &[u8] = tokens[index].as_slice();
    assert(token@ == views[index as int]);
    if starts_with(token, 0x28) {
        return Ok((read_literal(token), index + 1));
    }
    if starts_with(token, 0x2F) {
        let rest = slice_subrange(token, 1, token.len());
        assert(rest@ =~= token@.drop_first());
        return Ok((PdfObject::Name(text_from_utf8_lossy(rest)), index + 1));
    }
    if starts_with(token, 0x3C) {
        return Ok((PdfObject::HexString(read_hex(token)), index + 1));
    }
    if same_bytes(token, "true".as_bytes()) {
        return Ok((PdfObject::Boolean(true), index + 1));
    }
    if same_bytes(token, "false".as_bytes()) {
        return Ok((PdfObject::Boolean(false), index + 1));
    }
    if same_bytes(token, "null".as_bytes()) {
        return Ok((PdfObject::Null, index + 1));
    }
    match parse_integer(token) {
        Some(number) => {
            if number >= 0 && tokens.len() - index > 2 {
                assert(views[index + 1] == tokens@[index + 1]@);
                assert(views[index + 2] == tokens@[index + 2]@);
                if let Some(generation) = parse_unsigned(tokens[index + 1].as_slice(), 0xFFFF) {
                    if same_bytes(tokens[index + 2].as_slice(), "R".as_bytes()) {
                        let unsigned: u64 = number as u64;
                        let obj_num: u32 = (unsigned % 0x1_0000_0000) as u32;
                        return Ok(
                            (
                                PdfObject::IndirectRef { obj_num, gen_num: generation as u16 },
                                index + 3,
                            ),
                        );
                    }
                }
            }
            Ok((PdfObject::Integer(number), index + 1))
        },
        None => match parse_real(token) {
            Some(number) => Ok((PdfObject::Real(number), index + 1)),
            None => Err(ValueError::Malformed),
        },
    }
}

/// Reads the value that starts at `index`, nested `depth` deep, and says where
/// the next one starts.
pub fn read_value(tokens: &[Vec<u8>], index: usize, depth: usize) -> (result: Result<
    (PdfObject, usize),
    ValueError,
>)
    ensures
        read_result(result) == value_at(token_views(tokens@), index as int, depth as nat),
        result matches Ok((_, next)) ==> index < next <= tokens@.len(),
    decreases tokens@.len() - index, 0nat,
{
    let ghost views = token_views(tokens@);
    if depth > MAX_VALUE_DEPTH {
        return Err(ValueError::TooDeep);
    }
    if index >= tokens.len() {
        return Err(ValueError::Malformed);
    }
    assert(views[index as int] == tokens@[index as int]@);
    if same_bytes(tokens[index].as_slice(), "<<".as_bytes()) {
        let mut entries: Vec<(String, PdfObject)> = Vec::new();
        let mut i: usize = index + 1;
        assert(entry_values(entries@) =~= Seq::empty());
        while i < tokens.len()
            invariant
                index < i <= tokens@.len(),
                depth <= MAX_VALUE_DEPTH,
                views == token_views(tokens@),
                entries_at(views, i as int, depth as nat, entry_values(entries@)) == entries_at(
                    views,
                    index + 1,
                    depth as nat,
                    Seq::empty(),
                ),
                views[index as int] == utf8("<<"@),
            decreases tokens@.len() - i,
        {
            assert(views[i as int] == tokens@[i as int]@);
            let key: &[u8] = tokens[i].as_slice();
            if same_bytes(key, ">>".as_bytes()) {
                let object = PdfObject::Dictionary(entries);
                proof {
                    lemma_container_values(object);
                }
                return Ok((object, i + 1));
            }
            if !starts_with(key, 0x2F) {
                return Err(ValueError::Malformed);
            }
            let name = match text_from_utf8(key) {
                Some(name) => name,
                None => return Err(ValueError::Malformed),
            };
            let name = without_first(name.as_str());
            match read_value(tokens, i + 1, depth + 1) {
                Ok((value, next)) => {
                    let ghost before = entry_values(entries@);
                    entries.push((name, value));
                    assert(entry_values(entries@) =~= before.push((name@, value@)));
                    i = next;
                },
                Err(e) => return Err(e),
            }
        }
        return Err(ValueError::Malformed);
    }
    if same_bytes(tokens[index].as_slice(), "[".as_bytes()) {
        let mut items: Vec<PdfObject> = Vec::new();
        let mut i: usize = index + 1;
        assert(item_values(items@) =~= Seq::empty());
        while i < tokens.len()
            invariant
                index < i <= tokens@.len(),
                depth <= MAX_VALUE_DEPTH,
                views == token_views(tokens@),
                items_at(views, i as int, depth as nat, item_values(items@)) == items_at(
                    views,
                    index + 1,
                    depth as nat,
                    Seq::empty(),
                ),
                views[index as int] == utf8("["@),
                utf8("["@) != utf8("<<"@),
            decreases tokens@.len() - i,
        {
            assert(views[i as int] == tokens@[i as int]@);
            if same_bytes(tokens[i].as_slice(), "]".as_bytes()) {
                let object = PdfObject::Array(items);
                proof {
                    lemma_container_values(object);
                }
                return Ok((object, i + 1));
            }
            match read_value(tokens, i, depth + 1) {
                Ok((value, next)) => {
                    let ghost before = item_values(items@);
                    items.push(value);
                    assert(item_values(items@) =~= before.push(value@));
                    i = next;
                },
                Err(e) => return Err(e),
            }
        }
        return Err(ValueError::Malformed);
    }
    read_scalar(tokens, index)
}

/// A text without its first character.
fn without_first(text: &str) -> (out: String)
    requires
        text@.len() > 0,
    ensures
        out@ == text@.drop_first(),
{
    let chars = crate::text::chars_of(text);
    let rest = slice_subrange(chars.as_slice(), 1, chars.len());
    let out = crate::text::text_of(rest);
    assert(out@ =~= text@.drop_first());
    out
}

} // verus!
