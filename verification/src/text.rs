//! Building and comparing texts.

use crate::bytes::{decimal, same_bytes, utf8};
use vstd::prelude::*;
use vstd::string::*;
use vstd::utf8::{
    decode_utf8, encode_utf8_decode_utf8, is_ascii_chars, is_ascii_chars_encode_utf8, valid_utf8,
};

verus! {

/// `String::push` of the standard library: appends one character.
pub assume_specification[ std::string::String::push ](text: &mut std::string::String, c: char)
    ensures
        final(text)@ == old(text)@.push(c),
;

/// `char::from_u32` of the standard library: the character with this code,
/// where the code is a Unicode scalar value.
pub assume_specification[ std::char::from_u32 ](code: u32) -> (c: Option<char>)
    ensures
        match c {
            Some(found) => found as u32 == code && (code < 0xD800 || 0xE000 <= code <= 0x10FFFF),
            None => 0xD800 <= code < 0xE000 || code > 0x10FFFF,
        },
;

/// `std::str::from_utf8`: a text when the bytes are valid UTF-8, and an error
/// when they are not. The text is the one that encodes to those bytes.
#[verifier::external_body]
pub(crate) fn text_from_utf8(bytes: &[u8]) -> (text: Option<String>)
    ensures
        match text {
            Some(found) => valid_utf8(bytes@) && found@ == decode_utf8(bytes@),
            None => !valid_utf8(bytes@),
        },
{
    std::str::from_utf8(bytes).ok().map(|text| text.to_string())
}

/// What `String::from_utf8_lossy` of the standard library makes of a byte
/// string that is not valid UTF-8.
pub uninterp spec fn repaired_utf8(bytes: Seq<u8>) -> Seq<char>;

/// A byte string as text: valid UTF-8 as it stands, anything else with its
/// invalid sequences replaced.
pub open spec fn lossy_utf8(bytes: Seq<u8>) -> Seq<char> {
    if valid_utf8(bytes) {
        decode_utf8(bytes)
    } else {
        repaired_utf8(bytes)
    }
}

/// `String::from_utf8_lossy`: valid UTF-8 is decoded as it stands; anything
/// else has its invalid sequences replaced.
#[verifier::external_body]
pub(crate) fn text_from_utf8_lossy(bytes: &[u8]) -> (text: String)
    ensures
        valid_utf8(bytes@) ==> text@ == decode_utf8(bytes@),
        !valid_utf8(bytes@) ==> text@ == repaired_utf8(bytes@),
{
    String::from_utf8_lossy(bytes).into_owned()
}

/// An ASCII character with a capital letter made small.
pub open spec fn ascii_lower(c: char) -> char {
    if 'A' <= c && c <= 'Z' {
        (c as u32 + 32) as char
    } else {
        c
    }
}

/// What `str::to_lowercase` of the standard library makes of a text with
/// characters beyond ASCII.
pub uninterp spec fn unicode_lowercase(text: Seq<char>) -> Seq<char>;

/// A text in small letters.
pub open spec fn lowercase(text: Seq<char>) -> Seq<char> {
    if is_ascii_chars(text) {
        text.map_values(|c: char| ascii_lower(c))
    } else {
        unicode_lowercase(text)
    }
}

/// `str::to_lowercase`: of a text in ASCII, the capital letters become small
/// ones and the rest stays.
#[verifier::external_body]
pub(crate) fn to_lowercase(text: &str) -> (lower: String)
    ensures
        is_ascii_chars(text@) ==> lower@ == text@.map_values(|c: char| ascii_lower(c)),
        !is_ascii_chars(text@) ==> lower@ == unicode_lowercase(text@),
{
    text.to_lowercase()
}

/// What `char::is_whitespace` says of a character beyond ASCII.
pub uninterp spec fn unicode_white_space(c: char) -> bool;

/// White space: in ASCII the blank and the characters from the tabulator to
/// the carriage return.
pub open spec fn is_white_space(c: char) -> bool {
    if (c as u32) < 128 {
        c == ' ' || 9 <= c as u32 <= 13
    } else {
        unicode_white_space(c)
    }
}

/// `char::is_whitespace`: the White_Space property of Unicode, which in ASCII
/// the blank and the five characters from U+0009 on have.
#[verifier::external_body]
pub(crate) fn white_space(c: char) -> (white: bool)
    ensures
        (c as u32) < 128 ==> white == (c == ' ' || 9 <= c as u32 <= 13),
        (c as u32) >= 128 ==> white == unicode_white_space(c),
{
    c.is_whitespace()
}

/// The code of a character, which is a Unicode scalar value.
pub proof fn lemma_char_code(c: char)
    ensures
        (c as u32) as int == c as int,
        (c as int) < 0xD800 || 0xE000 <= (c as int) <= 0x10FFFF,
{
}

/// The decimal digits of `n`, as text.
pub open spec fn decimal_text(n: nat) -> Seq<char>
    decreases n,
{
    if n < 10 {
        seq![(48 + n) as char]
    } else {
        decimal_text(n / 10).push((48 + n % 10) as char)
    }
}

/// A character, as many times as told.
pub open spec fn repeated_char(c: char, count: nat) -> Seq<char> {
    Seq::new(count, |i: int| c)
}

/// The decimal digits of `n`, with zeros before them up to a width.
pub open spec fn padded_text(n: nat, width: nat) -> Seq<char> {
    if decimal_text(n).len() < width {
        repeated_char('0', (width - decimal_text(n).len()) as nat) + decimal_text(n)
    } else {
        decimal_text(n)
    }
}

/// A hexadecimal digit in lower case.
pub open spec fn hex_char(n: nat) -> char {
    if n < 10 {
        (48 + n) as char
    } else {
        (87 + n) as char
    }
}

/// The hexadecimal digits of `n` in lower case, as text.
pub open spec fn hexadecimal_text(n: nat) -> Seq<char>
    decreases n,
{
    if n < 16 {
        seq![hex_char(n)]
    } else {
        hexadecimal_text(n / 16).push(hex_char(n % 16))
    }
}

/// Texts with a separator between neighbours.
pub open spec fn joined(parts: Seq<Seq<char>>, separator: Seq<char>) -> Seq<char>
    decreases parts.len(),
{
    if parts.len() == 0 {
        Seq::empty()
    } else if parts.len() == 1 {
        parts[0]
    } else {
        joined(parts.drop_last(), separator) + separator + parts.last()
    }
}

/// The views of a list of texts.
pub open spec fn views(texts: Seq<String>) -> Seq<Seq<char>> {
    texts.map_values(|text: String| text@)
}

/// A text of its own from a borrowed one.
pub fn owned(text: &str) -> (out: String)
    ensures
        out@ == text@,
{
    text.to_owned()
}

/// Appends a text.
pub fn push_str(out: &mut String, text: &str)
    ensures
        final(out)@ == old(out)@ + text@,
{
    out.append(text);
}

/// The decimal digits of `n`, as text.
pub fn decimal_string(n: u64) -> (out: String)
    ensures
        out@ == decimal_text(n as nat),
    decreases n,
{
    if n < 10 {
        let mut out = String::new();
        out.push((48 + n as u8) as char);
        assert(out@ =~= decimal_text(n as nat));
        out
    } else {
        let mut out = decimal_string(n / 10);
        out.push((48 + (n % 10) as u8) as char);
        out
    }
}

/// Appends the decimal digits of `n`.
pub fn push_decimal(out: &mut String, n: u64)
    ensures
        final(out)@ == old(out)@ + decimal_text(n as nat),
{
    let digits = decimal_string(n);
    out.append(digits.as_str());
}

/// Appends the decimal digits of a number of any size.
pub fn push_wide_decimal(out: &mut String, n: u128)
    ensures
        final(out)@ == old(out)@ + decimal_text(n as nat),
    decreases n,
{
    let ghost before = out@;
    if n < 10 {
        out.push((48 + n as u8) as char);
        assert(out@ =~= before + decimal_text(n as nat));
    } else {
        push_wide_decimal(out, n / 10);
        out.push((48 + (n % 10) as u8) as char);
        assert(out@ =~= before + decimal_text(n as nat));
    }
}

/// Appends the decimal digits of `n`, with zeros before them up to a width.
pub fn push_padded(out: &mut String, n: u64, width: usize)
    ensures
        final(out)@ == old(out)@ + padded_text(n as nat, width as nat),
{
    let ghost before = out@;
    let digits = decimal_string(n);
    let count: usize = chars_of(digits.as_str()).len();
    let mut i: usize = count;
    while i < width
        invariant
            count <= i,
            count < width ==> i <= width,
            count >= width ==> i == count,
            out@ =~= before + repeated_char('0', (i - count) as nat),
        decreases width - i,
    {
        out.push('0');
        i += 1;
    }
    out.append(digits.as_str());
    assert(out@ =~= before + padded_text(n as nat, width as nat));
}

/// Appends the hexadecimal digits of `n` in lower case.
pub fn push_hexadecimal(out: &mut String, n: u64)
    ensures
        final(out)@ == old(out)@ + hexadecimal_text(n as nat),
    decreases n,
{
    let ghost before = out@;
    let digit: u8 = (n % 16) as u8;
    let c: char = if digit < 10 {
        (48 + digit) as char
    } else {
        (87 + digit) as char
    };
    if n >= 16 {
        push_hexadecimal(out, n / 16);
    }
    out.push(c);
    assert(out@ =~= before + hexadecimal_text(n as nat));
}

/// Are two texts equal?
pub fn same_text(a: &str, b: &str) -> (same: bool)
    ensures
        same == (a@ == b@),
{
    let same = same_bytes(a.as_bytes(), b.as_bytes());
    proof {
        encode_utf8_decode_utf8(a@);
        encode_utf8_decode_utf8(b@);
    }
    same
}

/// The characters of a text.
pub fn chars_of(text: &str) -> (out: Vec<char>)
    ensures
        out@ == text@,
{
    let mut out: Vec<char> = Vec::new();
    for c in it: text.chars()
        invariant
            it.seq() == text@,
            out@ == it.seq().take(it.index() as int),
    {
        out.push(c);
        assert(out@ =~= it.seq().take(it.index() + 1));
    }
    assert(out@ =~= text@);
    out
}

/// The text made of these characters.
pub fn text_of(chars: &[char]) -> (out: String)
    ensures
        out@ == chars@,
{
    let mut out = String::new();
    let mut i: usize = 0;
    while i < chars.len()
        invariant
            i <= chars@.len(),
            out@ == chars@.take(i as int),
        decreases chars@.len() - i,
    {
        out.push(chars[i]);
        assert(out@ =~= chars@.take(i + 1));
        i += 1;
    }
    assert(out@ =~= chars@);
    out
}

/// Texts with a separator between neighbours.
pub fn join(parts: &[String], separator: &str) -> (out: String)
    ensures
        out@ == joined(views(parts@), separator@),
{
    let mut out = String::new();
    let mut i: usize = 0;
    while i < parts.len()
        invariant
            i <= parts@.len(),
            out@ == joined(views(parts@).take(i as int), separator@),
        decreases parts@.len() - i,
    {
        let ghost longer = views(parts@).take(i + 1);
        assert(longer.drop_last() =~= views(parts@).take(i as int));
        if i > 0 {
            out.append(separator);
        }
        out.append(parts[i].as_str());
        i += 1;
        assert(out@ =~= joined(longer, separator@));
    }
    assert(views(parts@).take(i as int) =~= views(parts@));
    out
}

/// The pieces of `text` from `start` on, where everything up to `at` has no
/// separator in it: what stands between neighbouring separators.
pub open spec fn pieces_from(
    text: Seq<char>,
    separators: Seq<char>,
    start: int,
    at: int,
) -> Seq<Seq<char>>
    decreases text.len() - at,
{
    if at >= text.len() {
        seq![text.subrange(start, text.len() as int)]
    } else if separators.contains(text[at]) {
        seq![text.subrange(start, at)] + pieces_from(text, separators, at + 1, at + 1)
    } else {
        pieces_from(text, separators, start, at + 1)
    }
}

/// What stands between the separators of a text: one piece more than there are
/// separators, and any of them may be empty.
pub open spec fn pieces(text: Seq<char>, separators: Seq<char>) -> Seq<Seq<char>> {
    pieces_from(text, separators, 0, 0)
}

/// A piece has no separator in it, and every character of it is one of the text.
pub proof fn lemma_pieces(text: Seq<char>, separators: Seq<char>, start: int, at: int)
    requires
        0 <= start <= at <= text.len(),
        forall|j: int| start <= j < at ==> !separators.contains(#[trigger] text[j]),
    ensures
        pieces_from(text, separators, start, at).len() > 0,
        forall|i: int, j: int|
            #![trigger pieces_from(text, separators, start, at)[i][j]]
            0 <= i < pieces_from(text, separators, start, at).len() && 0 <= j < pieces_from(
                text,
                separators,
                start,
                at,
            )[i].len() ==> !separators.contains(pieces_from(text, separators, start, at)[i][j])
                && text.contains(pieces_from(text, separators, start, at)[i][j]),
    decreases text.len() - at,
{
    let all = pieces_from(text, separators, start, at);
    if at >= text.len() {
        assert(all =~= seq![text.subrange(start, text.len() as int)]);
    } else if separators.contains(text[at]) {
        lemma_pieces(text, separators, at + 1, at + 1);
        let rest = pieces_from(text, separators, at + 1, at + 1);
        assert(all =~= seq![text.subrange(start, at)] + rest);
        assert forall|i: int, j: int|
            #![trigger all[i][j]]
            0 <= i < all.len() && 0 <= j < all[i].len() implies !separators.contains(all[i][j])
            && text.contains(all[i][j]) by {
            if i > 0 {
                assert(all[i] == rest[i - 1]);
                assert(rest[i - 1][j] == all[i][j]);
            } else {
                assert(all[0] == text.subrange(start, at));
                assert(all[0][j] == text[start + j]);
            }
        }
    } else {
        lemma_pieces(text, separators, start, at + 1);
    }
}

/// Is this character among these?
pub fn among(chars: &[char], c: char) -> (found: bool)
    ensures
        found == chars@.contains(c),
{
    let mut i: usize = 0;
    while i < chars.len()
        invariant
            i <= chars@.len(),
            forall|j: int| 0 <= j < i ==> chars@[j] != c,
        decreases chars@.len() - i,
    {
        if chars[i] == c {
            return true;
        }
        i += 1;
    }
    false
}

/// The characters from `start` up to `end`, as a text.
pub fn text_between(chars: &[char], start: usize, end: usize) -> (out: String)
    requires
        start <= end <= chars@.len(),
    ensures
        out@ == chars@.subrange(start as int, end as int),
{
    let mut out = String::new();
    let mut i: usize = start;
    while i < end
        invariant
            start <= i <= end <= chars@.len(),
            out@ == chars@.subrange(start as int, i as int),
        decreases end - i,
    {
        out.push(chars[i]);
        assert(out@ =~= chars@.subrange(start as int, i + 1));
        i += 1;
    }
    out
}

/// Splits a text at its separators.
pub fn split(text: &str, separators: &[char]) -> (parts: Vec<String>)
    ensures
        views(parts@) == pieces(text@, separators@),
{
    let chars = chars_of(text);
    let length: usize = chars.len();
    let mut parts: Vec<String> = Vec::new();
    let mut start: usize = 0;
    let mut at: usize = 0;
    assert(views(parts@) + pieces(text@, separators@) =~= pieces(text@, separators@));
    while at < length
        invariant
            chars@ == text@,
            length == text@.len(),
            start <= at <= length,
            views(parts@) + pieces_from(text@, separators@, start as int, at as int) == pieces(
                text@,
                separators@,
            ),
        decreases length - at,
    {
        if among(separators, chars[at]) {
            let ghost before = views(parts@);
            let ghost rest = pieces_from(text@, separators@, at + 1, at + 1);
            parts.push(text_between(chars.as_slice(), start, at));
            proof {
                let piece = text@.subrange(start as int, at as int);
                assert(views(parts@) =~= before.push(piece));
                assert(views(parts@) + rest =~= before + (seq![piece] + rest));
            }
            start = at + 1;
        }
        at += 1;
    }
    let ghost before = views(parts@);
    parts.push(text_between(chars.as_slice(), start, length));
    assert(views(parts@) =~= before + seq![text@.subrange(start as int, length as int)]);
    parts
}

/// A hexadecimal number, with zeros before it up to a width.
pub open spec fn padded_hexadecimal(n: nat, width: nat) -> Seq<char> {
    let digits = hexadecimal_text(n);
    if digits.len() >= width {
        digits
    } else {
        repeated_char('0', (width - digits.len()) as nat) + digits
    }
}

/// Appends a hexadecimal number, with zeros before it up to a width.
pub fn push_padded_hexadecimal(out: &mut String, n: u64, width: usize)
    ensures
        final(out)@ == old(out)@ + padded_hexadecimal(n as nat, width as nat),
{
    let mut digits = String::new();
    push_hexadecimal(&mut digits, n);
    assert(digits@ =~= hexadecimal_text(n as nat));
    let length: usize = chars_of(digits.as_str()).len();
    let ghost before = out@;
    let mut i: usize = length;
    assert(out@ =~= before + repeated_char('0', 0));
    while i < width
        invariant
            length <= i,
            i <= width || i == length,
            out@ == before + repeated_char('0', (i - length) as nat),
        decreases width - i,
    {
        out.push('0');
        assert(out@ =~= before + repeated_char('0', (i + 1 - length) as nat));
        i += 1;
    }
    push_str(out, digits.as_str());
    proof {
        if length >= width {
            assert(before + repeated_char('0', 0) =~= before);
        } else {
            assert(out@ =~= before + (repeated_char('0', (width - length) as nat) + digits@));
        }
    }
}

/// What a digit of up to base sixteen stands for.
pub open spec fn digit_value(c: char) -> int {
    if '0' <= c && c <= '9' {
        c as int - '0' as int
    } else {
        c as int - 'a' as int + 10
    }
}

/// The number that digits stand for in a base.
pub open spec fn number_in_base(digits: Seq<char>, base: int) -> int
    decreases digits.len(),
{
    if digits.len() == 0 {
        0
    } else {
        number_in_base(digits.drop_last(), base) * base + digit_value(digits.last())
    }
}

/// A number in decimal digits is read back as itself, and has no zeros before it
/// but where it is zero.
pub proof fn law_decimal_text_is_read_back(n: nat)
    ensures
        number_in_base(decimal_text(n), 10) == n,
        decimal_text(n).len() > 0,
        forall|i: int|
            0 <= i < decimal_text(n).len() ==> '0' <= (#[trigger] decimal_text(n)[i]) && decimal_text(
                n,
            )[i] <= '9',
        decimal_text(n)[0] == '0' ==> n == 0 && decimal_text(n).len() == 1,
    decreases n,
{
    let text = decimal_text(n);
    if n >= 10 {
        law_decimal_text_is_read_back(n / 10);
        assert(text.drop_last() =~= decimal_text(n / 10));
        assert(text[0] == decimal_text(n / 10)[0]);
    } else {
        assert(text.drop_last() =~= Seq::empty());
    }
    let rest = number_in_base(text.drop_last(), 10);
    assert(text.last() as int == 48 + n % 10);
    assert(digit_value(text.last()) == n % 10);
    assert(number_in_base(text, 10) == rest * 10 + digit_value(text.last()));
}

/// A number in hexadecimal digits is read back as itself.
pub proof fn law_hexadecimal_text_is_read_back(n: nat)
    ensures
        number_in_base(hexadecimal_text(n), 16) == n,
        hexadecimal_text(n).len() > 0,
    decreases n,
{
    let text = hexadecimal_text(n);
    if n >= 16 {
        law_hexadecimal_text_is_read_back(n / 16);
        assert(text.drop_last() =~= hexadecimal_text(n / 16));
    } else {
        assert(text.drop_last() =~= Seq::empty());
    }
    let rest = number_in_base(text.drop_last(), 16);
    assert(text.last() as int == hex_char(n % 16) as int);
    assert(digit_value(text.last()) == n % 16);
    assert(number_in_base(text, 16) == rest * 16 + digit_value(text.last()));
}

/// Zeros before digits leave the number what it is.
pub proof fn lemma_zeros_before(digits: Seq<char>, zeros: nat, base: int)
    ensures
        number_in_base(repeated_char('0', zeros) + digits, base) == number_in_base(digits, base),
    decreases zeros + digits.len(),
{
    let all = repeated_char('0', zeros) + digits;
    if digits.len() > 0 {
        lemma_zeros_before(digits.drop_last(), zeros, base);
        assert(all.drop_last() =~= repeated_char('0', zeros) + digits.drop_last());
    } else if zeros > 0 {
        lemma_zeros_before(digits, (zeros - 1) as nat, base);
        assert(all.drop_last() =~= repeated_char('0', (zeros - 1) as nat) + digits);
        assert(number_in_base(all.drop_last(), base) * base == 0) by (nonlinear_arith)
            requires
                number_in_base(all.drop_last(), base) == 0,
        ;
    } else {
        assert(all =~= digits);
    }
}

/// Zeros before a number leave it what it is, and make it as long as it should be.
pub proof fn law_padding_keeps_the_number(n: nat, width: nat)
    ensures
        number_in_base(padded_text(n, width), 10) == n,
        padded_text(n, width).len() >= width,
        number_in_base(padded_hexadecimal(n, width), 16) == n,
        padded_hexadecimal(n, width).len() >= width,
{
    law_decimal_text_is_read_back(n);
    law_hexadecimal_text_is_read_back(n);
    if decimal_text(n).len() < width {
        lemma_zeros_before(decimal_text(n), (width - decimal_text(n).len()) as nat, 10);
    }
    let digits = hexadecimal_text(n);
    if digits.len() < width {
        lemma_zeros_before(digits, (width - digits.len()) as nat, 16);
    }
}

proof fn lemma_pieces_behind(text: Seq<char>, separators: Seq<char>, k: int, start: int, at: int)
    requires
        0 <= k <= start <= at <= text.len(),
    ensures
        pieces_from(text, separators, start, at) == pieces_from(
            text.skip(k),
            separators,
            start - k,
            at - k,
        ),
    decreases text.len() - at,
{
    let rest = text.skip(k);
    if at >= text.len() {
        assert(text.subrange(start, text.len() as int) =~= rest.subrange(
            start - k,
            rest.len() as int,
        ));
    } else {
        assert(rest[at - k] == text[at]);
        if separators.contains(text[at]) {
            assert(text.subrange(start, at) =~= rest.subrange(start - k, at - k));
            lemma_pieces_behind(text, separators, k, at + 1, at + 1);
        } else {
            lemma_pieces_behind(text, separators, k, start, at + 1);
        }
    }
}

proof fn lemma_first_piece(text: Seq<char>, separators: Seq<char>, end: int, at: int)
    requires
        0 <= at <= end <= text.len(),
        forall|j: int| 0 <= j < end ==> !separators.contains(#[trigger] text[j]),
    ensures
        pieces_from(text, separators, 0, at) == pieces_from(text, separators, 0, end),
    decreases end - at,
{
    if at < end {
        lemma_first_piece(text, separators, end, at + 1);
    }
}

/// A text is cut at each of its separators and nowhere else: what stands before
/// the first is the first piece, and what stands behind it gives the others.
pub proof fn law_a_text_is_cut_at_its_separators(
    first: Seq<char>,
    separator: char,
    rest: Seq<char>,
    separators: Seq<char>,
)
    requires
        separators.contains(separator),
        forall|j: int| 0 <= j < first.len() ==> !separators.contains(#[trigger] first[j]),
    ensures
        pieces(first, separators) == seq![first],
        pieces(first.push(separator) + rest, separators) == seq![first] + pieces(rest, separators),
{
    lemma_first_piece(first, separators, first.len() as int, 0);
    assert(first.subrange(0, first.len() as int) =~= first);
    let text = first.push(separator) + rest;
    let n = first.len() as int;
    assert forall|j: int| 0 <= j < n implies !separators.contains(#[trigger] text[j]) by {
        assert(text[j] == first[j]);
    }
    lemma_first_piece(text, separators, n, 0);
    assert(text[n] == separator);
    assert(text.subrange(0, n) =~= first);
    lemma_pieces_behind(text, separators, n + 1, n + 1, n + 1);
    assert(text.skip(n + 1) =~= rest);
}

/// Decimal digits as text are the decimal digits as bytes.
pub proof fn lemma_decimal_bytes(n: nat)
    ensures
        utf8(decimal_text(n)) == decimal(n),
        decimal_text(n).len() == decimal(n).len(),
        forall|i: int|
            0 <= i < decimal_text(n).len() ==> '0' <= #[trigger] decimal_text(n)[i] <= '9',
{
    lemma_decimal_digits(n);
    let text = decimal_text(n);
    is_ascii_chars_encode_utf8(text);
    assert forall|i: int| 0 <= i < text.len() implies #[trigger] utf8(text)[i] == decimal(n)[i] by {
        assert(text[i] as u8 == utf8(text)[i]);
    }
    assert(utf8(text) =~= decimal(n));
}

proof fn lemma_decimal_digits(n: nat)
    ensures
        decimal_text(n).len() == decimal(n).len(),
        forall|i: int|
            0 <= i < decimal_text(n).len() ==> '0' <= #[trigger] decimal_text(n)[i] <= '9'
                && decimal_text(n)[i] as u8 == decimal(n)[i],
    decreases n,
{
    if n >= 10 {
        lemma_decimal_digits(n / 10);
        let text = decimal_text(n);
        assert forall|i: int| 0 <= i < text.len() implies '0' <= #[trigger] text[i] <= '9'
            && text[i] as u8 == decimal(n)[i] by {
            if i < text.len() - 1 {
                assert(text[i] == decimal_text(n / 10)[i]);
                assert(decimal(n)[i] == decimal(n / 10)[i]);
            }
        }
    }
}

proof fn lemma_joined_front(parts: Seq<Seq<char>>, separator: Seq<char>)
    requires
        parts.len() >= 2,
    ensures
        joined(parts, separator) == parts[0] + separator + joined(parts.drop_first(), separator),
    decreases parts.len(),
{
    let rest = parts.drop_first();
    let shorter = parts.drop_last();
    reveal_with_fuel(joined, 2);
    if parts.len() == 2 {
        assert(shorter[0] == parts[0]);
        assert(rest[0] == parts[1]);
    } else {
        lemma_joined_front(shorter, separator);
        assert(shorter.drop_first() =~= rest.drop_last());
        assert(rest.last() == parts.last());
        assert(joined(parts, separator) =~= parts[0] + separator + joined(rest, separator));
    }
}

/// Texts that were joined are cut apart again where the separator stands, as long
/// as it stands in none of them.
pub proof fn law_joined_texts_are_cut_apart(parts: Seq<Seq<char>>, separator: char)
    requires
        parts.len() > 0,
        forall|i: int, j: int|
            0 <= i < parts.len() && 0 <= j < parts[i].len() ==> #[trigger] parts[i][j] != separator,
    ensures
        pieces(joined(parts, seq![separator]), seq![separator]) == parts,
    decreases parts.len(),
{
    let mark = seq![separator];
    let first = parts[0];
    assert(mark[0] == separator);
    assert(mark.contains(separator));
    assert forall|j: int| 0 <= j < first.len() implies !mark.contains(#[trigger] first[j]) by {
        assert(parts[0][j] != separator);
    }
    if parts.len() == 1 {
        law_a_text_is_cut_at_its_separators(first, separator, Seq::empty(), mark);
        assert(seq![first] =~= parts);
    } else {
        let rest = parts.drop_first();
        assert forall|i: int, j: int|
            0 <= i < rest.len() && 0 <= j < rest[i].len() implies #[trigger] rest[i][j]
            != separator by {
            assert(parts[i + 1][j] != separator);
        }
        law_joined_texts_are_cut_apart(rest, separator);
        lemma_joined_front(parts, mark);
        let behind = joined(rest, mark);
        assert(first + mark + behind =~= first.push(separator) + behind);
        law_a_text_is_cut_at_its_separators(first, separator, behind, mark);
        assert(seq![first] + rest =~= parts);
    }
}

/// A digit of a hexadecimal number in lower case.
pub open spec fn is_hexadecimal(c: char) -> bool {
    '0' <= c <= '9' || 'a' <= c <= 'f'
}

/// A power of sixteen.
spec fn power_of_sixteen(n: nat) -> nat
    decreases n,
{
    if n == 0 {
        1
    } else {
        16 * power_of_sixteen((n - 1) as nat)
    }
}

proof fn lemma_hexadecimal(n: nat, most: nat)
    requires
        n < power_of_sixteen(most),
        most > 0,
    ensures
        hexadecimal_text(n).len() <= most,
        forall|i: int|
            0 <= i < hexadecimal_text(n).len() ==> is_hexadecimal(#[trigger] hexadecimal_text(n)[i]),
    decreases n,
{
    let text = hexadecimal_text(n);
    if n >= 16 {
        reveal_with_fuel(power_of_sixteen, 2);
        lemma_hexadecimal(n / 16, (most - 1) as nat);
        assert forall|i: int| 0 <= i < text.len() implies is_hexadecimal(#[trigger] text[i]) by {
            if i < text.len() - 1 {
                assert(text[i] == hexadecimal_text(n / 16)[i]);
            }
        }
    }
}

/// A number in hexadecimal that is filled up to sixteen digits has sixteen, as
/// long as it fits into 64 bits.
pub proof fn lemma_sixteen_digits(n: u64)
    ensures
        padded_hexadecimal(n as nat, 16).len() == 16,
        forall|i: int|
            0 <= i < 16 ==> is_hexadecimal(#[trigger] padded_hexadecimal(n as nat, 16)[i]),
{
    reveal_with_fuel(power_of_sixteen, 17);
    lemma_hexadecimal(n as nat, 16);
}

} // verus!
