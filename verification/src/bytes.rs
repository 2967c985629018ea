//! Building and comparing byte strings.
//!
//! Everything this crate writes is a sequence of bytes put together from a few
//! kinds of piece: text in UTF-8, decimal numbers, hexadecimal pairs. Each
//! piece has a spec function that says what it is and an executable function
//! that appends it.

use vstd::prelude::*;
use vstd::utf8::encode_utf8;

verus! {

/// The bytes of a text.
pub open spec fn utf8(text: Seq<char>) -> Seq<u8> {
    encode_utf8(text)
}

/// The decimal digits of `n`, most significant first, without leading zeros.
pub open spec fn decimal(n: nat) -> Seq<u8>
    decreases n,
{
    if n < 10 {
        seq![(48 + n) as u8]
    } else {
        decimal(n / 10).push((48 + n % 10) as u8)
    }
}

/// The decimal digits of an integer, with a minus sign when it is negative.
pub open spec fn signed_decimal(n: int) -> Seq<u8> {
    if n < 0 {
        seq![45u8] + decimal((-n) as nat)
    } else {
        decimal(n as nat)
    }
}

/// `count` copies of one byte.
pub open spec fn repeated(byte: u8, count: nat) -> Seq<u8> {
    Seq::new(count, |i: int| byte)
}

/// A decimal number filled with leading zeros to at least `width` digits.
pub open spec fn padded_decimal(n: nat, width: nat) -> Seq<u8> {
    if decimal(n).len() >= width {
        decimal(n)
    } else {
        repeated(48u8, (width - decimal(n).len()) as nat) + decimal(n)
    }
}

/// One upper-case hexadecimal digit.
pub open spec fn hex_digit(n: int) -> u8 {
    if n < 10 {
        (48 + n) as u8
    } else {
        (55 + n) as u8
    }
}

/// The two upper-case hexadecimal digits of a byte.
pub open spec fn hex_pair(byte: u8) -> Seq<u8> {
    seq![hex_digit(byte as int / 16), hex_digit(byte as int % 16)]
}

/// A byte string in upper-case hexadecimal, two digits to the byte.
pub open spec fn hex(bytes: Seq<u8>) -> Seq<u8>
    decreases bytes.len(),
{
    if bytes.len() == 0 {
        Seq::empty()
    } else {
        hex(bytes.drop_last()) + hex_pair(bytes.last())
    }
}

/// Hexadecimal takes two digits to the byte.
pub proof fn lemma_hex_len(bytes: Seq<u8>)
    ensures
        hex(bytes).len() == 2 * bytes.len(),
    decreases bytes.len(),
{
    if bytes.len() > 0 {
        lemma_hex_len(bytes.drop_last());
    }
}

/// `needle` stands in `haystack` at `at`.
pub open spec fn occurs_at(haystack: Seq<u8>, needle: Seq<u8>, at: int) -> bool {
    &&& 0 <= at
    &&& at + needle.len() <= haystack.len()
    &&& haystack.subrange(at, at + needle.len()) == needle
}

/// `at` is the first place at or after `from` where `needle` occurs.
pub open spec fn first_occurrence(haystack: Seq<u8>, needle: Seq<u8>, from: int, at: int) -> bool {
    &&& from <= at
    &&& occurs_at(haystack, needle, at)
    &&& forall|i: int| from <= i < at ==> !#[trigger] occurs_at(haystack, needle, i)
}

/// `needle` occurs nowhere at or after `from`.
pub open spec fn no_occurrence(haystack: Seq<u8>, needle: Seq<u8>, from: int) -> bool {
    forall|i: int| from <= i ==> !#[trigger] occurs_at(haystack, needle, i)
}

/// Appends a byte string.
pub fn push_bytes(out: &mut Vec<u8>, bytes: &[u8])
    ensures
        final(out)@ == old(out)@ + bytes@,
{
    let ghost before = out@;
    out.extend_from_slice(bytes);
    assert(out@ =~= before + bytes@);
}

/// Appends the bytes of a text.
pub fn push_text(out: &mut Vec<u8>, text: &str)
    ensures
        final(out)@ == old(out)@ + utf8(text@),
{
    push_bytes(out, text.as_bytes());
}

/// The bytes of a text, as a vector of their own.
pub fn text_bytes(text: &str) -> (out: Vec<u8>)
    ensures
        out@ == utf8(text@),
{
    let mut out: Vec<u8> = Vec::new();
    push_text(&mut out, text);
    assert(out@ =~= utf8(text@));
    out
}

/// A copy of a byte string.
pub fn copy_bytes(bytes: &[u8]) -> (out: Vec<u8>)
    ensures
        out@ == bytes@,
{
    let mut out: Vec<u8> = Vec::new();
    push_bytes(&mut out, bytes);
    assert(out@ =~= bytes@);
    out
}

/// Appends `count` copies of one byte.
pub fn push_repeated(out: &mut Vec<u8>, byte: u8, count: usize)
    ensures
        final(out)@ == old(out)@ + repeated(byte, count as nat),
{
    let ghost before = out@;
    let mut i: usize = 0;
    while i < count
        invariant
            i <= count,
            out@ == before + repeated(byte, i as nat),
        decreases count - i,
    {
        out.push(byte);
        i += 1;
        assert(out@ =~= before + repeated(byte, i as nat));
    }
    assert(repeated(byte, 0) =~= Seq::<u8>::empty());
}

/// The decimal digits of `n`.
pub fn decimal_bytes(n: u64) -> (out: Vec<u8>)
    ensures
        out@ == decimal(n as nat),
    decreases n,
{
    if n < 10 {
        let mut out: Vec<u8> = Vec::new();
        out.push(48 + n as u8);
        assert(out@ =~= decimal(n as nat));
        out
    } else {
        let mut out = decimal_bytes(n / 10);
        out.push(48 + (n % 10) as u8);
        out
    }
}

/// Appends the decimal digits of `n`.
pub fn push_decimal(out: &mut Vec<u8>, n: u64)
    ensures
        final(out)@ == old(out)@ + decimal(n as nat),
{
    let digits = decimal_bytes(n);
    push_bytes(out, digits.as_slice());
}

fn long_decimal_bytes(n: u128) -> (out: Vec<u8>)
    ensures
        out@ == decimal(n as nat),
    decreases n,
{
    if n < 10 {
        let mut out: Vec<u8> = Vec::new();
        out.push(48 + n as u8);
        assert(out@ =~= decimal(n as nat));
        out
    } else {
        let mut out = long_decimal_bytes(n / 10);
        out.push(48 + (n % 10) as u8);
        out
    }
}

/// Appends the decimal digits of a long number.
pub fn push_long_decimal(out: &mut Vec<u8>, n: u128)
    ensures
        final(out)@ == old(out)@ + decimal(n as nat),
{
    let digits = long_decimal_bytes(n);
    push_bytes(out, digits.as_slice());
}

/// Appends a signed integer in decimal.
pub fn push_signed_decimal(out: &mut Vec<u8>, n: i64)
    ensures
        final(out)@ == old(out)@ + signed_decimal(n as int),
{
    let ghost before = out@;
    if n < 0 {
        out.push(45);
        let magnitude: u64 = if n == i64::MIN { 9223372036854775808 } else { (-n) as u64 };
        push_decimal(out, magnitude);
        assert(out@ =~= before + signed_decimal(n as int));
    } else {
        push_decimal(out, n as u64);
    }
}

/// Appends a decimal number filled with leading zeros to `width` digits.
pub fn push_padded_decimal(out: &mut Vec<u8>, n: u64, width: usize)
    ensures
        final(out)@ == old(out)@ + padded_decimal(n as nat, width as nat),
{
    let ghost before = out@;
    let digits = decimal_bytes(n);
    if digits.len() < width {
        push_repeated(out, 48, width - digits.len());
    }
    push_bytes(out, digits.as_slice());
    assert(out@ =~= before + padded_decimal(n as nat, width as nat));
}

/// One upper-case hexadecimal digit.
pub fn hex_digit_byte(n: u8) -> (digit: u8)
    requires
        n < 16,
    ensures
        digit == hex_digit(n as int),
{
    if n < 10 {
        48 + n
    } else {
        55 + n
    }
}

/// Appends a byte string in upper-case hexadecimal.
pub fn push_hex(out: &mut Vec<u8>, bytes: &[u8])
    ensures
        final(out)@ == old(out)@ + hex(bytes@),
{
    let ghost before = out@;
    let mut i: usize = 0;
    assert(bytes@.take(0) =~= Seq::<u8>::empty());
    assert(before + hex(bytes@.take(0)) =~= before);
    while i < bytes.len()
        invariant
            i <= bytes@.len(),
            out@ == before + hex(bytes@.take(i as int)),
        decreases bytes@.len() - i,
    {
        out.push(hex_digit_byte(bytes[i] / 16));
        out.push(hex_digit_byte(bytes[i] % 16));
        proof {
            let longer = bytes@.take(i + 1);
            assert(longer.drop_last() =~= bytes@.take(i as int));
            assert(out@ =~= before + hex(longer));
        }
        i += 1;
    }
    assert(bytes@.take(bytes@.len() as int) =~= bytes@);
}

/// Are two byte strings equal?
pub fn same_bytes(a: &[u8], b: &[u8]) -> (same: bool)
    ensures
        same == (a@ == b@),
{
    if a.len() != b.len() {
        return false;
    }
    let mut i: usize = 0;
    while i < a.len()
        invariant
            i <= a@.len(),
            a@.len() == b@.len(),
            forall|j: int| 0 <= j < i ==> a@[j] == b@[j],
        decreases a@.len() - i,
    {
        if a[i] != b[i] {
            return false;
        }
        i += 1;
    }
    assert(a@ =~= b@);
    true
}

/// Does `needle` stand in `haystack` at `at`?
pub fn stands_at(haystack: &[u8], needle: &[u8], at: usize) -> (found: bool)
    ensures
        found == occurs_at(haystack@, needle@, at as int),
{
    if at > haystack.len() || haystack.len() - at < needle.len() {
        return false;
    }
    let length: usize = haystack.len();
    let mut i: usize = 0;
    while i < needle.len()
        invariant
            i <= needle@.len(),
            at + needle@.len() <= haystack@.len(),
            length == haystack@.len(),
            forall|j: int| 0 <= j < i ==> haystack@[at + j] == needle@[j],
        decreases needle@.len() - i,
    {
        if haystack[at + i] != needle[i] {
            assert(haystack@.subrange(at as int, at + needle@.len())[i as int] != needle@[i as int]);
            return false;
        }
        i += 1;
    }
    assert(haystack@.subrange(at as int, at + needle@.len()) =~= needle@);
    true
}

/// The first place at or after `from` where `needle` occurs.
pub fn find_from(haystack: &[u8], needle: &[u8], from: usize) -> (found: Option<usize>)
    ensures
        match found {
            Some(at) => first_occurrence(haystack@, needle@, from as int, at as int),
            None => no_occurrence(haystack@, needle@, from as int),
        },
{
    let mut at: usize = from;
    while at < haystack.len()
        invariant
            from <= at,
            at <= from || at <= haystack@.len(),
            forall|i: int| from <= i < at ==> !#[trigger] occurs_at(haystack@, needle@, i),
        decreases haystack@.len() - at,
    {
        if stands_at(haystack, needle, at) {
            return Some(at);
        }
        at += 1;
    }
    if stands_at(haystack, needle, at) {
        return Some(at);
    }
    None
}

} // verus!
