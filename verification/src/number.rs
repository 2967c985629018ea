//! Reading numbers, in decimal digits and in bytes.

use vstd::prelude::*;
use vstd::slice::slice_subrange;

verus! {

/// A decimal digit.
pub open spec fn is_digit(byte: u8) -> bool {
    48 <= byte <= 57
}

/// Decimal digits and nothing else.
pub open spec fn all_digits(bytes: Seq<u8>) -> bool {
    forall|i: int| 0 <= i < bytes.len() ==> is_digit(#[trigger] bytes[i])
}

/// The number that decimal digits stand for.
pub open spec fn digits_value(digits: Seq<u8>) -> nat
    decreases digits.len(),
{
    if digits.len() == 0 {
        0
    } else {
        digits_value(digits.drop_last()) * 10 + (digits.last() - 48) as nat
    }
}

/// A text without the plus sign it may start with.
pub open spec fn without_plus(bytes: Seq<u8>) -> Seq<u8> {
    if bytes.len() > 0 && bytes[0] == 43 {
        bytes.drop_first()
    } else {
        bytes
    }
}

/// The number that a text stands for, when it is an unsigned decimal number
/// that is not larger than `max`.
pub open spec fn unsigned_of(bytes: Seq<u8>, max: nat) -> Option<nat> {
    let digits = without_plus(bytes);
    if digits.len() > 0 && all_digits(digits) && digits_value(digits) <= max {
        Some(digits_value(digits))
    } else {
        None
    }
}

/// The number that a text stands for, when it is a decimal number that a
/// 64-bit signed integer can hold.
pub open spec fn integer_of(bytes: Seq<u8>) -> Option<int> {
    if bytes.len() > 0 && bytes[0] == 45 {
        let digits = bytes.drop_first();
        if digits.len() > 0 && all_digits(digits) && digits_value(digits) <= 0x8000_0000_0000_0000 {
            Some(-(digits_value(digits) as int))
        } else {
            None
        }
    } else {
        match unsigned_of(bytes, 0x7FFF_FFFF_FFFF_FFFF) {
            Some(n) => Some(n as int),
            None => None,
        }
    }
}

/// A longer run of digits stands for no smaller a number.
pub proof fn lemma_digits_value_grows(digits: Seq<u8>, n: int)
    requires
        0 <= n <= digits.len(),
        all_digits(digits),
    ensures
        digits_value(digits.take(n)) <= digits_value(digits),
    decreases digits.len(),
{
    if n == digits.len() {
        assert(digits.take(n) =~= digits);
    } else {
        let shorter = digits.drop_last();
        assert(is_digit(digits.last()));
        assert(forall|i: int| 0 <= i < shorter.len() ==> shorter[i] == digits[i]);
        lemma_digits_value_grows(shorter, n);
        assert(shorter.take(n) =~= digits.take(n));
    }
}

/// Is this a decimal digit?
pub fn is_digit_byte(byte: u8) -> (digit: bool)
    ensures
        digit == is_digit(byte),
{
    48 <= byte && byte <= 57
}

/// Decimal digits and nothing else?
pub fn only_digits(bytes: &[u8]) -> (all: bool)
    ensures
        all == all_digits(bytes@),
{
    let mut i: usize = 0;
    while i < bytes.len()
        invariant
            i <= bytes@.len(),
            forall|j: int| 0 <= j < i ==> is_digit(#[trigger] bytes@[j]),
        decreases bytes@.len() - i,
    {
        if !is_digit_byte(bytes[i]) {
            return false;
        }
        i += 1;
    }
    true
}

/// The number that decimal digits stand for, unless it is larger than `max`.
pub fn digits_to_number(digits: &[u8], max: u64) -> (number: Option<u64>)
    requires
        all_digits(digits@),
    ensures
        match number {
            Some(n) => n == digits_value(digits@) && n <= max,
            None => digits_value(digits@) > max,
        },
{
    let mut value: u64 = 0;
    let mut i: usize = 0;
    while i < digits.len()
        invariant
            i <= digits@.len(),
            all_digits(digits@),
            value == digits_value(digits@.take(i as int)),
            value <= max,
        decreases digits@.len() - i,
    {
        let digit: u64 = (digits[i] - 48) as u64;
        proof {
            let longer = digits@.take(i + 1);
            assert(longer.drop_last() =~= digits@.take(i as int));
            lemma_digits_value_grows(digits@, i + 1);
        }
        if digit > max || value > (max - digit) / 10 {
            return None;
        }
        value = value * 10 + digit;
        i += 1;
    }
    assert(digits@.take(digits@.len() as int) =~= digits@);
    Some(value)
}

/// A number that is read within a bound is not larger.
pub proof fn lemma_unsigned_bound(bytes: Seq<u8>, max: nat)
    ensures
        unsigned_of(bytes, max) matches Some(n) ==> n <= max,
{
}

/// The long number that decimal digits stand for, unless it is too large.
pub fn digits_to_long(digits: &[u8]) -> (number: Option<u128>)
    requires
        all_digits(digits@),
    ensures
        match number {
            Some(n) => n == digits_value(digits@),
            None => digits_value(digits@) > u128::MAX,
        },
{
    let mut value: u128 = 0;
    let mut i: usize = 0;
    while i < digits.len()
        invariant
            i <= digits@.len(),
            all_digits(digits@),
            value == digits_value(digits@.take(i as int)),
        decreases digits@.len() - i,
    {
        let digit: u128 = (digits[i] - 48) as u128;
        proof {
            let longer = digits@.take(i + 1);
            assert(longer.drop_last() =~= digits@.take(i as int));
            lemma_digits_value_grows(digits@, i + 1);
        }
        if value > (u128::MAX - digit) / 10 {
            return None;
        }
        value = value * 10 + digit;
        i += 1;
    }
    assert(digits@.take(digits@.len() as int) =~= digits@);
    Some(value)
}

/// The number that a text stands for, when it is an unsigned decimal number
/// that is not larger than `max`.
pub fn parse_unsigned(bytes: &[u8], max: u64) -> (number: Option<u64>)
    ensures
        match number {
            Some(n) => unsigned_of(bytes@, max as nat) == Some(n as nat),
            None => unsigned_of(bytes@, max as nat) is None,
        },
{
    let digits = if bytes.len() > 0 && bytes[0] == 43 {
        slice_subrange(bytes, 1, bytes.len())
    } else {
        bytes
    };
    assert(digits@ =~= without_plus(bytes@));
    if digits.len() == 0 || !only_digits(digits) {
        return None;
    }
    digits_to_number(digits, max)
}

/// The number that a text stands for, when it is a decimal number that a
/// 64-bit signed integer can hold.
pub fn parse_integer(bytes: &[u8]) -> (number: Option<i64>)
    ensures
        match number {
            Some(n) => integer_of(bytes@) == Some(n as int),
            None => integer_of(bytes@) is None,
        },
{
    if bytes.len() > 0 && bytes[0] == 45 {
        let digits = slice_subrange(bytes, 1, bytes.len());
        assert(digits@ =~= bytes@.drop_first());
        if digits.len() == 0 || !only_digits(digits) {
            return None;
        }
        match digits_to_number(digits, 0x8000_0000_0000_0000) {
            Some(n) => if n == 0x8000_0000_0000_0000 {
                Some(i64::MIN)
            } else {
                Some(-(n as i64))
            },
            None => None,
        }
    } else {
        match parse_unsigned(bytes, 0x7FFF_FFFF_FFFF_FFFF) {
            Some(n) => Some(n as i64),
            None => None,
        }
    }
}

/// A number of `width` bytes, the most significant first.
pub open spec fn number_in(data: Seq<u8>, at: int, width: nat) -> nat
    decreases width,
{
    if width == 0 {
        0
    } else {
        number_in(data, at, (width - 1) as nat) * 256 + data[at + width - 1] as nat
    }
}

/// How many numbers `width` bytes can hold.
pub open spec fn capacity(width: nat) -> nat
    decreases width,
{
    if width == 0 {
        1
    } else {
        256 * capacity((width - 1) as nat)
    }
}

pub proof fn lemma_number_in(data: Seq<u8>, at: int, width: nat)
    requires
        width <= 8,
    ensures
        number_in(data, at, width) < capacity(width) <= 0x1_0000_0000_0000_0000,
    decreases width,
{
    reveal_with_fuel(capacity, 9);
    if width > 0 {
        lemma_number_in(data, at, (width - 1) as nat);
        assert(number_in(data, at, width) <= (capacity((width - 1) as nat) - 1) * 256 + 255);
    }
}

/// Reads a number of `width` bytes.
pub fn read_number(data: &[u8], at: usize, width: usize) -> (n: u64)
    requires
        width <= 8,
        at + width <= data@.len(),
    ensures
        n == number_in(data@, at as int, width as nat),
{
    let total: usize = data.len();
    let mut n: u64 = 0;
    let mut k: usize = 0;
    while k < width
        invariant
            k <= width <= 8,
            total == data@.len(),
            at + width <= total,
            n == number_in(data@, at as int, k as nat),
        decreases width - k,
    {
        proof {
            lemma_number_in(data@, at as int, (k + 1) as nat);
        }
        n = n * 256 + data[at + k] as u64;
        k += 1;
    }
    n
}

} // verus!
