//! What decimal fractions stand for.

use crate::bytes::{decimal, repeated};
use crate::number::{all_digits, digits_value, is_digit, unsigned_of};
use crate::pdfread::value::{
    exponent_mark, millionths_in, real_parts, rounds_up, scaled, six_places, MAX_EXPONENT,
};
use crate::pdfwrite::laws::{law_decimal_reads_back, pow10};
use crate::pdfwrite::readback::scalars::{lemma_digits_joined, lemma_point, lemma_zeros};
use vstd::prelude::*;

verus! {

proof fn lemma_powers(a: nat, b: nat)
    ensures
        pow10(a + b) == pow10(a) * pow10(b),
        pow10(a) > 0,
    decreases a,
{
    if a == 0 {
        assert(1 * pow10(b) == pow10(b)) by (nonlinear_arith);
    } else {
        let p = pow10((a - 1) as nat);
        let q = pow10(b);
        lemma_powers((a - 1) as nat, b);
        assert(pow10(a + b) == 10 * pow10((a - 1 + b) as nat));
        assert(10 * (p * q) == (10 * p) * q) by (nonlinear_arith);
    }
}

/// Moving the point by an exponent multiplies by that power of ten: the digits
/// on both sides of the point stand for as many times more as the exponent says,
/// or as many times less.
pub proof fn law_an_exponent_multiplies(whole: Seq<u8>, fraction: Seq<u8>, exponent: int)
    ensures
        ({
            let (before, behind) = scaled(whole, fraction, exponent);
            let old = digits_value(whole + fraction);
            let new = digits_value(before + behind);
            if exponent >= 0 {
                new * pow10(fraction.len()) == old * pow10(exponent as nat) * pow10(behind.len())
            } else {
                new * pow10(fraction.len()) * pow10((-exponent) as nat) == old * pow10(behind.len())
            }
        }),
{
    let digits = whole + fraction;
    let (before, behind) = scaled(whole, fraction, exponent);
    let point = whole.len() + exponent;
    let old = digits_value(digits);
    let new = digits_value(before + behind);
    let f = fraction.len();
    if point > digits.len() {
        let more = (point - digits.len()) as nat;
        lemma_digits_joined(digits, repeated(48, more));
        lemma_zeros(more);
        assert(before + behind =~= digits + repeated(48, more));
        assert(new == old * pow10(more));
        lemma_powers(more, f);
        assert(more + f == exponent);
        let p = pow10(more);
        let q = pow10(f);
        assert(old * p * q == old * (p * q)) by (nonlinear_arith);
        assert(old * (p * q) * 1 == old * (p * q)) by (nonlinear_arith);
        assert(pow10(0) == 1);
    } else {
        if point < 0 {
            let zeros = repeated(48, (-point) as nat);
            lemma_digits_joined(zeros, digits);
            lemma_zeros((-point) as nat);
            assert(0 * pow10(digits.len()) == 0) by (nonlinear_arith);
            assert(before + behind =~= zeros + digits);
        } else {
            assert(before + behind =~= digits);
        }
        assert(new == old);
        assert(behind.len() == f - exponent);
        if exponent >= 0 {
            lemma_powers(exponent as nat, behind.len());
            let p = pow10(exponent as nat);
            let q = pow10(behind.len());
            assert(old * p * q == old * (p * q)) by (nonlinear_arith);
        } else {
            lemma_powers(f, (-exponent) as nat);
            let p = pow10(f);
            let q = pow10((-exponent) as nat);
            assert(old * p * q == old * (p * q)) by (nonlinear_arith);
        }
    }
}

proof fn lemma_below_power(digits: Seq<u8>)
    requires
        all_digits(digits),
    ensures
        digits_value(digits) < pow10(digits.len()),
    decreases digits.len(),
{
    if digits.len() > 0 {
        assert(is_digit(digits.last()));
        assert forall|i: int| 0 <= i < digits.drop_last().len() implies is_digit(
            #[trigger] digits.drop_last()[i],
        ) by {
            assert(is_digit(digits[i]));
        }
        lemma_below_power(digits.drop_last());
    }
}

proof fn lemma_no_zero(digits: Seq<u8>)
    requires
        forall|i: int| 0 <= i < digits.len() ==> #[trigger] digits[i] == 48,
    ensures
        digits_value(digits) == 0,
{
    assert(digits =~= repeated(48, digits.len()));
    lemma_zeros(digits.len());
}

/// What is left after the sixth place, against half of what the sixth place
/// counts.
proof fn lemma_rest(rest: Seq<u8>, kept: nat)
    requires
        rest.len() > 0,
        all_digits(rest),
    ensures
        rounds_up(rest, kept) ==> 2 * digits_value(rest) >= pow10(rest.len()),
        !rounds_up(rest, kept) ==> 2 * digits_value(rest) <= pow10(rest.len()),
        2 * digits_value(rest) == pow10(rest.len()) ==> rounds_up(rest, kept) == (kept % 2 == 1),
{
    let first = seq![rest[0]];
    let tail = rest.drop_first();
    assert(rest =~= first + tail);
    assert(is_digit(rest[0]));
    assert forall|i: int| 0 <= i < tail.len() implies is_digit(#[trigger] tail[i]) by {
        assert(is_digit(rest[i + 1]));
    }
    lemma_digits_joined(first, tail);
    lemma_below_power(tail);
    reveal_with_fuel(digits_value, 2);
    let d = (rest[0] - 48) as nat;
    assert(digits_value(first) == d);
    let p = pow10(tail.len());
    assert(pow10(rest.len()) == 10 * p);
    assert(p > 0);
    assert(digits_value(rest) == d * p + digits_value(tail));
    if d >= 6 {
        assert(d * p >= 6 * p) by (nonlinear_arith)
            requires
                d >= 6,
                p > 0,
        ;
    } else if d == 5 {
        assert(d * p == 5 * p) by (nonlinear_arith)
            requires
                d == 5,
        ;
        if exists|i: int| 1 <= i < rest.len() && #[trigger] rest[i] != 48 {
            let i = choose|i: int| 1 <= i < rest.len() && #[trigger] rest[i] != 48;
            lemma_some_digit(tail, i - 1);
        } else {
            assert forall|i: int| 0 <= i < tail.len() implies #[trigger] tail[i] == 48 by {
                assert(tail[i] == rest[i + 1]);
            }
            lemma_no_zero(tail);
        }
    } else {
        assert(d * p <= 4 * p) by (nonlinear_arith)
            requires
                d <= 4,
                p > 0,
        ;
    }
}

proof fn lemma_some_digit(digits: Seq<u8>, at: int)
    requires
        all_digits(digits),
        0 <= at < digits.len(),
        digits[at] != 48,
    ensures
        digits_value(digits) > 0,
    decreases digits.len(),
{
    assert(is_digit(digits.last()));
    if at < digits.len() - 1 {
        assert forall|i: int| 0 <= i < digits.drop_last().len() implies is_digit(
            #[trigger] digits.drop_last()[i],
        ) by {
            assert(is_digit(digits[i]));
        }
        lemma_some_digit(digits.drop_last(), at);
    }
}

/// A decimal fraction is read to the nearest millionth: no other is nearer, and
/// between two that are equally near the even one is taken.
pub proof fn law_the_nearest_millionth_is_read(whole: Seq<u8>, fraction: Seq<u8>)
    requires
        all_digits(whole),
        all_digits(fraction),
    ensures
        ({
            let read = millionths_in(whole, fraction) * pow10(fraction.len());
            let exact = digits_value(whole + fraction) * 1_000_000;
            &&& -pow10(fraction.len()) <= 2 * (read - exact) <= pow10(fraction.len())
            &&& 2 * (read - exact) == pow10(fraction.len()) || 2 * (exact - read) == pow10(
                fraction.len(),
            ) ==> millionths_in(whole, fraction) % 2 == 0
            &&& fraction.len() <= 6 ==> read == exact
        }),
{
    let six = six_places(fraction);
    let kept = digits_value(whole + six);
    let f = fraction.len();
    reveal_with_fuel(pow10, 8);
    assert(pow10(6) == 1_000_000);
    lemma_powers(f, 0);
    if f <= 6 {
        let more = (6 - f) as nat;
        let zeros = repeated(48, more);
        assert(whole + six =~= (whole + fraction) + zeros);
        lemma_digits_joined(whole + fraction, zeros);
        lemma_zeros(more);
        let v = digits_value(whole + fraction);
        lemma_powers(more, f);
        let p = pow10(more);
        let q = pow10(f);
        assert(v * p * q == v * (p * q)) by (nonlinear_arith);
        assert(kept == v * p);
        assert(millionths_in(whole, fraction) == kept);
    } else {
        let rest = fraction.skip(6);
        assert(whole + fraction =~= (whole + six) + rest);
        assert forall|i: int| 0 <= i < rest.len() implies is_digit(#[trigger] rest[i]) by {
            assert(is_digit(fraction[i + 6]));
        }
        lemma_digits_joined(whole + six, rest);
        lemma_rest(rest, kept);
        let r = digits_value(rest);
        let p = pow10(rest.len());
        lemma_powers(6, rest.len());
        assert(pow10(f) == 1_000_000 * p);
        let m = millionths_in(whole, fraction);
        assert(digits_value(whole + fraction) == kept * p + r);
        assert(m * (1_000_000 * p) == 1_000_000 * (m * p)) by (nonlinear_arith);
        assert((kept * p + r) * 1_000_000 == 1_000_000 * (kept * p) + 1_000_000 * r);
        assert(m == kept || m == kept + 1);
        assert((kept + 1) * p == kept * p + p) by (nonlinear_arith);
        lemma_below_power(rest);
    }
}

proof fn lemma_mark(body: Seq<u8>, at: int, mark: int)
    requires
        0 <= at <= mark < body.len(),
        body[mark] == 0x65 || body[mark] == 0x45,
        forall|i: int| at <= i < mark ==> is_digit(#[trigger] body[i]) || body[i] == 46,
    ensures
        exponent_mark(body, at) == mark,
    decreases mark - at,
{
    if at < mark {
        assert(is_digit(body[at]) || body[at] == 46);
        lemma_mark(body, at + 1, mark);
    }
}

/// A decimal fraction with an exponent is read as its digits with the point
/// moved by the exponent, whether a small or a large letter marks it.
pub proof fn law_an_exponent_is_read(
    whole: Seq<u8>,
    fraction: Seq<u8>,
    mark: u8,
    exponent: nat,
    negative: bool,
)
    requires
        all_digits(whole),
        all_digits(fraction),
        whole.len() + fraction.len() > 0,
        mark == 0x65 || mark == 0x45,
        exponent <= MAX_EXPONENT,
    ensures
        real_parts(
            whole + seq![46u8] + fraction + seq![mark] + (if negative {
                seq![45u8]
            } else {
                Seq::empty()
            }) + decimal(exponent),
        ) == Some(
            scaled(
                whole,
                fraction,
                if negative {
                    -(exponent as int)
                } else {
                    exponent as int
                },
            ),
        ),
{
    let digits = decimal(exponent);
    law_decimal_reads_back(exponent);
    let sign = if negative {
        seq![45u8]
    } else {
        Seq::empty()
    };
    let text = sign + digits;
    let mantissa = whole + seq![46u8] + fraction;
    let body = whole + seq![46u8] + fraction + seq![mark] + sign + digits;
    let at = mantissa.len() as int;
    assert forall|i: int| 0 <= i < at implies is_digit(#[trigger] body[i]) || body[i] == 46 by {
        if i < whole.len() {
            assert(body[i] == whole[i]);
        } else if i > whole.len() {
            assert(body[i] == fraction[i - whole.len() - 1]);
        }
    }
    assert(body[at] == mark);
    lemma_mark(body, 0, at);
    assert(body.take(at) =~= mantissa);
    assert(body.skip(at + 1) =~= text);
    assert(mantissa =~= whole + (seq![46u8] + fraction));
    lemma_point(whole, seq![46u8] + fraction, 0);
    assert(mantissa.take(whole.len() as int) =~= whole);
    assert(mantissa.skip(whole.len() as int + 1) =~= fraction);
    assert(is_digit(digits[0]));
    if negative {
        assert(text.drop_first() =~= digits);
        assert(text[1] == digits[0]);
    } else {
        assert(text =~= digits);
    }
    assert(unsigned_of(digits, MAX_EXPONENT as nat) == Some(exponent));
}

} // verus!
