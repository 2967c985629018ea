//! Dates, as the PDF syntax writes them.

use crate::text::{decimal_text, owned, padded_text, push_padded, push_str};
use vstd::arithmetic::div_mod::{lemma_hoist_over_denominator, lemma_mod_multiples_vanish};
use vstd::prelude::*;

verus! {

/// Is this a leap year of the Gregorian calendar?
pub open spec fn is_leap(year: int) -> bool {
    year % 4 == 0 && (year % 100 != 0 || year % 400 == 0)
}

/// How many days a month has.
pub open spec fn days_in_month(year: int, month: int) -> int {
    if month == 2 {
        if is_leap(year) {
            29
        } else {
            28
        }
    } else if month == 4 || month == 6 || month == 9 || month == 11 {
        30
    } else {
        31
    }
}

/// How many days of a year are over when a month starts.
pub open spec fn days_before_month(year: int, month: int) -> int
    decreases month,
{
    if month <= 1 {
        0
    } else {
        days_before_month(year, month - 1) + days_in_month(year, month - 1)
    }
}

/// How many days lie between the start of year 0 and the start of a year.
pub open spec fn days_before_year(year: int) -> int {
    365 * year + (year + 3) / 4 - (year + 99) / 100 + (year + 399) / 400
}

/// The number of a day of the Gregorian calendar, counted from 1970-01-01.
pub open spec fn day_number(year: int, month: int, day: int) -> int {
    days_before_year(year) + days_before_month(year, month) + day - 1 - 719_528
}

/// Is there such a day?
pub open spec fn is_date(year: int, month: int, day: int) -> bool {
    1 <= month <= 12 && 1 <= day <= days_in_month(year, month)
}

/// A year follows the one before it by as many days as that one has.
#[verifier::spinoff_prover]
#[verifier::rlimit(40)]
pub proof fn law_years_follow_each_other(year: int)
    ensures
        days_before_year(year + 1) == days_before_year(year) + if is_leap(year) {
            366int
        } else {
            365
        },
{    lemma_rounded_up(year, 4);
    lemma_rounded_up(year, 100);
    lemma_rounded_up(year, 400);
    assert(year % 400 == 0 ==> year % 100 == 0);
    assert(year % 100 == 0 ==> year % 4 == 0);
}

/// Of the years before one, every `m`th counts from the first on.
proof fn lemma_rounded_up(year: int, m: int)
    requires
        m > 1,
    ensures
        (year + 1 + (m - 1)) / m - (year + (m - 1)) / m == if year % m == 0 {
            1int
        } else {
            0
        },
{
    let q = year / m;
    let r = year % m;
    assert(year == m * q + r && 0 <= r < m) by (nonlinear_arith)
        requires
            q == year / m,
            r == year % m,
            m > 1,
    ;
    assert((year + 1 + (m - 1)) / m == q + 1) by (nonlinear_arith)
        requires
            year == m * q + r,
            0 <= r < m,
    ;
    if r == 0 {
        assert((year + (m - 1)) / m == q) by (nonlinear_arith)
            requires
                year == m * q,
                m > 1,
        ;
    } else {
        assert((year + (m - 1)) / m == q + 1) by (nonlinear_arith)
            requires
                year == m * q + r,
                0 < r < m,
        ;
    }
}

proof fn lemma_months(year: int)
    ensures
        days_before_month(year, 1) == 0,
        days_before_month(year, 2) == 31,
        days_before_month(year, 3) == 59 + if is_leap(year) { 1int } else { 0 },
        days_before_month(year, 4) == days_before_month(year, 3) + 31,
        days_before_month(year, 5) == days_before_month(year, 3) + 61,
        days_before_month(year, 6) == days_before_month(year, 3) + 92,
        days_before_month(year, 7) == days_before_month(year, 3) + 122,
        days_before_month(year, 8) == days_before_month(year, 3) + 153,
        days_before_month(year, 9) == days_before_month(year, 3) + 184,
        days_before_month(year, 10) == days_before_month(year, 3) + 214,
        days_before_month(year, 11) == days_before_month(year, 3) + 245,
        days_before_month(year, 12) == days_before_month(year, 3) + 275,
{
    reveal_with_fuel(days_before_month, 13);
}

/// The days of an era of 400 years that starts on the first of March: a year of
/// the era and a day of that year.
proof fn lemma_year_of_era(doe: int, yoe: int, doy: int)
    requires
        0 <= doe < 146_097,
        yoe == (doe - doe / 1460 + doe / 36_524 - doe / 146_096) / 365,
        doy == doe - (365 * yoe + yoe / 4 - yoe / 100),
    ensures
        0 <= yoe <= 399,
        0 <= doy <= 365,
        doy == 365 ==> is_leap(yoe + 1),
{
    let century = doe / 36_524 - doe / 146_096;
    let q = doe / 1460;
    let s = doe % 1460;
    assert(0 <= century <= 3);
    assert(doe == 1460 * q + s);
    assert(yoe == (1459 * q + s + century) / 365);
    let j = (s + century - q) / 365;
    assert(yoe == 4 * q + j);
    assert(0 <= q <= 100);
    assert(-1 <= j <= 3);
}

/// The same for a day before the first of January, which a leap day at the end
/// does not reach.
proof fn lemma_early_months(year: int, doy: int, mp: int, d: int)
    requires
        0 <= doy <= 365,
        mp == (5 * doy + 2) / 153,
        mp < 10,
        d == doy - (153 * mp + 2) / 5 + 1,
    ensures
        0 <= mp,
        is_date(year, mp + 3, d),
        days_before_month(year, mp + 3) + d - 1 == days_before_month(year, 3) + doy,
{
    lemma_months(year);
    if mp == 0 {
    } else if mp == 1 {
    } else if mp == 2 {
    } else if mp == 3 {
    } else if mp == 4 {
    } else if mp == 5 {
    } else if mp == 6 {
    } else if mp == 7 {
    } else if mp == 8 {
    } else {
        assert(mp == 9);
    }
}

/// A day of January or February of a year, counted from the first of March of
/// the year before.
proof fn lemma_day_of_year(year: int, doy: int, mp: int, d: int, month: int)
    requires
        0 <= doy <= 365,
        mp == (5 * doy + 2) / 153,
        mp >= 10,
        d == doy - (153 * mp + 2) / 5 + 1,
        month == mp - 9,
        doy == 365 ==> is_leap(year),
    ensures
        mp <= 11,
        is_date(year, month, d),
        days_before_month(year, month) + d - 1 == doy - 306,
{
    lemma_months(year);
    if mp == 10 {
    } else {
        assert(mp == 11);
    }
}

proof fn lemma_years_grow(earlier: int, later: int)
    requires
        earlier <= later,
    ensures
        days_before_year(earlier) <= days_before_year(later),
    decreases later - earlier,
{
    if earlier < later {
        lemma_years_grow(earlier, later - 1);
        law_years_follow_each_other(later - 1);
    }
}

proof fn lemma_months_grow(year: int, earlier: int, later: int)
    requires
        1 <= earlier < later <= 13,
    ensures
        days_before_month(year, earlier) + days_in_month(year, earlier) <= days_before_month(
            year,
            later,
        ),
        days_before_month(year, 13) == if is_leap(year) {
            366int
        } else {
            365
        },
        days_before_month(year, earlier) >= 0,
    decreases later - earlier,
{
    reveal_with_fuel(days_before_month, 14);
    if earlier + 1 < later {
        lemma_months_grow(year, earlier, later - 1);
    }
}

proof fn lemma_within_year(year: int, month: int, day: int)
    requires
        is_date(year, month, day),
    ensures
        days_before_year(year) <= day_number(year, month, day) + 719_528 < days_before_year(
            year + 1,
        ),
{
    law_years_follow_each_other(year);
    lemma_months_grow(year, month, 13);
}

/// No two dates are the same day.
pub proof fn law_a_day_has_one_date(
    year: int,
    month: int,
    day: int,
    other_year: int,
    other_month: int,
    other_day: int,
)
    requires
        is_date(year, month, day),
        is_date(other_year, other_month, other_day),
        day_number(year, month, day) == day_number(other_year, other_month, other_day),
    ensures
        year == other_year,
        month == other_month,
        day == other_day,
{
    lemma_within_year(year, month, day);
    lemma_within_year(other_year, other_month, other_day);
    if year < other_year {
        lemma_years_grow(year + 1, other_year);
    } else if other_year < year {
        lemma_years_grow(other_year + 1, year);
    } else if month < other_month {
        lemma_months_grow(year, month, other_month);
    } else if other_month < month {
        lemma_months_grow(year, other_month, month);
    }
}

proof fn lemma_shift(a: int, era: int)
    ensures
        (a + era * 400) / 4 == a / 4 + era * 100,
        (a + era * 400) / 100 == a / 100 + era * 4,
        (a + era * 400) / 400 == a / 400 + era,
        (a + era * 400) % 4 == a % 4,
        (a + era * 400) % 100 == a % 100,
        (a + era * 400) % 400 == a % 400,
{
    lemma_hoist_over_denominator(a, era * 100, 4);
    lemma_hoist_over_denominator(a, era * 4, 100);
    lemma_hoist_over_denominator(a, era, 400);
    lemma_mod_multiples_vanish(era * 100, a, 4);
    lemma_mod_multiples_vanish(era * 4, a, 100);
    lemma_mod_multiples_vanish(era, a, 400);
}

/// Four hundred years have the same number of days wherever they start.
proof fn lemma_eras(yoe: int, era: int)
    ensures
        days_before_year(yoe + era * 400) == 146_097 * era + days_before_year(yoe),
        is_leap(yoe + era * 400) == is_leap(yoe),
{
    lemma_shift(yoe, era);
    lemma_shift(yoe + 3, era);
    lemma_shift(yoe + 99, era);
    lemma_shift(yoe + 399, era);
}

proof fn lemma_days_before_year(yoe: int)
    requires
        0 <= yoe <= 399,
    ensures
        days_before_year(yoe + 1) == 366 + 365 * yoe + yoe / 4 - yoe / 100,
{
}

proof fn lemma_finish(days: int, era: int, doe: int, yoe: int, doy: int, mp: int, d: int)
    requires
        doe == days + 719_468 - era * 146_097,
        0 <= doe < 146_097,
        0 <= yoe <= 399,
        0 <= doy <= 365,
        doy == 365 ==> is_leap(yoe + 1),
        doy == doe - (365 * yoe + yoe / 4 - yoe / 100),
        mp == (5 * doy + 2) / 153,
        d == doy - (153 * mp + 2) / 5 + 1,
    ensures
        0 <= mp <= 11,
        ({
            let month = if mp < 10 {
                mp + 3
            } else {
                mp - 9
            };
            let year = yoe + era * 400 + if month <= 2 {
                1int
            } else {
                0
            };
            is_date(year, month, d) && day_number(year, month, d) == days
        }),
{
    let y = yoe + era * 400;
    lemma_eras(yoe, era);
    lemma_eras(yoe + 1, era);
    lemma_days_before_year(yoe);
    law_years_follow_each_other(y);
    lemma_months(y);
    lemma_months(y + 1);
    if mp >= 10 {
        lemma_day_of_year(y + 1, doy, mp, d, mp - 9);
    } else if mp < 10 {
        lemma_early_months(y, doy, mp, d);
    }
}

/// The date of a day that is counted from 1970-01-01.
pub fn civil_from_days(days: i64) -> (date: (i64, u32, u32))
    requires
        -110_000_000_000_000 <= days <= 110_000_000_000_000,
    ensures
        is_date(date.0 as int, date.1 as int, date.2 as int),
        day_number(date.0 as int, date.1 as int, date.2 as int) == days,
        -400_000_000_000 <= date.0 <= 400_000_000_000,
{
    let z: i64 = days + 719_468;
    let era: i64 = match z.checked_div_euclid(146_097) {
        Some(era) => era,
        None => 0,
    };
    let doe: i64 = z - era * 146_097;
    let yoe: i64 = (doe - doe / 1460 + doe / 36_524 - doe / 146_096) / 365;
    assert(0 <= doe < 146_097);
    let ghost doy_of_era = doe - (365 * yoe + yoe / 4 - yoe / 100);
    proof {
        lemma_year_of_era(doe as int, yoe as int, doy_of_era);
    }
    let y: i64 = yoe + era * 400;
    let doy: i64 = doe - (365 * yoe + yoe / 4 - yoe / 100);
    let mp: i64 = (5 * doy + 2) / 153;
    let d: i64 = doy - (153 * mp + 2) / 5 + 1;
    let m: i64 = if mp < 10 {
        mp + 3
    } else {
        mp - 9
    };
    let year: i64 = if m <= 2 {
        y + 1
    } else {
        y
    };
    proof {
        lemma_finish(days as int, era as int, doe as int, yoe as int, doy as int, mp as int, d as int);
    }
    (year, m as u32, d as u32)
}

/// A year with four digits or more, and a sign before it where it is negative.
/// The sign counts as a digit.
pub open spec fn year_text(year: int) -> Seq<char> {
    if year >= 0 {
        padded_text(year as nat, 4)
    } else {
        "-"@ + padded_text((-year) as nat, 3)
    }
}

/// A date in UTC, as the PDF syntax writes it.
pub open spec fn date_text(year: int, month: int, day: int, seconds: int) -> Seq<char> {
    "D:"@ + year_text(year) + padded_text(month as nat, 2) + padded_text(day as nat, 2)
        + padded_text((seconds / 3600) as nat, 2) + padded_text((seconds % 3600 / 60) as nat, 2)
        + padded_text((seconds % 60) as nat, 2) + "+00'00'"@
}

/// Is this the date of a day that is counted from 1970-01-01?
pub open spec fn is_date_of(date: (int, int, int), days: int) -> bool {
    is_date(date.0, date.1, date.2) && day_number(date.0, date.1, date.2) == days
}

/// The date of a day that is counted from 1970-01-01.
pub open spec fn date_of(days: int) -> (int, int, int) {
    choose|date: (int, int, int)| is_date_of(date, days)
}

/// A moment given in seconds since the start of 1970, in the form
/// `D:YYYYMMDDHHmmSS+00'00'`.
pub open spec fn moment_text(unix_seconds: int) -> Seq<char> {
    let date = date_of(unix_seconds / 86_400);
    date_text(date.0, date.1, date.2, unix_seconds % 86_400)
}

/// A moment given in seconds since the start of 1970, in the form
/// `D:YYYYMMDDHHmmSS+00'00'`.
pub fn pdf_date(unix_seconds: i64) -> (text: String)
    ensures
        text@ == moment_text(unix_seconds as int),
{
    let days: i64 = match unix_seconds.checked_div_euclid(86_400) {
        Some(days) => days,
        None => 0,
    };
    let seconds: i64 = match unix_seconds.checked_rem_euclid(86_400) {
        Some(seconds) => seconds,
        None => 0,
    };
    let (year, month, day) = civil_from_days(days);
    let mut text = owned("D:");
    let ghost start = text@;
    if year >= 0 {
        push_padded(&mut text, year as u64, 4);
    } else {
        push_str(&mut text, "-");
        push_padded(&mut text, (-year) as u64, 3);
    }
    assert(text@ =~= start + year_text(year as int));
    push_padded(&mut text, month as u64, 2);
    push_padded(&mut text, day as u64, 2);
    push_padded(&mut text, (seconds / 3600) as u64, 2);
    push_padded(&mut text, (seconds % 3600 / 60) as u64, 2);
    push_padded(&mut text, (seconds % 60) as u64, 2);
    push_str(&mut text, "+00'00'");
    proof {
        let date = (year as int, month as int, day as int);
        assert(is_date_of(date, days as int));
        let found = date_of(days as int);
        assert(is_date_of(found, days as int));
        law_a_day_has_one_date(date.0, date.1, date.2, found.0, found.1, found.2);
    }
    text
}

/// Every day has a date.
proof fn lemma_a_day_has_a_date(days: int)
    ensures
        is_date_of(date_of(days), days),
{
    let z = days + 719_468;
    let era = z / 146_097;
    let doe = z - era * 146_097;
    let yoe = (doe - doe / 1460 + doe / 36_524 - doe / 146_096) / 365;
    let doy = doe - (365 * yoe + yoe / 4 - yoe / 100);
    let mp = (5 * doy + 2) / 153;
    let d = doy - (153 * mp + 2) / 5 + 1;
    assert(0 <= doe < 146_097);
    lemma_year_of_era(doe, yoe, doy);
    lemma_finish(days, era, doe, yoe, doy, mp, d);
    let month = if mp < 10 {
        mp + 3
    } else {
        mp - 9
    };
    let year = yoe + era * 400 + if month <= 2 {
        1int
    } else {
        0
    };
    assert(is_date_of((year, month, d), days));
}

/// The calendar goes on from each day to the next: the day after is the next of
/// the same month, or the first of the next month once the month is over, or the
/// first of January once the year is. Thirty days have April, June, September and
/// November, twenty-eight has February, or twenty-nine in every fourth year but
/// three of four hundredth ones, and all others have thirty-one. The count starts
/// on the first of January 1970.
pub proof fn law_the_calendar_goes_on(days: int)
    ensures
        date_of(0) == (1970int, 1int, 1int),
        ({
            let (year, month, day) = date_of(days);
            let leap = year % 400 == 0 || (year % 4 == 0 && year % 100 != 0);
            let length = if month == 2 {
                if leap {
                    29int
                } else {
                    28
                }
            } else if month == 4 || month == 6 || month == 9 || month == 11 {
                30
            } else {
                31
            };
            &&& 1 <= month <= 12
            &&& 1 <= day <= length
            &&& date_of(days + 1) == (if day < length {
                (year, month, day + 1)
            } else if month < 12 {
                (year, month + 1, 1int)
            } else {
                (year + 1, 1int, 1int)
            })
        }),
{
    lemma_a_day_has_a_date(0);
    let start = date_of(0);
    lemma_months(1970);
    assert(is_date_of((1970, 1, 1), 0));
    law_a_day_has_one_date(start.0, start.1, start.2, 1970, 1, 1);
    lemma_a_day_has_a_date(days);
    lemma_a_day_has_a_date(days + 1);
    let (year, month, day) = date_of(days);
    let next = date_of(days + 1);
    let after = if day < days_in_month(year, month) {
        (year, month, day + 1)
    } else if month < 12 {
        (year, month + 1, 1int)
    } else {
        (year + 1, 1int, 1int)
    };
    if day == days_in_month(year, month) {
        if month < 12 {
            assert(days_before_month(year, month + 1) == days_before_month(year, month)
                + days_in_month(year, month));
        } else {
            lemma_months_grow(year, 12, 13);
            assert(days_before_month(year, 13) == days_before_month(year, 12) + days_in_month(
                year,
                12,
            ));
            law_years_follow_each_other(year);
            lemma_months(year + 1);
        }
    }
    assert(is_date_of(after, days + 1));
    law_a_day_has_one_date(next.0, next.1, next.2, after.0, after.1, after.2);
}

/// The digit that a character of a text is.
pub open spec fn digit_at(text: Seq<char>, at: int) -> int {
    text[at] as int - 48
}

proof fn lemma_two_digits(n: nat)
    requires
        n < 100,
    ensures
        padded_text(n, 2).len() == 2,
        digit_at(padded_text(n, 2), 0) == n / 10,
        digit_at(padded_text(n, 2), 1) == n % 10,
{
    reveal_with_fuel(decimal_text, 3);
    if n < 10 {
        assert(decimal_text(n).len() == 1);
    } else {
        assert(decimal_text(n).len() == 2);
    }
}

proof fn lemma_four_digits(n: nat)
    requires
        n < 10_000,
    ensures
        padded_text(n, 4).len() == 4,
        digit_at(padded_text(n, 4), 0) == n / 1000,
        digit_at(padded_text(n, 4), 1) == n / 100 % 10,
        digit_at(padded_text(n, 4), 2) == n / 10 % 10,
        digit_at(padded_text(n, 4), 3) == n % 10,
{
    reveal_with_fuel(decimal_text, 5);
    if n < 10 {
        assert(decimal_text(n).len() == 1);
    } else if n < 100 {
        assert(decimal_text(n).len() == 2);
    } else if n < 1000 {
        assert(decimal_text(n).len() == 3);
    } else {
        assert(decimal_text(n).len() == 4);
    }
}

/// The year that a date starts with.
pub open spec fn year_in(text: Seq<char>) -> int {
    1000 * digit_at(text, 2) + 100 * digit_at(text, 3) + 10 * digit_at(text, 4) + digit_at(text, 5)
}

/// The two digits of a date from `at` on.
pub open spec fn pair_in(text: Seq<char>, at: int) -> int {
    10 * digit_at(text, at) + digit_at(text, at + 1)
}

/// A date is read back as the moment that it was made of: behind `D:` stand four
/// digits of the year and two each of the month, the day, the hour, the minute
/// and the second, and behind them that the time is UTC. This holds of every
/// moment from the year 0 to the year 9999.
pub proof fn law_a_date_is_read_back(moment: int)
    requires
        -62_167_219_200 <= moment < 253_402_300_800,
    ensures
        ({
            let text = moment_text(moment);
            let (year, month, day) = (year_in(text), pair_in(text, 6), pair_in(text, 8));
            let (hour, minute, second) = (pair_in(text, 10), pair_in(text, 12), pair_in(text, 14));
            &&& text.len() == 23
            &&& text.take(2) == "D:"@
            &&& text.skip(16) == "+00'00'"@
            &&& forall|k: int| 2 <= k < 16 ==> 0 <= #[trigger] digit_at(text, k) <= 9
            &&& (year, month, day) == date_of(moment / 86_400)
            &&& 0 <= hour < 24 && 0 <= minute < 60 && 0 <= second < 60
            &&& day_number(year, month, day) * 86_400 + hour * 3600 + minute * 60 + second == moment
        }),
{
    let days = moment / 86_400;
    let seconds = moment % 86_400;
    lemma_a_day_has_a_date(days);
    let (year, month, day) = date_of(days);
    lemma_year_has_four_digits(year, month, day);
    let (hour, minute, second) = (seconds / 3600, seconds % 3600 / 60, seconds % 60);
    assert(hour * 3600 + minute * 60 + second == seconds);
    lemma_date_digits(year, month, day, hour, minute, second);
}

proof fn lemma_year_has_four_digits(year: int, month: int, day: int)
    requires
        is_date(year, month, day),
        -719_528 <= day_number(year, month, day) < 2_932_897,
    ensures
        0 <= year < 10_000,
{
    lemma_within_year(year, month, day);
    assert(days_before_year(0) == 0 && days_before_year(10_000) == 3_652_425);
    if year < 0 {
        lemma_years_grow(year + 1, 0);
    }
    if year >= 10_000 {
        lemma_years_grow(10_000, year);
    }
}

/// Where the parts of a date stand in it.
proof fn lemma_date_places(
    mark: Seq<char>,
    a: Seq<char>,
    b: Seq<char>,
    c: Seq<char>,
    d: Seq<char>,
    e: Seq<char>,
    f: Seq<char>,
    zone: Seq<char>,
)
    requires
        mark.len() == 2,
        a.len() == 4,
        b.len() == 2,
        c.len() == 2,
        d.len() == 2,
        e.len() == 2,
        f.len() == 2,
    ensures
        ({
            let text = mark + a + b + c + d + e + f + zone;
            &&& text.len() == 16 + zone.len()
            &&& text.take(2) == mark
            &&& text.skip(16) == zone
            &&& text[2] == a[0] && text[3] == a[1] && text[4] == a[2] && text[5] == a[3]
            &&& text[6] == b[0] && text[7] == b[1] && text[8] == c[0] && text[9] == c[1]
            &&& text[10] == d[0] && text[11] == d[1] && text[12] == e[0] && text[13] == e[1]
            &&& text[14] == f[0] && text[15] == f[1]
        }),
{
    let text = mark + a + b + c + d + e + f + zone;
    assert(text.take(2) =~= mark);
    assert(text.skip(16) =~= zone);
}

proof fn lemma_date_digits(year: int, month: int, day: int, hour: int, minute: int, second: int)
    requires
        0 <= year < 10_000,
        0 <= month < 100,
        0 <= day < 100,
        0 <= hour < 24,
        0 <= minute < 60,
        0 <= second < 60,
    ensures
        ({
            let text = date_text(year, month, day, hour * 3600 + minute * 60 + second);
            &&& text.len() == 23
            &&& text.take(2) == "D:"@
            &&& text.skip(16) == "+00'00'"@
            &&& forall|k: int| 2 <= k < 16 ==> 0 <= #[trigger] digit_at(text, k) <= 9
            &&& (year_in(text), pair_in(text, 6), pair_in(text, 8)) == (year, month, day)
            &&& (pair_in(text, 10), pair_in(text, 12), pair_in(text, 14)) == (
                hour,
                minute,
                second,
            )
        }),
{
    lemma_four_digits(year as nat);
    lemma_two_digits(month as nat);
    lemma_two_digits(day as nat);
    lemma_two_digits(hour as nat);
    lemma_two_digits(minute as nat);
    lemma_two_digits(second as nat);
    reveal_strlit("D:");
    reveal_strlit("+00'00'");
    let seconds = hour * 3600 + minute * 60 + second;
    assert(seconds / 3600 == hour && seconds % 3600 / 60 == minute && seconds % 60 == second);
    let text = date_text(year, month, day, seconds);
    lemma_date_places(
        "D:"@,
        padded_text(year as nat, 4),
        padded_text(month as nat, 2),
        padded_text(day as nat, 2),
        padded_text(hour as nat, 2),
        padded_text(minute as nat, 2),
        padded_text(second as nat, 2),
        "+00'00'"@,
    );
    assert forall|k: int| 2 <= k < 16 implies 0 <= #[trigger] digit_at(text, k) <= 9 by {
        if k == 2 || k == 3 || k == 4 || k == 5 || k == 6 || k == 7 || k == 8 || k == 9 {
        } else if k == 10 || k == 11 || k == 12 || k == 13 {
        } else {
            assert(k == 14 || k == 15);
        }
    }
}

} // verus!
