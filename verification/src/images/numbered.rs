//! Names with numbers in them stand in the order of the numbers.

use crate::images::order::{
    digits_end, first_of, folded, is_digit_char, lemma_digits_end, lemma_run_same,
    lemma_without_zeros, letters_rank, natural, natural_rank, number_rank, run_rank, without_zeros,
    Rank,
};
use crate::pdfwrite::laws::pow10;
use crate::text::{digit_value, lemma_zeros_before, number_in_base, repeated_char};
use vstd::prelude::*;

verus! {

/// A run of digits.
pub open spec fn is_run(digits: Seq<char>) -> bool {
    forall|i: int| 0 <= i < digits.len() ==> is_digit_char(#[trigger] digits[i])
}

proof fn lemma_letters_by_last(x: Seq<char>, y: Seq<char>, k: int)
    requires
        x.len() == y.len(),
        0 <= k < x.len(),
    ensures
        letters_rank(x, y, k) == first_of(
            letters_rank(x.drop_last(), y.drop_last(), k),
            number_rank(x.last() as int, y.last() as int),
        ),
    decreases x.len() - k,
{
    reveal_with_fuel(letters_rank, 2);
    if k + 1 < x.len() {
        lemma_letters_by_last(x, y, k + 1);
        assert(x.drop_last()[k] == x[k] && y.drop_last()[k] == y[k]);
    }
}

proof fn lemma_value_step(x: Seq<char>)
    requires
        x.len() > 0,
    ensures
        number_in_base(x, 10) == number_in_base(x.drop_last(), 10) * 10 + digit_value(x.last()),
{
}

proof fn lemma_same_length(x: Seq<char>, y: Seq<char>)
    requires
        x.len() == y.len(),
        is_run(x),
        is_run(y),
    ensures
        letters_rank(x, y, 0) == number_rank(number_in_base(x, 10), number_in_base(y, 10)),
    decreases x.len(),
{
    if x.len() > 0 {
        lemma_letters_by_last(x, y, 0);
        assert forall|i: int| 0 <= i < x.len() - 1 implies is_digit_char(
            #[trigger] x.drop_last()[i],
        ) && is_digit_char(y.drop_last()[i]) by {
            assert(is_digit_char(x[i]) && is_digit_char(y[i]));
        }
        lemma_same_length(x.drop_last(), y.drop_last());
        lemma_value_step(x);
        lemma_value_step(y);
        assert(is_digit_char(x[x.len() - 1]) && is_digit_char(y[y.len() - 1]));
    }
}

proof fn lemma_value_bounds(x: Seq<char>)
    requires
        is_run(x),
    ensures
        0 <= number_in_base(x, 10) < pow10(x.len()),
        x.len() > 0 && x[0] != '0' ==> number_in_base(x, 10) >= pow10((x.len() - 1) as nat),
    decreases x.len(),
{
    reveal_with_fuel(pow10, 2);
    if x.len() > 0 {
        let before = x.drop_last();
        assert forall|i: int| 0 <= i < before.len() implies is_digit_char(#[trigger] before[i]) by {
            assert(is_digit_char(x[i]));
        }
        lemma_value_bounds(before);
        lemma_value_step(x);
        assert(is_digit_char(x[x.len() - 1]));
        if x.len() > 1 {
            assert(before[0] == x[0]);
        } else {
            assert(before =~= Seq::empty());
        }
    }
}

proof fn lemma_powers_grow(a: nat, b: nat)
    requires
        a <= b,
    ensures
        pow10(a) <= pow10(b),
    decreases b - a,
{
    if a < b {
        lemma_powers_grow(a, (b - 1) as nat);
        reveal_with_fuel(pow10, 2);
    }
}

proof fn lemma_zeros_do_not_count(digits: Seq<char>)
    requires
        is_run(digits),
    ensures
        number_in_base(digits, 10) == number_in_base(without_zeros(digits), 10),
        is_run(without_zeros(digits)),
        without_zeros(digits).len() > 0 ==> without_zeros(digits)[0] != '0',
    decreases digits.len(),
{
    lemma_without_zeros(digits);
    let rest = without_zeros(digits);
    let zeros = (digits.len() - rest.len()) as nat;
    assert(digits =~= repeated_char('0', zeros) + rest) by {
        assert forall|i: int| zeros <= i < digits.len() implies digits[i] == rest[i - zeros] by {
            assert(digits.skip(zeros as int)[i - zeros] == digits[i]);
        }
    }
    lemma_zeros_before(rest, zeros, 10);
    assert forall|i: int| 0 <= i < rest.len() implies is_digit_char(#[trigger] rest[i]) by {
        assert(rest[i] == digits[i + zeros]);
    }
    lemma_first_is_no_zero(digits);
}

proof fn lemma_first_is_no_zero(digits: Seq<char>)
    ensures
        without_zeros(digits).len() > 0 ==> without_zeros(digits)[0] != '0',
    decreases digits.len(),
{
    if digits.len() > 0 && digits[0] == '0' {
        lemma_first_is_no_zero(digits.drop_first());
    }
}

/// Runs of digits stand in the order of the numbers that they are, however long they
/// are and whatever zeros stand before them. Of two for the same number the shorter
/// comes first.
pub proof fn law_numbers_stand_in_their_order(one: Seq<char>, two: Seq<char>)
    requires
        is_run(one),
        is_run(two),
    ensures
        ({
            let (a, b) = (number_in_base(one, 10), number_in_base(two, 10));
            &&& a < b ==> run_rank(one, two) == Rank::Before
            &&& a > b ==> run_rank(one, two) == Rank::After
            &&& a == b && one.len() < two.len() ==> run_rank(one, two) == Rank::Before
            &&& a == b && one.len() > two.len() ==> run_rank(one, two) == Rank::After
        }),
{
    let x = without_zeros(one);
    let y = without_zeros(two);
    lemma_zeros_do_not_count(one);
    lemma_zeros_do_not_count(two);
    lemma_value_bounds(x);
    lemma_value_bounds(y);
    if x.len() < y.len() {
        lemma_powers_grow(x.len(), (y.len() - 1) as nat);
    } else if x.len() > y.len() {
        lemma_powers_grow(y.len(), (x.len() - 1) as nat);
    } else {
        lemma_same_length(x, y);
    }
}

proof fn lemma_digits_in_front(front: Seq<char>, rest: Seq<char>, i: int)
    requires
        0 <= i < front.len(),
        !is_digit_char(front.last()),
    ensures
        digits_end(front + rest, i) == digits_end(front, i),
        digits_end(front, i) < front.len(),
    decreases front.len() - i,
{
    assert((front + rest)[i] == front[i]);
    if is_digit_char(front[i]) {
        assert(i + 1 < front.len());
        lemma_digits_in_front(front, rest, i + 1);
    }
}

proof fn lemma_past_the_front(front: Seq<char>, a: Seq<char>, b: Seq<char>, i: int)
    requires
        0 <= i <= front.len(),
        front.len() > 0 ==> !is_digit_char(front.last()),
    ensures
        natural_rank(front + a, i, front + b, i) == natural_rank(
            front + a,
            front.len() as int,
            front + b,
            front.len() as int,
        ),
    decreases front.len() - i,
{
    let x = front + a;
    let y = front + b;
    if i < front.len() {
        assert(x[i] == front[i] && y[i] == front[i]);
        if is_digit_char(front[i]) {
            lemma_digits_in_front(front, a, i);
            lemma_digits_in_front(front, b, i);
            lemma_digits_end(x, i);
            let end = digits_end(front, i);
            assert(x.subrange(i, end) =~= y.subrange(i, end));
            lemma_run_same(x.subrange(i, end), y.subrange(i, end));
            lemma_past_the_front(front, a, b, end);
        } else {
            lemma_past_the_front(front, a, b, i + 1);
        }
    }
}

proof fn lemma_run_ends(text: Seq<char>, from: int, run: Seq<char>, k: int)
    requires
        0 <= from,
        0 <= k <= run.len(),
        from + run.len() <= text.len(),
        text.subrange(from, from + run.len()) == run,
        is_run(run),
        from + run.len() < text.len() ==> !is_digit_char(text[(from + run.len()) as int]),
    ensures
        digits_end(text, from + k) == from + run.len(),
    decreases run.len() - k,
{
    if k < run.len() {
        assert(text.subrange(from, from + run.len())[k] == text[from + k]);
        assert(is_digit_char(run[k]));
        lemma_run_ends(text, from, run, k + 1);
    }
}

/// Names that start alike and then have numbers stand in the order of the numbers,
/// whatever follows: the second page before the tenth.
pub proof fn law_numbered_names_stand_in_order(
    front: Seq<char>,
    one: Seq<char>,
    two: Seq<char>,
    after_one: Seq<char>,
    after_two: Seq<char>,
)
    requires
        front.len() > 0 ==> !is_digit_char(front.last()),
        one.len() > 0,
        two.len() > 0,
        is_run(one),
        is_run(two),
        after_one.len() > 0 ==> !is_digit_char(after_one[0]),
        after_two.len() > 0 ==> !is_digit_char(after_two[0]),
        number_in_base(one, 10) < number_in_base(two, 10),
    ensures
        natural(front + (one + after_one), front + (two + after_two)) == Rank::Before,
{
    let a = one + after_one;
    let b = two + after_two;
    let x = front + a;
    let y = front + b;
    let p = front.len() as int;
    lemma_past_the_front(front, a, b, 0);
    assert(x.subrange(p, p + one.len()) =~= one);
    assert(y.subrange(p, p + two.len()) =~= two);
    if after_one.len() > 0 {
        assert(x[p + one.len()] == after_one[0]);
    }
    if after_two.len() > 0 {
        assert(y[p + two.len()] == after_two[0]);
    }
    lemma_run_ends(x, p, one, 0);
    lemma_run_ends(y, p, two, 0);
    assert(x[p] == one[0] && y[p] == two[0]);
    assert(is_digit_char(one[0]) && is_digit_char(two[0]));
    law_numbers_stand_in_their_order(one, two);
}

/// Names that start alike and then have different characters, not both digits, stand
/// in the order of these characters whatever their case, whatever follows.
pub proof fn law_lettered_names_stand_in_order(
    front: Seq<char>,
    one: char,
    two: char,
    after_one: Seq<char>,
    after_two: Seq<char>,
)
    requires
        front.len() > 0 ==> !is_digit_char(front.last()),
        !is_digit_char(one) || !is_digit_char(two),
        (folded(one) as int) < folded(two) as int,
    ensures
        natural(front + (seq![one] + after_one), front + (seq![two] + after_two)) == Rank::Before,
        natural(front + (seq![two] + after_two), front + (seq![one] + after_one)) == Rank::After,
{
    let a = seq![one] + after_one;
    let b = seq![two] + after_two;
    lemma_past_the_front(front, a, b, 0);
    lemma_past_the_front(front, b, a, 0);
    let p = front.len() as int;
    assert((front + a)[p] == one && (front + b)[p] == two);
}

} // verus!
