//! The order that pages stand in: numbers by their value, letters whatever
//! their case, and in the end the name itself.

use crate::text::{ascii_lower, chars_of, lossy_utf8, text_from_utf8_lossy};
use std::cmp::Ordering;
use vstd::prelude::*;

verus! {

/// How one thing stands to another.
#[derive(Debug, Clone, Copy, PartialEq, Eq, Structural)]
pub enum Rank {
    Before,
    Same,
    After,
}

/// The rank seen from the other side.
pub open spec fn reversed(rank: Rank) -> Rank {
    match rank {
        Rank::Before => Rank::After,
        Rank::Same => Rank::Same,
        Rank::After => Rank::Before,
    }
}

/// The first rank, unless it says nothing.
pub open spec fn first_of(one: Rank, two: Rank) -> Rank {
    if one == Rank::Same {
        two
    } else {
        one
    }
}

/// How one number stands to another.
pub open spec fn number_rank(a: int, b: int) -> Rank {
    if a < b {
        Rank::Before
    } else if a > b {
        Rank::After
    } else {
        Rank::Same
    }
}

/// An ASCII digit.
pub open spec fn is_digit_char(c: char) -> bool {
    '0' <= c && c <= '9'
}

/// Where the digits end that stand from `from` on.
pub open spec fn digits_end(text: Seq<char>, from: int) -> int
    decreases text.len() - from,
{
    if from < text.len() && is_digit_char(text[from]) {
        digits_end(text, from + 1)
    } else {
        from
    }
}

/// The digits of a number without the zeros before it.
pub open spec fn without_zeros(digits: Seq<char>) -> Seq<char>
    decreases digits.len(),
{
    if digits.len() > 0 && digits[0] == '0' {
        without_zeros(digits.drop_first())
    } else {
        digits
    }
}

/// How two texts of equal length stand, from character `k` on.
pub open spec fn letters_rank(a: Seq<char>, b: Seq<char>, k: int) -> Rank
    decreases a.len() - k,
{
    if k >= a.len() || k >= b.len() {
        Rank::Same
    } else if a[k] == b[k] {
        letters_rank(a, b, k + 1)
    } else {
        number_rank(a[k] as int, b[k] as int)
    }
}

/// How two runs of digits stand: by their value, and then by how they are
/// written, so that `1` and `01` are told apart.
pub open spec fn run_rank(one: Seq<char>, two: Seq<char>) -> Rank {
    let x = without_zeros(one);
    let y = without_zeros(two);
    first_of(
        number_rank(x.len() as int, y.len() as int),
        first_of(letters_rank(x, y, 0), number_rank(one.len() as int, two.len() as int)),
    )
}

/// The first character of what `char::to_lowercase` makes of a character beyond
/// ASCII.
pub uninterp spec fn unicode_folded(c: char) -> char;

/// A character whatever its case. What is no digit folds to no digit.
pub open spec fn folded(c: char) -> char {
    if (c as u32) < 128 {
        ascii_lower(c)
    } else if is_digit_char(unicode_folded(c)) {
        c
    } else {
        unicode_folded(c)
    }
}

/// `char::to_lowercase`, of whose characters the first is taken; a character
/// without any stands for itself. In ASCII a capital letter becomes a small one
/// and the rest stays. The lower case of a character beyond ASCII is a letter
/// or the character itself, so it is no ASCII digit.
#[verifier::external_body]
fn fold(c: char) -> (lower: char)
    ensures
        (c as u32) < 128 ==> lower == ascii_lower(c),
        (c as u32) >= 128 ==> lower == unicode_folded(c) && !is_digit_char(lower),
{
    c.to_lowercase().next().unwrap_or(c)
}

/// The digits from a place on end behind it.
pub proof fn lemma_digits_end(text: Seq<char>, from: int)
    requires
        0 <= from <= text.len(),
    ensures
        from <= digits_end(text, from) <= text.len(),
        from < text.len() && is_digit_char(text[from]) ==> digits_end(text, from) > from,
    decreases text.len() - from,
{
    if from < text.len() && is_digit_char(text[from]) {
        lemma_digits_end(text, from + 1);
    }
}

/// How the rest of one text from `i` on stands to the rest of another from `j`
/// on: runs of digits as numbers, and other characters folded.
pub open spec fn natural_rank(a: Seq<char>, i: int, b: Seq<char>, j: int) -> Rank
    decreases a.len() - i,
    when 0 <= i <= a.len() && 0 <= j <= b.len()
    via natural_rank_ends
{
    if i >= a.len() {
        if j >= b.len() {
            Rank::Same
        } else {
            Rank::Before
        }
    } else if j >= b.len() {
        Rank::After
    } else if is_digit_char(a[i]) && is_digit_char(b[j]) {
        first_of(
            run_rank(a.subrange(i, digits_end(a, i)), b.subrange(j, digits_end(b, j))),
            natural_rank(a, digits_end(a, i), b, digits_end(b, j)),
        )
    } else {
        first_of(
            number_rank(folded(a[i]) as int, folded(b[j]) as int),
            natural_rank(a, i + 1, b, j + 1),
        )
    }
}

#[via_fn]
proof fn natural_rank_ends(a: Seq<char>, i: int, b: Seq<char>, j: int) {
    if 0 <= i <= a.len() && 0 <= j <= b.len() {
        lemma_digits_end(a, i);
        lemma_digits_end(b, j);
    }
}

/// How two texts stand in natural order.
pub open spec fn natural(a: Seq<char>, b: Seq<char>) -> Rank {
    natural_rank(a, 0, b, 0)
}

/// How two byte strings stand, from byte `k` on: by the first byte that
/// differs, and the shorter before the longer.
pub open spec fn bytes_rank(a: Seq<u8>, b: Seq<u8>, k: int) -> Rank
    decreases a.len() - k,
{
    if k >= a.len() || k >= b.len() {
        number_rank(a.len() as int, b.len() as int)
    } else if a[k] == b[k] {
        bytes_rank(a, b, k + 1)
    } else {
        number_rank(a[k] as int, b[k] as int)
    }
}

/// How two pages stand: in the natural order of what their names read as, and
/// by the names themselves where that says nothing.
pub open spec fn page_rank(a: Seq<u8>, b: Seq<u8>) -> Rank {
    first_of(natural(lossy_utf8(a), lossy_utf8(b)), bytes_rank(a, b, 0))
}

fn rank_numbers(a: usize, b: usize) -> (rank: Rank)
    ensures
        rank == number_rank(a as int, b as int),
{
    if a < b {
        Rank::Before
    } else if a > b {
        Rank::After
    } else {
        Rank::Same
    }
}

fn rank_chars(a: char, b: char) -> (rank: Rank)
    ensures
        rank == number_rank(a as int, b as int),
{
    if a < b {
        Rank::Before
    } else if a > b {
        Rank::After
    } else {
        Rank::Same
    }
}

fn digit_char(c: char) -> (digit: bool)
    ensures
        digit == is_digit_char(c),
{
    '0' <= c && c <= '9'
}

fn end_of_digits(text: &[char], from: usize) -> (end: usize)
    requires
        from <= text@.len(),
    ensures
        end == digits_end(text@, from as int),
        from <= end <= text@.len(),
{
    let mut end: usize = from;
    while end < text.len() && digit_char(text[end])
        invariant
            from <= end <= text@.len(),
            digits_end(text@, end as int) == digits_end(text@, from as int),
        decreases text@.len() - end,
    {
        end += 1;
    }
    end
}

fn strip_zeros(text: &[char], from: usize, end: usize) -> (start: usize)
    requires
        from <= end <= text@.len(),
    ensures
        from <= start <= end,
        without_zeros(text@.subrange(from as int, end as int)) == text@.subrange(
            start as int,
            end as int,
        ),
{
    let mut start: usize = from;
    while start < end && text[start] == '0'
        invariant
            from <= start <= end <= text@.len(),
            without_zeros(text@.subrange(from as int, end as int)) == without_zeros(
                text@.subrange(start as int, end as int),
            ),
        decreases end - start,
    {
        assert(text@.subrange(start as int, end as int).drop_first() =~= text@.subrange(
            start + 1,
            end as int,
        ));
        start += 1;
    }
    start
}

/// Ranks the runs of digits `a[i..p]` and `b[j..q]`.
fn rank_runs(a: &[char], i: usize, p: usize, b: &[char], j: usize, q: usize) -> (rank: Rank)
    requires
        i <= p <= a@.len(),
        j <= q <= b@.len(),
    ensures
        rank == run_rank(a@.subrange(i as int, p as int), b@.subrange(j as int, q as int)),
{
    let s: usize = strip_zeros(a, i, p);
    let t: usize = strip_zeros(b, j, q);
    let ghost x = a@.subrange(s as int, p as int);
    let ghost y = b@.subrange(t as int, q as int);
    if p - s != q - t {
        return rank_numbers(p - s, q - t);
    }
    let length: usize = p - s;
    let mut k: usize = 0;
    while k < length
        invariant
            k <= length,
            length == p - s,
            length == q - t,
            s <= p <= a@.len(),
            t <= q <= b@.len(),
            x == a@.subrange(s as int, p as int),
            y == b@.subrange(t as int, q as int),
            letters_rank(x, y, k as int) == letters_rank(x, y, 0),
            x == without_zeros(a@.subrange(i as int, p as int)),
            y == without_zeros(b@.subrange(j as int, q as int)),
            i <= s,
            j <= t,
        decreases length - k,
    {
        let c = a[s + k];
        let d = b[t + k];
        assert(x[k as int] == c && y[k as int] == d);
        if c != d {
            let rank = rank_chars(c, d);
            assert(rank != Rank::Same);
            return rank;
        }
        k += 1;
    }
    rank_numbers(p - i, q - j)
}

/// Ranks two texts in natural order.
fn rank_texts(a: &[char], b: &[char]) -> (rank: Rank)
    ensures
        rank == natural(a@, b@),
{
    let mut i: usize = 0;
    let mut j: usize = 0;
    while i < a.len() && j < b.len()
        invariant
            i <= a@.len(),
            j <= b@.len(),
            natural_rank(a@, i as int, b@, j as int) == natural(a@, b@),
        decreases a@.len() - i,
    {
        let x = a[i];
        let y = b[j];
        if digit_char(x) && digit_char(y) {
            let p: usize = end_of_digits(a, i);
            let q: usize = end_of_digits(b, j);
            proof {
                lemma_digits_end(a@, i as int);
            }
            let rank = rank_runs(a, i, p, b, j, q);
            if rank != Rank::Same {
                return rank;
            }
            i = p;
            j = q;
        } else {
            let rank = rank_chars(fold(x), fold(y));
            if rank != Rank::Same {
                return rank;
            }
            i += 1;
            j += 1;
        }
    }
    if i < a.len() {
        Rank::After
    } else if j < b.len() {
        Rank::Before
    } else {
        Rank::Same
    }
}

/// Ranks two byte strings.
fn rank_bytes(a: &[u8], b: &[u8]) -> (rank: Rank)
    ensures
        rank == bytes_rank(a@, b@, 0),
{
    let mut k: usize = 0;
    while k < a.len() && k < b.len()
        invariant
            k <= a@.len(),
            k <= b@.len(),
            bytes_rank(a@, b@, k as int) == bytes_rank(a@, b@, 0),
        decreases a@.len() - k,
    {
        if a[k] < b[k] {
            return Rank::Before;
        }
        if a[k] > b[k] {
            return Rank::After;
        }
        k += 1;
    }
    rank_numbers(a.len(), b.len())
}

/// Ranks two pages by their names.
pub fn rank_pages(a: &[u8], b: &[u8]) -> (rank: Rank)
    ensures
        rank == page_rank(a@, b@),
{
    let one = chars_of(text_from_utf8_lossy(a).as_str());
    let two = chars_of(text_from_utf8_lossy(b).as_str());
    let rank = rank_texts(one.as_slice(), two.as_slice());
    if rank != Rank::Same {
        rank
    } else {
        rank_bytes(a, b)
    }
}

/// The order of a rank.
pub open spec fn ordering_of(rank: Rank) -> Ordering {
    match rank {
        Rank::Before => Ordering::Less,
        Rank::Same => Ordering::Equal,
        Rank::After => Ordering::Greater,
    }
}

fn to_ordering(rank: Rank) -> (order: Ordering)
    ensures
        order == ordering_of(rank),
{
    match rank {
        Rank::Before => Ordering::Less,
        Rank::Same => Ordering::Equal,
        Rank::After => Ordering::Greater,
    }
}

/// Natural order of two texts, with case folded.
pub fn natural_cmp(a: &str, b: &str) -> (order: Ordering)
    ensures
        order == ordering_of(natural(a@, b@)),
{
    let one = chars_of(a);
    let two = chars_of(b);
    to_ordering(rank_texts(one.as_slice(), two.as_slice()))
}

/// The order of two pages by their names.
pub fn page_order(a: &[u8], b: &[u8]) -> (order: Ordering)
    ensures
        order == ordering_of(page_rank(a@, b@)),
{
    to_ordering(rank_pages(a, b))
}

proof fn lemma_letters_reverse(a: Seq<char>, b: Seq<char>, k: int)
    requires
        0 <= k,
        a.len() == b.len(),
    ensures
        letters_rank(a, b, k) == reversed(letters_rank(b, a, k)),
    decreases a.len() - k,
{
    if k < a.len() && a[k] == b[k] {
        lemma_letters_reverse(a, b, k + 1);
    }
}

proof fn lemma_run_reverse(a: Seq<char>, b: Seq<char>)
    ensures
        run_rank(a, b) == reversed(run_rank(b, a)),
{
    let x = without_zeros(a);
    let y = without_zeros(b);
    if x.len() == y.len() {
        lemma_letters_reverse(x, y, 0);
    }
}

proof fn lemma_natural_reverse(a: Seq<char>, i: int, b: Seq<char>, j: int)
    requires
        0 <= i <= a.len(),
        0 <= j <= b.len(),
    ensures
        natural_rank(a, i, b, j) == reversed(natural_rank(b, j, a, i)),
    decreases a.len() - i,
{
    if i < a.len() && j < b.len() {
        if is_digit_char(a[i]) && is_digit_char(b[j]) {
            lemma_digits_end(a, i);
            lemma_digits_end(b, j);
            lemma_run_reverse(a.subrange(i, digits_end(a, i)), b.subrange(j, digits_end(b, j)));
            lemma_natural_reverse(a, digits_end(a, i), b, digits_end(b, j));
        } else {
            lemma_natural_reverse(a, i + 1, b, j + 1);
        }
    }
}

proof fn lemma_bytes_reverse(a: Seq<u8>, b: Seq<u8>, k: int)
    requires
        0 <= k,
    ensures
        bytes_rank(a, b, k) == reversed(bytes_rank(b, a, k)),
    decreases a.len() - k,
{
    if k < a.len() && k < b.len() && a[k] == b[k] {
        lemma_bytes_reverse(a, b, k + 1);
    }
}

proof fn lemma_bytes_same(a: Seq<u8>, b: Seq<u8>, k: int)
    requires
        0 <= k,
        bytes_rank(a, b, k) == Rank::Same,
        forall|m: int| 0 <= m < k && m < a.len() && m < b.len() ==> #[trigger] a[m] == b[m],
    ensures
        a == b,
    decreases a.len() - k,
{
    if k < a.len() && k < b.len() {
        lemma_bytes_same(a, b, k + 1);
    } else {
        assert(a =~= b);
    }
}

/// Seen from the other side, two pages stand the other way round; and two
/// names are ranked alike exactly when they are one name.
pub proof fn law_pages_are_told_apart(a: Seq<u8>, b: Seq<u8>)
    ensures
        page_rank(a, b) == reversed(page_rank(b, a)),
        page_rank(a, b) == Rank::Same <==> a == b,
{
    lemma_natural_reverse(lossy_utf8(a), 0, lossy_utf8(b), 0);
    lemma_bytes_reverse(a, b, 0);
    if page_rank(a, b) == Rank::Same {
        lemma_bytes_same(a, b, 0);
    }
    if a == b {
        assert(page_rank(a, a) == reversed(page_rank(a, a)));
    }
}

/// A character folds to a digit only where it is one, and a digit to itself.
proof fn lemma_folded(c: char)
    ensures
        is_digit_char(folded(c)) == is_digit_char(c),
        is_digit_char(c) ==> folded(c) == c,
{
}

/// Does a rank follow from two others that lead to it?
pub open spec fn follows(one: Rank, two: Rank, both: Rank) -> bool {
    &&& one != Rank::After && two != Rank::After ==> both != Rank::After
    &&& one == Rank::Before && two != Rank::After ==> both == Rank::Before
    &&& one != Rank::After && two == Rank::Before ==> both == Rank::Before
}

proof fn lemma_letters_follow(a: Seq<char>, b: Seq<char>, c: Seq<char>, k: int)
    requires
        0 <= k,
        a.len() == b.len(),
        b.len() == c.len(),
    ensures
        follows(letters_rank(a, b, k), letters_rank(b, c, k), letters_rank(a, c, k)),
    decreases a.len() - k,
{
    if k < a.len() {
        lemma_letters_follow(a, b, c, k + 1);
    }
}

proof fn lemma_run_follow(a: Seq<char>, b: Seq<char>, c: Seq<char>)
    ensures
        follows(run_rank(a, b), run_rank(b, c), run_rank(a, c)),
{
    let x = without_zeros(a);
    let y = without_zeros(b);
    let z = without_zeros(c);
    if x.len() == y.len() && y.len() == z.len() {
        lemma_letters_follow(x, y, z, 0);
    }
}

proof fn lemma_natural_follow(a: Seq<char>, i: int, b: Seq<char>, j: int, c: Seq<char>, k: int)
    requires
        0 <= i <= a.len(),
        0 <= j <= b.len(),
        0 <= k <= c.len(),
    ensures
        follows(
            natural_rank(a, i, b, j),
            natural_rank(b, j, c, k),
            natural_rank(a, i, c, k),
        ),
    decreases a.len() - i,
{
    if i < a.len() && j < b.len() && k < c.len() {
        lemma_digits_end(a, i);
        lemma_digits_end(b, j);
        lemma_digits_end(c, k);
        lemma_folded(a[i]);
        lemma_folded(b[j]);
        lemma_folded(c[k]);
        if is_digit_char(a[i]) && is_digit_char(b[j]) && is_digit_char(c[k]) {
            lemma_run_follow(
                a.subrange(i, digits_end(a, i)),
                b.subrange(j, digits_end(b, j)),
                c.subrange(k, digits_end(c, k)),
            );
            lemma_natural_follow(a, digits_end(a, i), b, digits_end(b, j), c, digits_end(c, k));
        } else {
            lemma_natural_follow(a, i + 1, b, j + 1, c, k + 1);
        }
    }
}

proof fn lemma_bytes_follow(a: Seq<u8>, b: Seq<u8>, c: Seq<u8>, k: int)
    requires
        0 <= k,
    ensures
        follows(bytes_rank(a, b, k), bytes_rank(b, c, k), bytes_rank(a, c, k)),
    decreases a.len() - k,
{
    if k < a.len() && k < b.len() && k < c.len() {
        lemma_bytes_follow(a, b, c, k + 1);
    }
}

/// The order of pages carries over: what stands before a second page that
/// stands before a third stands before the third.
pub proof fn law_page_order_carries_over(a: Seq<u8>, b: Seq<u8>, c: Seq<u8>)
    ensures
        follows(page_rank(a, b), page_rank(b, c), page_rank(a, c)),
{
    lemma_natural_follow(lossy_utf8(a), 0, lossy_utf8(b), 0, lossy_utf8(c), 0);
    lemma_bytes_follow(a, b, c, 0);
}

/// Do two texts agree character by character, from `i` and `j` on, whatever the
/// case?
pub open spec fn agree_from(a: Seq<char>, i: int, b: Seq<char>, j: int) -> bool {
    &&& a.len() - i == b.len() - j
    &&& forall|k: int|
        0 <= k < a.len() - i ==> folded(#[trigger] a[i + k]) == folded(b[j + k])
}

proof fn lemma_letters_same(x: Seq<char>, y: Seq<char>, k: int)
    requires
        0 <= k <= x.len(),
        x.len() == y.len(),
        letters_rank(x, y, k) == Rank::Same,
    ensures
        forall|m: int| k <= m < x.len() ==> x[m] == #[trigger] y[m],
    decreases x.len() - k,
{
    if k < x.len() {
        lemma_letters_same(x, y, k + 1);
    }
}

proof fn lemma_letters_alike(x: Seq<char>, k: int)
    requires
        0 <= k <= x.len(),
    ensures
        letters_rank(x, x, k) == Rank::Same,
    decreases x.len() - k,
{
    if k < x.len() {
        lemma_letters_alike(x, k + 1);
    }
}

/// What is left without the zeros before it is the end of a run of digits.
pub proof fn lemma_without_zeros(digits: Seq<char>)
    ensures
        without_zeros(digits).len() <= digits.len(),
        digits.skip(digits.len() - without_zeros(digits).len()) == without_zeros(digits),
        forall|m: int|
            0 <= m < digits.len() - without_zeros(digits).len() ==> #[trigger] digits[m] == '0',
    decreases digits.len(),
{
    if digits.len() > 0 && digits[0] == '0' {
        let rest = digits.drop_first();
        lemma_without_zeros(rest);
        let left = without_zeros(digits).len();
        assert(digits.skip(digits.len() - left) =~= rest.skip(rest.len() - left));
        assert forall|m: int| 0 <= m < digits.len() - left implies #[trigger] digits[m] == '0' by {
            if m > 0 {
                assert(digits[m] == rest[m - 1]);
            }
        }
    } else {
        assert(digits.skip(0) =~= digits);
    }
}

/// Two runs of digits are ranked alike exactly when they are one run.
pub proof fn lemma_run_same(one: Seq<char>, two: Seq<char>)
    ensures
        run_rank(one, two) == Rank::Same <==> one == two,
{
    let x = without_zeros(one);
    let y = without_zeros(two);
    lemma_without_zeros(one);
    lemma_without_zeros(two);
    if run_rank(one, two) == Rank::Same {
        lemma_letters_same(x, y, 0);
        assert(x =~= y);
        let zeros = one.len() - x.len();
        assert forall|m: int| 0 <= m < one.len() implies one[m] == two[m] by {
            if m >= zeros {
                assert(one.skip(zeros)[m - zeros] == one[m]);
                assert(two.skip(zeros)[m - zeros] == two[m]);
            }
        }
        assert(one =~= two);
    }
    if one == two {
        lemma_letters_alike(x, 0);
    }
}

proof fn lemma_all_digits(text: Seq<char>, from: int, k: int)
    requires
        0 <= from <= k < digits_end(text, from),
    ensures
        k < text.len(),
        is_digit_char(text[k]),
    decreases text.len() - from,
{
    if from < text.len() && is_digit_char(text[from]) {
        if from < k {
            lemma_all_digits(text, from + 1, k);
        }
    }
}

proof fn lemma_digits_agree(a: Seq<char>, i: int, b: Seq<char>, j: int)
    requires
        0 <= i <= a.len(),
        0 <= j <= b.len(),
        agree_from(a, i, b, j),
    ensures
        digits_end(a, i) - i == digits_end(b, j) - j,
    decreases a.len() - i,
{
    if i < a.len() {
        assert(folded(a[i + 0]) == folded(b[j + 0]));
        lemma_folded(a[i]);
        lemma_folded(b[j]);
        if is_digit_char(a[i]) {
            assert forall|k: int| 0 <= k < a.len() - (i + 1) implies folded(
                #[trigger] a[i + 1 + k],
            ) == folded(b[j + 1 + k]) by {
                assert(folded(a[i + (1 + k)]) == folded(b[j + (1 + k)]));
            }
            lemma_digits_agree(a, i + 1, b, j + 1);
        }
    }
}

proof fn lemma_natural_same(a: Seq<char>, i: int, b: Seq<char>, j: int)
    requires
        0 <= i <= a.len(),
        0 <= j <= b.len(),
    ensures
        natural_rank(a, i, b, j) == Rank::Same <==> agree_from(a, i, b, j),
    decreases a.len() - i,
{
    if i < a.len() && j < b.len() {
        lemma_folded(a[i]);
        lemma_folded(b[j]);
        if is_digit_char(a[i]) && is_digit_char(b[j]) {
            lemma_digits_end(a, i);
            lemma_digits_end(b, j);
            let ea = digits_end(a, i);
            let eb = digits_end(b, j);
            let one = a.subrange(i, ea);
            let two = b.subrange(j, eb);
            lemma_run_same(one, two);
            lemma_natural_same(a, ea, b, eb);
            if natural_rank(a, i, b, j) == Rank::Same {
                assert forall|k: int| 0 <= k < a.len() - i implies folded(#[trigger] a[i + k])
                    == folded(b[j + k]) by {
                    if k < ea - i {
                        assert(one[k] == two[k]);
                    } else {
                        let m = k - (ea - i);
                        assert(folded(a[ea + m]) == folded(b[eb + m]));
                    }
                }
            }
            if agree_from(a, i, b, j) {
                lemma_digits_agree(a, i, b, j);
                assert(one =~= two) by {
                    assert forall|k: int| 0 <= k < one.len() implies one[k] == two[k] by {
                        lemma_all_digits(a, i, i + k);
                        lemma_all_digits(b, j, j + k);
                        lemma_folded(a[i + k]);
                        lemma_folded(b[j + k]);
                        assert(folded(a[i + k]) == folded(b[j + k]));
                    }
                }
                assert forall|m: int| 0 <= m < a.len() - ea implies folded(#[trigger] a[ea + m])
                    == folded(b[eb + m]) by {
                    assert(folded(a[i + (ea - i + m)]) == folded(b[j + (ea - i + m)]));
                }
            }
        } else {
            lemma_natural_same(a, i + 1, b, j + 1);
            if natural_rank(a, i, b, j) == Rank::Same {
                assert forall|k: int| 0 <= k < a.len() - i implies folded(#[trigger] a[i + k])
                    == folded(b[j + k]) by {
                    if k > 0 {
                        let m = k - 1;
                        assert(folded(a[i + 1 + m]) == folded(b[j + 1 + m]));
                    }
                }
            }
            if agree_from(a, i, b, j) {
                assert(folded(a[i + 0]) == folded(b[j + 0]));
                assert forall|m: int| 0 <= m < a.len() - (i + 1) implies folded(
                    #[trigger] a[i + 1 + m],
                ) == folded(b[j + 1 + m]) by {
                    assert(folded(a[i + (1 + m)]) == folded(b[j + (1 + m)]));
                }
            }
        }
    }
}

/// Natural order is an order of texts: seen from the other side it is the other
/// way round, it carries over, and two texts are ranked alike exactly when they
/// agree character by character whatever the case.
pub proof fn law_natural_order(a: Seq<char>, b: Seq<char>, c: Seq<char>)
    ensures
        natural(a, b) == reversed(natural(b, a)),
        follows(natural(a, b), natural(b, c), natural(a, c)),
        natural(a, b) == Rank::Same <==> agree_from(a, 0, b, 0),
{
    lemma_natural_reverse(a, 0, b, 0);
    lemma_natural_follow(a, 0, b, 0, c, 0);
    lemma_natural_same(a, 0, b, 0);
}

} // verus!
