//! What an appearance draws: numbers, strokes and the place of its text.

use crate::bytes::{decimal, occurs_at, padded_decimal, repeated, utf8};
use crate::pdfread::value::real_of;
use crate::pdfwrite::object::{escaped, real_bytes, without_trailing_zeros, PdfValue, Real};
use crate::pdfwrite::readback::scalars::{lemma_real, lemma_whole_real};
use crate::sign::appearance::{
    baseline_thirds, content_bytes, fixed_bytes, ink_bytes, magnitude, nearest, number_bytes,
    rect_value, size_thirds, stroke_ops, strokes_ops, text_ops_bytes, xobject_bytes, Appearance, MILLIONTHS, PRODUCTS, THIRDS,
};
use vstd::prelude::*;
use vstd::utf8::{is_ascii_chars, is_ascii_chars_encode_utf8};

verus! {

/// A quotient is rounded to within a half, and to the even neighbour of two that are
/// equally near.
pub proof fn law_a_quotient_is_rounded(n: nat, d: nat)
    requires
        d > 0,
    ensures
        -(d as int) <= 2 * (nearest(n, d) * d - n) <= d as int,
        2 * (nearest(n, d) * d - n) == d || 2 * (nearest(n, d) * d - n) == -(d as int) ==> nearest(
            n,
            d,
        ) % 2 == 0,
{
    let q = n / d;
    let r = n % d;
    assert(n == d * q + r && 0 <= r < d) by (nonlinear_arith)
        requires
            d > 0,
            q == n / d,
            r == n % d,
    ;
    assert(q * d == d * q) by (nonlinear_arith);
    assert((q + 1) * d == d * q + d) by (nonlinear_arith);
}

proof fn lemma_three_zeros(x: nat)
    requires
        0 < x < 1000,
    ensures
        padded_decimal(x * 1000, 6) == padded_decimal(x, 3) + repeated(48u8, 3),
{
    reveal_with_fuel(decimal, 7);
    let long = decimal(x * 1000);
    let short = decimal(x);
    assert(long =~= short + repeated(48u8, 3)) by {
        assert(x * 1000 / 10 == x * 100 && x * 1000 % 10 == 0);
        assert(x * 100 / 10 == x * 10 && x * 100 % 10 == 0);
        assert(x * 10 / 10 == x && x * 10 % 10 == 0);
        assert(decimal(x * 10) =~= short + seq![48u8]);
        assert(decimal(x * 100) =~= short + seq![48u8, 48u8]);
    }
    assert(padded_decimal(x * 1000, 6) =~= padded_decimal(x, 3) + repeated(48u8, 3));
}

proof fn lemma_trailing(digits: Seq<u8>, zeros: nat)
    ensures
        without_trailing_zeros(digits + repeated(48u8, zeros)) == without_trailing_zeros(digits),
    decreases zeros,
{
    let all = digits + repeated(48u8, zeros);
    if zeros > 0 {
        lemma_trailing(digits, (zeros - 1) as nat);
        assert(all.drop_last() =~= digits + repeated(48u8, (zeros - 1) as nat));
        assert(all.last() == 48);
    } else {
        assert(all =~= digits);
    }
}

/// A number of an appearance is read as what it was made of, to the nearest
/// thousandth.
pub proof fn law_a_number_is_read_back(n: int, unit: nat)
    requires
        unit > 0,
        nearest(magnitude(n), unit) * 1000 <= u128::MAX,
    ensures
        real_of(number_bytes(n, unit)) == Some(
            Real { negative: n < 0, millionths: (nearest(magnitude(n), unit) * 1000) as u128 },
        ),
{
    let thousandths = nearest(magnitude(n), unit);
    let number = Real { negative: n < 0, millionths: (thousandths * 1000) as u128 };
    let whole = number.millionths as nat;
    assert(whole == thousandths * 1000);
    assert(whole / 1_000_000 == thousandths / 1000);
    assert(whole % 1_000_000 == (thousandths % 1000) * 1000);
    if thousandths % 1000 != 0 {
        lemma_three_zeros(thousandths % 1000);
        lemma_trailing(padded_decimal(thousandths % 1000, 3), 3);
        lemma_real(number);
    } else {
        lemma_whole_real(number);
    }
    assert(fixed_bytes(n < 0, thousandths) =~= real_bytes(number));
}

proof fn lemma_stroke_places(
    points: Seq<(i64, i64)>,
    width: int,
    height: int,
    others: Seq<(i64, i64)>,
    other_width: int,
    other_height: int,
    n: nat,
)
    requires
        n <= points.len(),
        n <= others.len(),
        forall|k: int|
            0 <= k < n ==> (#[trigger] points[k]).0 * width == others[k].0 * other_width
                && points[k].1 * height == others[k].1 * other_height,
    ensures
        stroke_ops(points, width, height, n) == stroke_ops(others, other_width, other_height, n),
    decreases n,
{
    if n > 0 {
        lemma_stroke_places(
            points,
            width,
            height,
            others,
            other_width,
            other_height,
            (n - 1) as nat,
        );
        assert(points[n - 1].0 * width == others[n - 1].0 * other_width);
    }
}

/// A point is drawn as far along the width as it lies along it, and as far up the
/// height: strokes whose points lie at the same places are drawn alike, however wide
/// and high the rectangles are that the places are told by.
pub proof fn law_strokes_are_drawn_where_they_lie(
    points: Seq<(i64, i64)>,
    width: int,
    height: int,
    others: Seq<(i64, i64)>,
    other_width: int,
    other_height: int,
)
    requires
        points.len() == others.len(),
        forall|k: int|
            0 <= k < points.len() ==> (#[trigger] points[k]).0 * width == others[k].0 * other_width
                && points[k].1 * height == others[k].1 * other_height,
    ensures
        stroke_ops(points, width, height, points.len()) == stroke_ops(
            others,
            other_width,
            other_height,
            others.len(),
        ),
{
    lemma_stroke_places(points, width, height, others, other_width, other_height, points.len());
}

proof fn lemma_strokes_joined(
    first: Seq<Seq<(i64, i64)>>,
    second: Seq<Seq<(i64, i64)>>,
    width: int,
    height: int,
    n: nat,
)
    requires
        n <= second.len(),
    ensures
        strokes_ops(first + second, width, height, first.len() + n) == strokes_ops(
            first,
            width,
            height,
            first.len(),
        ) + strokes_ops(second, width, height, n),
    decreases n,
{
    let all = first + second;
    if n == 0 {
        lemma_strokes_same(all, first, width, height, first.len());
        assert(strokes_ops(first, width, height, first.len()) + Seq::<u8>::empty() =~= strokes_ops(
            first,
            width,
            height,
            first.len(),
        ));
    } else {
        lemma_strokes_joined(first, second, width, height, (n - 1) as nat);
        assert(all[first.len() + n - 1] == second[n - 1]);
        assert(strokes_ops(all, width, height, first.len() + n) =~= strokes_ops(
            first,
            width,
            height,
            first.len(),
        ) + strokes_ops(second, width, height, n));
    }
}

proof fn lemma_strokes_same(
    strokes: Seq<Seq<(i64, i64)>>,
    others: Seq<Seq<(i64, i64)>>,
    width: int,
    height: int,
    n: nat,
)
    requires
        n <= strokes.len(),
        n <= others.len(),
        forall|k: int| 0 <= k < n ==> #[trigger] strokes[k] == others[k],
    ensures
        strokes_ops(strokes, width, height, n) == strokes_ops(others, width, height, n),
    decreases n,
{
    if n > 0 {
        lemma_strokes_same(strokes, others, width, height, (n - 1) as nat);
        assert(strokes[n - 1] == others[n - 1]);
    }
}

/// Strokes are drawn one after the other, and one without points draws nothing.
pub proof fn law_strokes_are_drawn_in_order(
    first: Seq<Seq<(i64, i64)>>,
    second: Seq<Seq<(i64, i64)>>,
    width: int,
    height: int,
)
    ensures
        strokes_ops(first + second, width, height, first.len() + second.len()) == strokes_ops(
            first,
            width,
            height,
            first.len(),
        ) + strokes_ops(second, width, height, second.len()),
        strokes_ops(seq![Seq::<(i64, i64)>::empty()], width, height, 1) == Seq::<u8>::empty(),
{
    lemma_strokes_joined(first, second, width, height, second.len());
    reveal_with_fuel(strokes_ops, 2);
    reveal_with_fuel(stroke_ops, 1);
    assert(strokes_ops(seq![Seq::<(i64, i64)>::empty()], width, height, 1) =~= Seq::<u8>::empty());
}

/// The text is a third as large as the rectangle is high, but at least four points
/// and at most twelve. It starts its own size and two points below the upper edge,
/// or at the lower edge where there is no room for that. All is told in thirds of
/// millionths of a point.
pub proof fn law_the_text_fits_its_rectangle(height: int)
    ensures
        3 * 4_000_000 <= size_thirds(height) <= 3 * 12_000_000,
        3 * 4_000_000 <= height <= 3 * 12_000_000 ==> size_thirds(height) == height,
        height < 3 * 4_000_000 ==> size_thirds(height) == 3 * 4_000_000,
        height > 3 * 12_000_000 ==> size_thirds(height) == 3 * 12_000_000,
        baseline_thirds(height) >= 0,
        baseline_thirds(height) > 0 ==> baseline_thirds(height) + size_thirds(height) + 3
            * 2_000_000 == 3 * height,
        baseline_thirds(height) == 0 ==> size_thirds(height) + 3 * 2_000_000 >= 3 * height,
{
}

/// An appearance looks the same wherever its rectangle lies.
pub proof fn law_an_appearance_can_be_moved(one: Appearance, two: Appearance)
    requires
        one.drawing == two.drawing,
        one.rect.len() == 4,
        two.rect.len() == 4,
        one.rect[2] - one.rect[0] == two.rect[2] - two.rect[0],
        one.rect[3] - one.rect[1] == two.rect[3] - two.rect[1],
    ensures
        xobject_bytes(one) == xobject_bytes(two),
{
}

/// Ink is drawn with the width of its strokes whatever the rectangle, and where
/// there is both ink and text the ink comes first.
pub proof fn law_ink_comes_before_text(appearance: Appearance, width: int, height: int)
    requires
        appearance.drawing.ink is Some,
    ensures
        ({
            let (strokes, stroke_width) = appearance.drawing.ink->0;
            let ink = ink_bytes(strokes, stroke_width as int, width, height);
            let all = content_bytes(appearance.drawing, width, height);
            &&& ink.len() <= all.len() && all.take(ink.len() as int) == ink
            &&& appearance.drawing.text is None ==> all == ink
        }),
{
    let (strokes, stroke_width) = appearance.drawing.ink->0;
    let ink = ink_bytes(strokes, stroke_width as int, width, height);
    let all = content_bytes(appearance.drawing, width, height);
    assert(all.take(ink.len() as int) =~= ink);
    if appearance.drawing.text is None {
        assert(all =~= ink);
    }
}

/// Places and lengths are told in points: those of strokes are given in millionths of
/// a length in millionths of a point, and the text in thirds of millionths.
pub proof fn law_lengths_are_told_in_points(n: nat)
    ensures
        -1_000_000_000 <= 2 * (nearest(n, PRODUCTS as nat) * 1_000_000_000 - n) <= 1_000_000_000,
        -3_000 <= 2 * (nearest(n, THIRDS as nat) * 3_000 - n) <= 3_000,
        -1_000 <= 2 * (nearest(n, MILLIONTHS as nat) * 1_000 - n) <= 1_000,
{
    law_a_quotient_is_rounded(n, PRODUCTS as nat);
    law_a_quotient_is_rounded(n, THIRDS as nat);
    law_a_quotient_is_rounded(n, MILLIONTHS as nat);
}

/// A stroke starts at its first point, along the width first and then up the height,
/// and goes on to each of the others in turn.
pub proof fn law_a_stroke_goes_from_point_to_point(
    points: Seq<(i64, i64)>,
    width: int,
    height: int,
    n: nat,
)
    requires
        0 < n <= points.len(),
    ensures
        ({
            let place = number_bytes(points[n - 1].0 * width, PRODUCTS as nat) + utf8(" "@)
                + number_bytes(points[n - 1].1 * height, PRODUCTS as nat);
            stroke_ops(points, width, height, n) == stroke_ops(
                points,
                width,
                height,
                (n - 1) as nat,
            ) + (place + (if n == 1 {
                utf8(" m\n"@)
            } else {
                utf8(" l\n"@)
            }))
        }),
        stroke_ops(points, width, height, 0) == Seq::<u8>::empty(),
{
    let place = number_bytes(points[n - 1].0 * width, PRODUCTS as nat) + utf8(" "@) + number_bytes(
        points[n - 1].1 * height,
        PRODUCTS as nat,
    );
    assert(stroke_ops(points, width, height, n) =~= stroke_ops(
        points,
        width,
        height,
        (n - 1) as nat,
    ) + (place + (if n == 1 {
        utf8(" m\n"@)
    } else {
        utf8(" l\n"@)
    })));
}

/// A form is as wide and as high as the rectangle of its appearance, and holds what
/// is drawn at that size.
pub proof fn law_a_form_is_as_large_as_its_rectangle(appearance: Appearance)
    requires
        appearance.rect.len() == 4,
    ensures
        ({
            let width = appearance.rect[2] - appearance.rect[0];
            let height = appearance.rect[3] - appearance.rect[1];
            let form = xobject_bytes(appearance);
            let size = utf8("/BBox [0 0 "@) + number_bytes(width, MILLIONTHS as nat) + utf8(" "@)
                + number_bytes(height, MILLIONTHS as nat) + utf8("]"@);
            let content = content_bytes(appearance.drawing, width, height);
            let end = utf8(" /Length "@) + decimal(content.len()) + utf8(" >>\nstream\n"@) + content
                + utf8("\nendstream"@);
            &&& occurs_at(form, size, 33)
            &&& end.len() <= form.len() && form.skip(form.len() - end.len()) == end
        }),
{
    let width = appearance.rect[2] - appearance.rect[0];
    let height = appearance.rect[3] - appearance.rect[1];
    let form = xobject_bytes(appearance);
    let wide = number_bytes(width, MILLIONTHS as nat);
    let high = number_bytes(height, MILLIONTHS as nat);
    let size = utf8("/BBox [0 0 "@) + wide + utf8(" "@) + high + utf8("]"@);
    let content = content_bytes(appearance.drawing, width, height);
    let end = utf8(" /Length "@) + decimal(content.len()) + utf8(" >>\nstream\n"@) + content + utf8(
        "\nendstream"@,
    );
    lemma_form_literals();
    let fonts = if appearance.drawing.text is Some {
        utf8(" /Font << /F0 << /Type /Font /Subtype /Type1 /BaseFont /Helvetica >> >>"@)
    } else {
        Seq::empty()
    };
    lemma_parts(
        utf8("<< /Type /XObject /Subtype /Form "@),
        seq![utf8("/BBox [0 0 "@), wide, utf8(" "@), high, utf8("]"@)],
        utf8(" /Resources <<"@),
        fonts,
        utf8(" >>"@),
        seq![
            utf8(" /Length "@),
            decimal(content.len()),
            utf8(" >>\nstream\n"@),
            content,
            utf8("\nendstream"@),
        ],
    );
}

/// Five parts, one behind the other.
spec fn five(parts: Seq<Seq<u8>>) -> Seq<u8> {
    parts[0] + parts[1] + parts[2] + parts[3] + parts[4]
}

proof fn lemma_parts(
    start: Seq<u8>,
    size: Seq<Seq<u8>>,
    a: Seq<u8>,
    b: Seq<u8>,
    c: Seq<u8>,
    end: Seq<Seq<u8>>,
)
    ensures
        ({
            let form = (start + size[0]) + size[1] + size[2] + size[3] + (size[4] + a) + b + (c
                + end[0]) + end[1] + end[2] + end[3] + end[4];
            &&& occurs_at(form, five(size), start.len() as int)
            &&& five(end).len() <= form.len()
            &&& form.skip(form.len() - five(end).len()) == five(end)
        }),
{
    let head = (start + size[0]) + size[1] + size[2] + size[3] + (size[4] + a);
    let front = head + b;
    let form = front + (c + end[0]) + end[1] + end[2] + end[3] + end[4];
    assert(head =~= start + five(size) + a);
    assert(form =~= (front + c) + five(end));
    let rest = a + b + c + five(end);
    assert(form =~= start + five(size) + rest);
    lemma_between(start, five(size), rest);
    assert(form.skip(form.len() - five(end).len()) =~= five(end));
}

proof fn lemma_between(before: Seq<u8>, part: Seq<u8>, rest: Seq<u8>)
    ensures
        occurs_at(before + part + rest, part, before.len() as int),
{
    let all = before + part + rest;
    assert(all.subrange(before.len() as int, (before.len() + part.len()) as int) =~= part);
}

proof fn lemma_form_literals()
    ensures
        utf8("<< /Type /XObject /Subtype /Form /BBox [0 0 "@) == utf8(
            "<< /Type /XObject /Subtype /Form "@,
        ) + utf8("/BBox [0 0 "@),
        utf8("<< /Type /XObject /Subtype /Form "@).len() == 33,
        utf8("] /Resources <<"@) == utf8("]"@) + utf8(" /Resources <<"@),
        utf8(" >> /Length "@) == utf8(" >>"@) + utf8(" /Length "@),
{
    reveal_strlit("<< /Type /XObject /Subtype /Form /BBox [0 0 ");
    reveal_strlit("<< /Type /XObject /Subtype /Form ");
    reveal_strlit("/BBox [0 0 ");
    reveal_strlit("] /Resources <<");
    reveal_strlit("]");
    reveal_strlit(" /Resources <<");
    reveal_strlit(" >> /Length ");
    reveal_strlit(" >>");
    reveal_strlit(" /Length ");
    lemma_ascii_joined("<< /Type /XObject /Subtype /Form "@, "/BBox [0 0 "@);
    lemma_ascii_joined("]"@, " /Resources <<"@);
    lemma_ascii_joined(" >>"@, " /Length "@);
    assert("<< /Type /XObject /Subtype /Form /BBox [0 0 "@ =~= "<< /Type /XObject /Subtype /Form "@
        + "/BBox [0 0 "@);
    assert("] /Resources <<"@ =~= "]"@ + " /Resources <<"@);
    assert(" >> /Length "@ =~= " >>"@ + " /Length "@);
}

proof fn lemma_ascii_joined(a: Seq<char>, b: Seq<char>)
    requires
        is_ascii_chars(a),
        is_ascii_chars(b),
    ensures
        utf8(a + b) == utf8(a) + utf8(b),
        utf8(a).len() == a.len(),
{
    is_ascii_chars_encode_utf8(a);
    is_ascii_chars_encode_utf8(b);
    assert forall|i: int| 0 <= i < (a + b).len() implies '\0' <= #[trigger] (a + b)[i]
        <= '\u{7f}' by {
        if i < a.len() {
            assert((a + b)[i] == a[i]);
        } else {
            assert((a + b)[i] == b[i - a.len()]);
        }
    }
    is_ascii_chars_encode_utf8(a + b);
    let whole = utf8(a + b);
    assert forall|i: int| 0 <= i < whole.len() implies #[trigger] whole[i] == (utf8(a) + utf8(
        b,
    ))[i] by {
        assert((a + b)[i] as u8 == whole[i]);
        if i < a.len() {
            assert((a + b)[i] == a[i]);
            assert(a[i] as u8 == utf8(a)[i]);
        } else {
            assert((a + b)[i] == b[i - a.len()]);
            assert(b[i - a.len()] as u8 == utf8(b)[i - a.len()]);
        }
    }
    assert(whole =~= utf8(a) + utf8(b));
}

/// The rectangle of a widget has the four numbers of the appearance, in their order.
pub proof fn law_a_rectangle_has_its_numbers(rect: Seq<i64>, i: int)
    requires
        rect.len() == 4,
        0 <= i < 4,
    ensures
        rect_value(rect) matches PdfValue::Array(items) && items.len() == 4 && (
        items[i] matches PdfValue::Real(number) && rect[i] == if number.negative {
            -(number.millionths as int)
        } else {
            number.millionths as int
        }),
{
}

/// The name is written at the first baseline, in the size of the text, and the time
/// one line below it.
pub proof fn law_the_name_stands_above_the_time(
    signer_name: Seq<char>,
    time_label: Seq<char>,
    height: int,
)
    ensures
        ({
            let ops = text_ops_bytes(signer_name, time_label, height);
            let size = number_bytes(size_thirds(height), THIRDS as nat);
            let first = number_bytes(baseline_thirds(height), THIRDS as nat);
            let down = number_bytes(-(size_thirds(height) + 3 * 2_000_000), THIRDS as nat);
            let before = utf8("BT\n/F0 "@) + size + utf8(" Tf\n2 "@) + first + utf8(" Td\n("@);
            let name = escaped(utf8(signer_name));
            let between = utf8(") Tj\n0 "@) + down + utf8(" Td\n("@);
            let time = escaped(utf8(time_label));
            &&& occurs_at(ops, before, 0)
            &&& occurs_at(ops, name, before.len() as int)
            &&& occurs_at(ops, between, (before.len() + name.len()) as int)
            &&& occurs_at(ops, time, (before.len() + name.len() + between.len()) as int)
        }),
{
    let ops = text_ops_bytes(signer_name, time_label, height);
    let size = number_bytes(size_thirds(height), THIRDS as nat);
    let first = number_bytes(baseline_thirds(height), THIRDS as nat);
    let down = number_bytes(-(size_thirds(height) + 3 * 2_000_000), THIRDS as nat);
    assert(-(size_thirds(height) + 3 * 2_000_000) == -size_thirds(height) - 6_000_000);
    let before = utf8("BT\n/F0 "@) + size + utf8(" Tf\n2 "@) + first + utf8(" Td\n("@);
    let name = escaped(utf8(signer_name));
    let between = utf8(") Tj\n0 "@) + down + utf8(" Td\n("@);
    let time = escaped(utf8(time_label));
    let end = utf8(") Tj\nET\n"@);
    assert(ops =~= before + name + between + time + end);
    let none = Seq::<u8>::empty();
    assert(ops =~= none + before + (name + between + time + end));
    lemma_between(none, before, name + between + time + end);
    assert(ops =~= before + name + (between + time + end));
    lemma_between(before, name, between + time + end);
    assert(ops =~= (before + name) + between + (time + end));
    lemma_between(before + name, between, time + end);
    assert(ops =~= (before + name + between) + time + end);
    lemma_between(before + name + between, time, end);
}

} // verus!
