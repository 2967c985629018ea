//! What a signature looks like on the page. It is decoration: nothing of it is
//! consulted when a signature is verified.
//!
//! Lengths and coordinates are millionths of a point.

use crate::bytes::{
    decimal, padded_decimal, push_bytes, push_decimal, push_padded_decimal, push_text, text_bytes,
    utf8,
};
use crate::pdfread::dictionary::{remove_entry, set_entry, with_entry, without_key, Entries};
use crate::pdfwrite::object::{
    entry_values, escaped, item_values, lemma_container_values, push_escaped,
    without_trailing_zeros, PdfObject, PdfValue, Real,
};
use crate::text::owned;
use vstd::prelude::*;

verus! {

/// Freehand strokes. A point lies within the rectangle at these millionths of
/// its width and height, counted from the bottom left.
pub type Strokes = Vec<Vec<(i64, i64)>>;

/// What is drawn.
#[derive(Debug, Clone)]
pub enum AppearanceContent {
    Ink { strokes: Strokes, stroke_width: i64 },
    /// Two lines in Helvetica. They are not measured, so a long line can be
    /// wider than the rectangle.
    Text { signer_name: String, time_label: String },
    InkAndText {
        strokes: Strokes,
        stroke_width: i64,
        signer_name: String,
        time_label: String,
    },
}

/// A visible signature.
#[derive(Debug, Clone)]
pub struct SignAppearance {
    /// The corners of the rectangle: left, bottom, right, top.
    pub rect: [i64; 4],
    /// The page that carries it. Only the first can.
    pub page_index: usize,
    pub content: AppearanceContent,
}

/// What is drawn, by its value.
pub struct Drawing {
    pub ink: Option<(Seq<Seq<(i64, i64)>>, i64)>,
    pub text: Option<(Seq<char>, Seq<char>)>,
}

/// A visible signature, by its value.
pub struct Appearance {
    pub rect: Seq<i64>,
    pub page_index: nat,
    pub drawing: Drawing,
}

/// Strokes, by their points.
pub open spec fn stroke_points(strokes: Seq<Vec<(i64, i64)>>) -> Seq<Seq<(i64, i64)>> {
    strokes.map_values(|stroke: Vec<(i64, i64)>| stroke@)
}

impl View for AppearanceContent {
    type V = Drawing;

    open spec fn view(&self) -> Drawing {
        match *self {
            AppearanceContent::Ink { strokes, stroke_width } => Drawing {
                ink: Some((stroke_points(strokes@), stroke_width)),
                text: None,
            },
            AppearanceContent::Text { signer_name, time_label } => Drawing {
                ink: None,
                text: Some((signer_name@, time_label@)),
            },
            AppearanceContent::InkAndText { strokes, stroke_width, signer_name, time_label } =>
                Drawing {
                ink: Some((stroke_points(strokes@), stroke_width)),
                text: Some((signer_name@, time_label@)),
            },
        }
    }
}

impl View for SignAppearance {
    type V = Appearance;

    open spec fn view(&self) -> Appearance {
        Appearance {
            rect: self.rect@,
            page_index: self.page_index as nat,
            drawing: self.content@,
        }
    }
}

/// A quotient rounded to the nearest whole number, and to the even one of two
/// that are equally near.
pub open spec fn nearest(n: nat, d: nat) -> nat {
    if 2 * (n % d) > d || (2 * (n % d) == d && n / d % 2 == 1) {
        n / d + 1
    } else {
        n / d
    }
}

/// The absolute value of a number.
pub open spec fn magnitude(n: int) -> nat {
    if n < 0 {
        (-n) as nat
    } else {
        n as nat
    }
}

/// A number of thousandths in fixed point, without the zeros it ends in.
pub open spec fn fixed_bytes(negative: bool, thousandths: nat) -> Seq<u8> {
    (if negative {
        utf8("-"@)
    } else {
        Seq::empty()
    }) + decimal(thousandths / 1000) + (if thousandths % 1000 == 0 {
        Seq::empty()
    } else {
        utf8("."@) + without_trailing_zeros(padded_decimal(thousandths % 1000, 3))
    })
}

/// A number in fixed point with at most three decimals, where `unit` of it make
/// a thousandth.
pub open spec fn number_bytes(n: int, unit: nat) -> Seq<u8> {
    fixed_bytes(n < 0, nearest(magnitude(n), unit))
}

/// How many millionths make a thousandth.
pub const MILLIONTHS: u128 = 1_000;

/// How many thirds of a millionth make a thousandth.
pub const THIRDS: u128 = 3_000;

/// How many millionths of a millionth make a thousandth.
pub const PRODUCTS: u128 = 1_000_000_000;

fn push_wide_decimal(out: &mut Vec<u8>, n: u128)
    ensures
        final(out)@ == old(out)@ + decimal(n as nat),
    decreases n,
{
    let ghost before = out@;
    if n < 10 {
        out.push(48 + n as u8);
        assert(out@ =~= before + decimal(n as nat));
    } else {
        push_wide_decimal(out, n / 10);
        out.push(48 + (n % 10) as u8);
        assert(out@ =~= before + decimal(n as nat));
    }
}

/// Appends a number in fixed point with at most three decimals.
fn push_number(out: &mut Vec<u8>, negative: bool, size: u128, unit: u128)
    requires
        0 < unit <= 1_000_000_000,
    ensures
        final(out)@ == old(out)@ + fixed_bytes(negative, nearest(size as nat, unit as nat)),
{
    let ghost before = out@;
    let quotient: u128 = size / unit;
    let rest: u128 = size % unit;
    let up = 2 * rest > unit || (2 * rest == unit && quotient % 2 == 1);
    proof {
        assert(up ==> unit >= 2);
        if up {
            assert(size as int / unit as int <= size as int / 2) by (nonlinear_arith)
                requires
                    size >= 0,
                    unit >= 2,
            ;
        }
    }
    let thousandths: u128 = if up {
        quotient + 1
    } else {
        quotient
    };
    if negative {
        push_text(out, "-");
    }
    push_wide_decimal(out, thousandths / 1000);
    let fraction: u64 = (thousandths % 1000) as u64;
    if fraction != 0 {
        let mut digits: Vec<u8> = Vec::new();
        push_padded_decimal(&mut digits, fraction, 3);
        let ghost full = padded_decimal(fraction as nat, 3);
        assert(digits@ =~= full);
        while digits.len() > 0 && digits[digits.len() - 1] == 48
            invariant
                without_trailing_zeros(digits@) == without_trailing_zeros(full),
            decreases digits@.len(),
        {
            let ghost longer = digits@;
            digits.pop();
            assert(digits@ =~= longer.drop_last());
        }
        push_text(out, ".");
        push_bytes(out, digits.as_slice());
    }
    assert(out@ =~= before + fixed_bytes(negative, nearest(size as nat, unit as nat)));
}

fn push_signed(out: &mut Vec<u8>, n: i128, unit: u128)
    requires
        0 < unit <= 1_000_000_000,
        n > i128::MIN,
    ensures
        final(out)@ == old(out)@ + number_bytes(n as int, unit as nat),
{
    if n < 0 {
        push_number(out, true, (-n) as u128, unit);
    } else {
        push_number(out, false, n as u128, unit);
    }
}

/// The operators that draw the first `n` points of a stroke.
pub open spec fn stroke_ops(points: Seq<(i64, i64)>, width: int, height: int, n: nat) -> Seq<u8>
    decreases n,
{
    if n == 0 {
        Seq::empty()
    } else {
        stroke_ops(points, width, height, (n - 1) as nat) + number_bytes(
            points[n - 1].0 * width,
            PRODUCTS as nat,
        ) + utf8(" "@) + number_bytes(points[n - 1].1 * height, PRODUCTS as nat) + (if n == 1 {
            utf8(" m\n"@)
        } else {
            utf8(" l\n"@)
        })
    }
}

/// The operators that draw the first `n` strokes. A stroke without points draws
/// nothing.
pub open spec fn strokes_ops(strokes: Seq<Seq<(i64, i64)>>, width: int, height: int, n: nat) -> Seq<u8>
    decreases n,
{
    if n == 0 {
        Seq::empty()
    } else {
        let points = strokes[n - 1];
        strokes_ops(strokes, width, height, (n - 1) as nat) + stroke_ops(
            points,
            width,
            height,
            points.len(),
        ) + (if points.len() > 0 {
            utf8("S\n"@)
        } else {
            Seq::empty()
        })
    }
}

/// The operators that draw with round ends and joins.
pub open spec fn ink_bytes(
    strokes: Seq<Seq<(i64, i64)>>,
    stroke_width: int,
    width: int,
    height: int,
) -> Seq<u8> {
    utf8("1 J 1 j "@) + number_bytes(stroke_width, MILLIONTHS as nat) + utf8(" w\n"@)
        + strokes_ops(strokes, width, height, strokes.len())
}

/// Three times the size of the text: a third of the height, but at least four
/// points and at most twelve.
pub open spec fn size_thirds(height: int) -> int {
    if height < 12_000_000 {
        12_000_000
    } else if height > 36_000_000 {
        36_000_000
    } else {
        height
    }
}

/// Three times the height of the first baseline.
pub open spec fn baseline_thirds(height: int) -> int {
    if 3 * height - size_thirds(height) - 6_000_000 > 0 {
        3 * height - size_thirds(height) - 6_000_000
    } else {
        0
    }
}

/// The operators that write two lines.
pub open spec fn text_ops_bytes(signer_name: Seq<char>, time_label: Seq<char>, height: int) -> Seq<u8> {
    utf8("BT\n/F0 "@) + number_bytes(size_thirds(height), THIRDS as nat) + utf8(" Tf\n2 "@)
        + number_bytes(baseline_thirds(height), THIRDS as nat) + utf8(" Td\n("@) + escaped(
        utf8(signer_name),
    ) + utf8(") Tj\n0 "@) + number_bytes(-size_thirds(height) - 6_000_000, THIRDS as nat) + utf8(
        " Td\n("@,
    ) + escaped(utf8(time_label)) + utf8(") Tj\nET\n"@)
}

/// The content stream of an appearance.
pub open spec fn content_bytes(drawing: Drawing, width: int, height: int) -> Seq<u8> {
    (match drawing.ink {
        Some((strokes, stroke_width)) => ink_bytes(strokes, stroke_width as int, width, height),
        None => Seq::empty(),
    }) + (match drawing.text {
        Some((signer_name, time_label)) => text_ops_bytes(signer_name, time_label, height),
        None => Seq::empty(),
    })
}

/// The form XObject of an appearance.
pub open spec fn xobject_bytes(appearance: Appearance) -> Seq<u8> {
    let width = appearance.rect[2] - appearance.rect[0];
    let height = appearance.rect[3] - appearance.rect[1];
    let content = content_bytes(appearance.drawing, width, height);
    utf8("<< /Type /XObject /Subtype /Form /BBox [0 0 "@) + number_bytes(width, MILLIONTHS as nat)
        + utf8(" "@) + number_bytes(height, MILLIONTHS as nat) + utf8("] /Resources <<"@) + (
    if appearance.drawing.text is Some {
        utf8(" /Font << /F0 << /Type /Font /Subtype /Type1 /BaseFont /Helvetica >> >>"@)
    } else {
        Seq::empty()
    }) + utf8(" >> /Length "@) + decimal(content.len()) + utf8(" >>\nstream\n"@) + content + utf8(
        "\nendstream"@,
    )
}

proof fn lemma_product(a: int, b: int)
    requires
        -0x8000_0000_0000_0000 <= a <= 0x7fff_ffff_ffff_ffff,
        -0xffff_ffff_ffff_ffff <= b <= 0xffff_ffff_ffff_ffff,
    ensures
        i128::MIN < a * b <= i128::MAX,
{
    assert(-0x8000_0000_0000_0000 * 0xffff_ffff_ffff_ffff <= a * b <= 0x8000_0000_0000_0000
        * 0xffff_ffff_ffff_ffff) by (nonlinear_arith)
        requires
            -0x8000_0000_0000_0000 <= a <= 0x7fff_ffff_ffff_ffff,
            -0xffff_ffff_ffff_ffff <= b <= 0xffff_ffff_ffff_ffff,
    ;
}

fn push_stroke(out: &mut Vec<u8>, points: &[(i64, i64)], width: i128, height: i128)
    requires
        -0xffff_ffff_ffff_ffff <= width <= 0xffff_ffff_ffff_ffff,
        -0xffff_ffff_ffff_ffff <= height <= 0xffff_ffff_ffff_ffff,
    ensures
        final(out)@ == old(out)@ + stroke_ops(
            points@,
            width as int,
            height as int,
            points@.len(),
        ),
{
    let ghost before = out@;
    let mut i: usize = 0;
    assert(before + Seq::<u8>::empty() =~= before);
    while i < points.len()
        invariant
            i <= points@.len(),
            -0xffff_ffff_ffff_ffff <= width <= 0xffff_ffff_ffff_ffff,
            -0xffff_ffff_ffff_ffff <= height <= 0xffff_ffff_ffff_ffff,
            out@ == before + stroke_ops(points@, width as int, height as int, i as nat),
        decreases points@.len() - i,
    {
        let (x, y) = points[i];
        proof {
            lemma_product(x as int, width as int);
            lemma_product(y as int, height as int);
        }
        push_signed(out, x as i128 * width, PRODUCTS);
        push_text(out, " ");
        push_signed(out, y as i128 * height, PRODUCTS);
        if i == 0 {
            push_text(out, " m\n");
        } else {
            push_text(out, " l\n");
        }
        i += 1;
        assert(out@ =~= before + stroke_ops(points@, width as int, height as int, i as nat));
    }
}

/// The operators that draw strokes in a box of this size.
pub fn ink_ops(strokes: &[Vec<(i64, i64)>], stroke_width: i64, width: i128, height: i128) -> (out:
    Vec<u8>)
    requires
        -0xffff_ffff_ffff_ffff <= width <= 0xffff_ffff_ffff_ffff,
        -0xffff_ffff_ffff_ffff <= height <= 0xffff_ffff_ffff_ffff,
    ensures
        out@ == ink_bytes(
            stroke_points(strokes@),
            stroke_width as int,
            width as int,
            height as int,
        ),
{
    let ghost points = stroke_points(strokes@);
    let mut out = text_bytes("1 J 1 j ");
    push_signed(&mut out, stroke_width as i128, MILLIONTHS);
    push_text(&mut out, " w\n");
    let ghost start = out@;
    assert(start + Seq::<u8>::empty() =~= start);
    let mut i: usize = 0;
    while i < strokes.len()
        invariant
            i <= strokes@.len(),
            -0xffff_ffff_ffff_ffff <= width <= 0xffff_ffff_ffff_ffff,
            -0xffff_ffff_ffff_ffff <= height <= 0xffff_ffff_ffff_ffff,
            points == stroke_points(strokes@),
            out@ == start + strokes_ops(points, width as int, height as int, i as nat),
        decreases strokes@.len() - i,
    {
        assert(points[i as int] == strokes@[i as int]@);
        push_stroke(&mut out, strokes[i].as_slice(), width, height);
        if strokes[i].len() > 0 {
            push_text(&mut out, "S\n");
        }
        i += 1;
        assert(out@ =~= start + strokes_ops(points, width as int, height as int, i as nat));
    }
    out
}

/// The operators that write two lines in a box of this height.
pub fn text_ops(signer_name: &str, time_label: &str, height: i128) -> (out: Vec<u8>)
    requires
        -0xffff_ffff_ffff_ffff <= height <= 0xffff_ffff_ffff_ffff,
    ensures
        out@ == text_ops_bytes(signer_name@, time_label@, height as int),
{
    let size: i128 = if height < 12_000_000 {
        12_000_000
    } else if height > 36_000_000 {
        36_000_000
    } else {
        height
    };
    let above: i128 = 3 * height - size - 6_000_000;
    let baseline: i128 = if above > 0 {
        above
    } else {
        0
    };
    let mut out = text_bytes("BT\n/F0 ");
    push_signed(&mut out, size, THIRDS);
    push_text(&mut out, " Tf\n2 ");
    push_signed(&mut out, baseline, THIRDS);
    push_text(&mut out, " Td\n(");
    push_escaped(&mut out, signer_name.as_bytes());
    push_text(&mut out, ") Tj\n0 ");
    push_signed(&mut out, -size - 6_000_000, THIRDS);
    push_text(&mut out, " Td\n(");
    push_escaped(&mut out, time_label.as_bytes());
    push_text(&mut out, ") Tj\nET\n");
    out
}

/// The content stream of an appearance in a box of this size, and whether it
/// writes text.
pub fn appearance_content_stream(content: &AppearanceContent, width: i128, height: i128) -> (stream:
    (Vec<u8>, bool))
    requires
        -0xffff_ffff_ffff_ffff <= width <= 0xffff_ffff_ffff_ffff,
        -0xffff_ffff_ffff_ffff <= height <= 0xffff_ffff_ffff_ffff,
    ensures
        stream.0@ == content_bytes(content@, width as int, height as int),
        stream.1 == content@.text is Some,
{
    let stream = match content {
        AppearanceContent::Ink { strokes, stroke_width } => (
            ink_ops(strokes.as_slice(), *stroke_width, width, height),
            false,
        ),
        AppearanceContent::Text { signer_name, time_label } => (
            text_ops(signer_name.as_str(), time_label.as_str(), height),
            true,
        ),
        AppearanceContent::InkAndText { strokes, stroke_width, signer_name, time_label } => {
            let mut ops = ink_ops(strokes.as_slice(), *stroke_width, width, height);
            let text = text_ops(signer_name.as_str(), time_label.as_str(), height);
            push_bytes(&mut ops, text.as_slice());
            (ops, true)
        },
    };
    assert(stream.0@ =~= content_bytes(content@, width as int, height as int));
    stream
}

/// The form XObject of an appearance.
pub fn build_appearance_xobject(appearance: &SignAppearance) -> (out: Vec<u8>)
    ensures
        out@ == xobject_bytes(appearance@),
{
    let width: i128 = appearance.rect[2] as i128 - appearance.rect[0] as i128;
    let height: i128 = appearance.rect[3] as i128 - appearance.rect[1] as i128;
    let (content, has_text) = appearance_content_stream(&appearance.content, width, height);
    let mut out = text_bytes("<< /Type /XObject /Subtype /Form /BBox [0 0 ");
    push_signed(&mut out, width, MILLIONTHS);
    push_text(&mut out, " ");
    push_signed(&mut out, height, MILLIONTHS);
    push_text(&mut out, "] /Resources <<");
    let ghost before = out@;
    if has_text {
        push_text(
            &mut out,
            " /Font << /F0 << /Type /Font /Subtype /Type1 /BaseFont /Helvetica >> >>",
        );
    }
    assert(out@ =~= before + (if has_text {
        utf8(" /Font << /F0 << /Type /Font /Subtype /Type1 /BaseFont /Helvetica >> >>"@)
    } else {
        Seq::empty()
    }));
    push_text(&mut out, " >> /Length ");
    push_decimal(&mut out, content.len() as u64);
    push_text(&mut out, " >>\nstream\n");
    push_bytes(&mut out, content.as_slice());
    push_text(&mut out, "\nendstream");
    out
}

/// A number of millionths as a real number.
pub open spec fn real_value(n: i64) -> Real {
    Real { negative: n < 0, millionths: magnitude(n as int) as u128 }
}

fn real_number(n: i64) -> (number: Real)
    ensures
        number == real_value(n),
{
    if n < 0 {
        Real { negative: true, millionths: (-(n + 1)) as u128 + 1 }
    } else {
        Real { negative: false, millionths: n as u128 }
    }
}

/// The rectangle of an appearance, as an array.
pub open spec fn rect_value(rect: Seq<i64>) -> PdfValue {
    PdfValue::Array(
        seq![
            PdfValue::Real(real_value(rect[0])),
            PdfValue::Real(real_value(rect[1])),
            PdfValue::Real(real_value(rect[2])),
            PdfValue::Real(real_value(rect[3])),
        ],
    )
}

/// A reference to an object of the first generation.
pub open spec fn reference_to(number: nat) -> PdfValue {
    PdfValue::IndirectRef { obj_num: number, gen_num: 0 }
}

/// A reference to an object of some generation.
pub open spec fn reference_in(number: nat, generation: nat) -> PdfValue {
    PdfValue::IndirectRef { obj_num: number, gen_num: generation }
}

/// A widget that shows an appearance: its rectangle is that of the appearance,
/// `/AP` names the form XObject, and no appearance state is left.
pub open spec fn with_appearance(entries: Entries, rect: Seq<i64>, xobject: nat) -> Entries {
    without_key(
        with_entry(
            with_entry(entries, "Rect"@, rect_value(rect)),
            "AP"@,
            PdfValue::Dictionary(seq![("N"@, reference_to(xobject))]),
        ),
        "AS"@,
    )
}

/// Makes a widget show an appearance.
pub fn apply_appearance_to_widget(
    entries: Vec<(String, PdfObject)>,
    appearance: &SignAppearance,
    xobject_num: u32,
) -> (changed: Vec<(String, PdfObject)>)
    ensures
        entry_values(changed@) == with_appearance(
            entry_values(entries@),
            appearance@.rect,
            xobject_num as nat,
        ),
{
    let mut entries = entries;
    let mut corners: Vec<PdfObject> = Vec::new();
    corners.push(PdfObject::Real(real_number(appearance.rect[0])));
    corners.push(PdfObject::Real(real_number(appearance.rect[1])));
    corners.push(PdfObject::Real(real_number(appearance.rect[2])));
    corners.push(PdfObject::Real(real_number(appearance.rect[3])));
    let rect = PdfObject::Array(corners);
    proof {
        lemma_container_values(rect);
        assert(item_values(corners@) =~= rect_value(appearance.rect@)->Array_0);
    }
    set_entry(&mut entries, "Rect", rect);
    let mut names: Vec<(String, PdfObject)> = Vec::new();
    names.push((owned("N"), PdfObject::IndirectRef { obj_num: xobject_num, gen_num: 0 }));
    let normal = PdfObject::Dictionary(names);
    proof {
        lemma_container_values(normal);
        assert(entry_values(names@) =~= seq![("N"@, reference_to(xobject_num as nat))]);
    }
    set_entry(&mut entries, "AP", normal);
    remove_entry(entries, "AS")
}

} // verus!
