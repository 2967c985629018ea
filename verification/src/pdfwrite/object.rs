//! PDF objects and the syntax they are written in.
//!
//! [`PdfObject`] is what the writer holds. Its value, apart from how the
//! memory is laid out, is a [`PdfValue`], and [`pdf_bytes`] says how a value
//! is written.

use crate::bytes::{
    decimal, hex, hex_digit_byte, hex_pair, padded_decimal, push_bytes, push_decimal, push_hex,
    push_long_decimal, push_padded_decimal, push_signed_decimal, push_text, signed_decimal, utf8,
};
use crate::pdfwrite::error::PdfWriteError;
use crate::text::{chars_of, lemma_char_code, text_from_utf8};
use vstd::prelude::*;
use vstd::utf8::{decode_utf8, valid_utf8};

verus! {

/// A real number in millionths, beside its sign.
#[derive(Debug, Clone, Copy, PartialEq, Eq, Structural)]
pub struct Real {
    pub negative: bool,
    pub millionths: u128,
}

/// A PDF object as the writer holds it.
#[derive(Debug, PartialEq, Eq)]
pub enum PdfObject {
    Null,
    Boolean(bool),
    Integer(i64),
    Real(Real),
    /// Text in UTF-8 that this program made. Written as a literal string when
    /// it is ASCII, and as UTF-16BE with a byte order mark when it is not.
    String(Vec<u8>),
    /// The bytes of a string that was read from a document, written as a
    /// hexadecimal string so that they come out as they went in.
    RawString(Vec<u8>),
    Name(String),
    Array(Vec<PdfObject>),
    /// Entries in the order they are written.
    Dictionary(Vec<(String, PdfObject)>),
    IndirectRef { obj_num: u32, gen_num: u16 },
    HexString(Vec<u8>),
    /// Bytes written as they stand: a placeholder of fixed width that is found
    /// again and filled in afterwards.
    Raw(Vec<u8>),
}

/// The value of a PDF object.
pub enum PdfValue {
    Null,
    Boolean(bool),
    Integer(int),
    Real(Real),
    String(Seq<u8>),
    RawString(Seq<u8>),
    Name(Seq<char>),
    Array(Seq<PdfValue>),
    Dictionary(Seq<(Seq<char>, PdfValue)>),
    IndirectRef { obj_num: nat, gen_num: nat },
    HexString(Seq<u8>),
    Raw(Seq<u8>),
}

impl View for PdfObject {
    type V = PdfValue;

    open spec fn view(&self) -> PdfValue
        decreases self,
    {
        match *self {
            PdfObject::Null => PdfValue::Null,
            PdfObject::Boolean(b) => PdfValue::Boolean(b),
            PdfObject::Integer(i) => PdfValue::Integer(i as int),
            PdfObject::Real(r) => PdfValue::Real(r),
            PdfObject::String(s) => PdfValue::String(s@),
            PdfObject::RawString(s) => PdfValue::RawString(s@),
            PdfObject::Name(n) => PdfValue::Name(n@),
            PdfObject::Array(items) => PdfValue::Array(
                Seq::new(
                    items@.len(),
                    |i: int|
                        if 0 <= i < items@.len() {
                            items@[i].view()
                        } else {
                            PdfValue::Null
                        },
                ),
            ),
            PdfObject::Dictionary(entries) => PdfValue::Dictionary(
                Seq::new(
                    entries@.len(),
                    |i: int|
                        if 0 <= i < entries@.len() {
                            (entries@[i].0@, entries@[i].1.view())
                        } else {
                            (Seq::empty(), PdfValue::Null)
                        },
                ),
            ),
            PdfObject::IndirectRef { obj_num, gen_num } => PdfValue::IndirectRef {
                obj_num: obj_num as nat,
                gen_num: gen_num as nat,
            },
            PdfObject::HexString(h) => PdfValue::HexString(h@),
            PdfObject::Raw(bytes) => PdfValue::Raw(bytes@),
        }
    }
}

/// The objects of an array, each by its value.
pub open spec fn item_values(items: Seq<PdfObject>) -> Seq<PdfValue> {
    Seq::new(items.len(), |i: int| items[i]@)
}

/// The entries of a dictionary, each by its key and value.
pub open spec fn entry_values(entries: Seq<(String, PdfObject)>) -> Seq<(Seq<char>, PdfValue)> {
    Seq::new(entries.len(), |i: int| (entries[i].0@, entries[i].1@))
}

/// The value of an array or a dictionary is made of the values in it.
pub proof fn lemma_container_values(object: PdfObject)
    ensures
        object matches PdfObject::Array(items) ==> object@ == PdfValue::Array(item_values(items@)),
        object matches PdfObject::Dictionary(entries) ==> object@ == PdfValue::Dictionary(
            entry_values(entries@),
        ),
{
    reveal_with_fuel(<PdfObject as View>::view, 2);
    if let PdfObject::Array(items) = object {
        assert(object@->Array_0 =~= item_values(items@));
    }
    if let PdfObject::Dictionary(entries) = object {
        assert(object@->Dictionary_0 =~= entry_values(entries@));
    }
}

/// Every byte is ASCII.
pub open spec fn is_ascii_bytes(bytes: Seq<u8>) -> bool {
    forall|i: int| 0 <= i < bytes.len() ==> #[trigger] bytes[i] < 128
}

/// A byte string without the zeros (`0`) it ends in.
pub open spec fn without_trailing_zeros(digits: Seq<u8>) -> Seq<u8>
    decreases digits.len(),
{
    if digits.len() > 0 && digits.last() == 48 {
        without_trailing_zeros(digits.drop_last())
    } else {
        digits
    }
}

/// A real number in fixed point, with at most six decimals and no exponent.
pub open spec fn real_bytes(number: Real) -> Seq<u8> {
    (if number.negative {
        utf8("-"@)
    } else {
        Seq::empty()
    }) + decimal(number.millionths as nat / 1_000_000) + (if number.millionths as nat % 1_000_000 == 0 {
        Seq::empty()
    } else {
        utf8("."@) + without_trailing_zeros(
            padded_decimal(number.millionths as nat % 1_000_000, 6),
        )
    })
}

/// The body of a literal string: parentheses and backslashes are escaped.
pub open spec fn escaped(bytes: Seq<u8>) -> Seq<u8>
    decreases bytes.len(),
{
    if bytes.len() == 0 {
        Seq::empty()
    } else if bytes.last() == 40 || bytes.last() == 41 || bytes.last() == 92 {
        escaped(bytes.drop_last()) + seq![92u8, bytes.last()]
    } else {
        escaped(bytes.drop_last()) + seq![bytes.last()]
    }
}

/// The UTF-16 code units of one character.
pub open spec fn utf16_of(c: char) -> Seq<u16> {
    if (c as int) < 0x10000 {
        seq![c as u16]
    } else {
        seq![
            (0xD800 + (c as int - 0x10000) / 0x400) as u16,
            (0xDC00 + (c as int - 0x10000) % 0x400) as u16,
        ]
    }
}

/// The UTF-16 code units of a text.
pub open spec fn utf16(text: Seq<char>) -> Seq<u16>
    decreases text.len(),
{
    if text.len() == 0 {
        Seq::empty()
    } else {
        utf16(text.drop_last()) + utf16_of(text.last())
    }
}

/// Code units in hexadecimal, four digits to the unit.
pub open spec fn hex_units(units: Seq<u16>) -> Seq<u8>
    decreases units.len(),
{
    if units.len() == 0 {
        Seq::empty()
    } else {
        hex_units(units.drop_last()) + hex_pair((units.last() / 256) as u8) + hex_pair(
            (units.last() % 256) as u8,
        )
    }
}

/// A hexadecimal string.
pub open spec fn hex_string_bytes(bytes: Seq<u8>) -> Seq<u8> {
    utf8("<"@) + hex(bytes) + utf8(">"@)
}

/// A text string. Without a byte order mark a reader takes a string for
/// PDFDocEncoding, of which ASCII is a part; other text is written in UTF-16BE,
/// and bytes that are no text at all are kept as they are.
pub open spec fn string_bytes(bytes: Seq<u8>) -> Seq<u8> {
    if is_ascii_bytes(bytes) {
        utf8("("@) + escaped(bytes) + utf8(")"@)
    } else if valid_utf8(bytes) {
        utf8("<FEFF"@) + hex_units(utf16(decode_utf8(bytes))) + utf8(">"@)
    } else {
        hex_string_bytes(bytes)
    }
}

/// A byte that a name cannot hold as it stands.
pub open spec fn is_escaped_in_name(byte: u8) -> bool {
    ||| byte <= 0x20
    ||| byte >= 0x7F
    ||| byte == 0x23
    ||| byte == 0x25
    ||| byte == 0x28
    ||| byte == 0x29
    ||| byte == 0x2F
    ||| byte == 0x3C
    ||| byte == 0x3E
    ||| byte == 0x5B
    ||| byte == 0x5D
    ||| byte == 0x7B
    ||| byte == 0x7D
}

/// The body of a name: a byte that cannot stand there is written as `#` and
/// its two hexadecimal digits.
pub open spec fn name_body(bytes: Seq<u8>) -> Seq<u8>
    decreases bytes.len(),
{
    if bytes.len() == 0 {
        Seq::empty()
    } else if is_escaped_in_name(bytes.last()) {
        name_body(bytes.drop_last()) + (seq![0x23u8] + hex_pair(bytes.last()))
    } else {
        name_body(bytes.drop_last()) + seq![bytes.last()]
    }
}

/// A name.
pub open spec fn name_bytes(name: Seq<char>) -> Seq<u8> {
    utf8("/"@) + name_body(utf8(name))
}

/// An indirect reference.
pub open spec fn reference_bytes(obj_num: nat, gen_num: nat) -> Seq<u8> {
    decimal(obj_num) + utf8(" "@) + decimal(gen_num) + utf8(" R"@)
}

/// How a value is written.
pub open spec fn pdf_bytes(value: PdfValue) -> Seq<u8>
    decreases value, 0nat,
{
    match value {
        PdfValue::Null => utf8("null"@),
        PdfValue::Boolean(b) => if b {
            utf8("true"@)
        } else {
            utf8("false"@)
        },
        PdfValue::Integer(i) => signed_decimal(i),
        PdfValue::Real(number) => real_bytes(number),
        PdfValue::String(bytes) => string_bytes(bytes),
        PdfValue::RawString(bytes) => hex_string_bytes(bytes),
        PdfValue::Name(name) => name_bytes(name),
        PdfValue::Array(items) => utf8("["@) + array_body(items, items.len()) + utf8("]"@),
        PdfValue::Dictionary(entries) => utf8("<<"@) + dictionary_body(entries, entries.len())
            + utf8(">>"@),
        PdfValue::IndirectRef { obj_num, gen_num } => reference_bytes(obj_num, gen_num),
        PdfValue::HexString(bytes) => hex_string_bytes(bytes),
        PdfValue::Raw(bytes) => bytes,
    }
}

/// The first `n` items of an array, with a space between neighbours.
pub open spec fn array_body(items: Seq<PdfValue>, n: nat) -> Seq<u8>
    decreases items, n,
{
    if n == 0 || n > items.len() {
        Seq::empty()
    } else {
        array_body(items, (n - 1) as nat) + (if n > 1 {
            utf8(" "@)
        } else {
            Seq::empty()
        }) + pdf_bytes(items[n - 1])
    }
}

/// The first `n` entries of a dictionary: each a name, a space and a value.
pub open spec fn dictionary_body(entries: Seq<(Seq<char>, PdfValue)>, n: nat) -> Seq<u8>
    decreases entries, n,
{
    if n == 0 || n > entries.len() {
        Seq::empty()
    } else {
        dictionary_body(entries, (n - 1) as nat) + name_bytes(entries[n - 1].0) + utf8(" "@)
            + pdf_bytes(entries[n - 1].1)
    }
}

/// Is every byte ASCII?
pub fn all_ascii(bytes: &[u8]) -> (all: bool)
    ensures
        all == is_ascii_bytes(bytes@),
{
    let mut i: usize = 0;
    while i < bytes.len()
        invariant
            i <= bytes@.len(),
            forall|j: int| 0 <= j < i ==> #[trigger] bytes@[j] < 128,
        decreases bytes@.len() - i,
    {
        if bytes[i] >= 128 {
            return false;
        }
        i += 1;
    }
    true
}

fn push_real(out: &mut Vec<u8>, number: Real)
    ensures
        final(out)@ == old(out)@ + real_bytes(number),
{
    let ghost before = out@;
    let whole: u128 = number.millionths / 1_000_000;
    let fraction: u64 = (number.millionths % 1_000_000) as u64;
    if number.negative {
        push_text(out, "-");
    }
    push_long_decimal(out, whole);
    if fraction != 0 {
        let mut digits: Vec<u8> = Vec::new();
        push_padded_decimal(&mut digits, fraction, 6);
        let ghost full = padded_decimal(fraction as nat, 6);
        assert(digits@ =~= full);
        while digits.len() > 0 && digits[digits.len() - 1] == 48
            invariant
                without_trailing_zeros(digits@) == without_trailing_zeros(full),
            decreases digits@.len(),
        {
            let ghost longer = digits@;
            digits.pop();
            assert(digits@ =~= longer.drop_last());
        }
        push_text(out, ".");
        push_bytes(out, digits.as_slice());
    }
    assert(out@ =~= before + real_bytes(number));
}

pub(crate) fn push_escaped(out: &mut Vec<u8>, bytes: &[u8])
    ensures
        final(out)@ == old(out)@ + escaped(bytes@),
{
    let ghost before = out@;
    let mut i: usize = 0;
    assert(bytes@.take(0) =~= Seq::<u8>::empty());
    assert(before + escaped(bytes@.take(0)) =~= before);
    while i < bytes.len()
        invariant
            i <= bytes@.len(),
            out@ == before + escaped(bytes@.take(i as int)),
        decreases bytes@.len() - i,
    {
        let byte: u8 = bytes[i];
        if byte == 40 || byte == 41 || byte == 92 {
            out.push(92);
        }
        out.push(byte);
        proof {
            let longer = bytes@.take(i + 1);
            assert(longer.drop_last() =~= bytes@.take(i as int));
            assert(out@ =~= before + escaped(longer));
        }
        i += 1;
    }
    assert(bytes@.take(bytes@.len() as int) =~= bytes@);
}

/// Appends the four hexadecimal digits of a code unit.
fn push_hex_unit(out: &mut Vec<u8>, unit: u16)
    ensures
        final(out)@ == old(out)@ + hex_pair((unit / 256) as u8) + hex_pair((unit % 256) as u8),
{
    let ghost before = out@;
    let high: u8 = (unit / 256) as u8;
    let low: u8 = (unit % 256) as u8;
    out.push(hex_digit_byte(high / 16));
    out.push(hex_digit_byte(high % 16));
    out.push(hex_digit_byte(low / 16));
    out.push(hex_digit_byte(low % 16));
    assert(out@ =~= before + hex_pair(high) + hex_pair(low));
}

proof fn lemma_hex_units_push(units: Seq<u16>, unit: u16)
    ensures
        hex_units(units.push(unit)) == hex_units(units) + hex_pair((unit / 256) as u8) + hex_pair(
            (unit % 256) as u8,
        ),
{
    assert(units.push(unit).drop_last() =~= units);
}

/// Appends a text in UTF-16, each code unit in hexadecimal.
fn push_utf16_hex(out: &mut Vec<u8>, text: &str)
    ensures
        final(out)@ == old(out)@ + hex_units(utf16(text@)),
{
    let ghost before = out@;
    let chars = chars_of(text);
    let mut i: usize = 0;
    assert(text@.take(0) =~= Seq::<char>::empty());
    assert(utf16(text@.take(0)) =~= Seq::<u16>::empty());
    assert(before + hex_units(Seq::empty()) =~= before);
    while i < chars.len()
        invariant
            i <= chars@.len(),
            chars@ == text@,
            out@ == before + hex_units(utf16(text@.take(i as int))),
        decreases chars@.len() - i,
    {
        let c: char = chars[i];
        proof {
            lemma_char_code(c);
        }
        let code: u32 = c as u32;
        assert(code == c as int);
        let ghost units = utf16(text@.take(i as int));
        let ghost longer = text@.take(i + 1);
        assert(longer.drop_last() =~= text@.take(i as int));
        assert(longer.last() == c);
        if code < 0x10000 {
            push_hex_unit(out, code as u16);
            proof {
                lemma_hex_units_push(units, code as u16);
                assert(units + utf16_of(c) =~= units.push(code as u16));
                assert(out@ =~= before + hex_units(utf16(longer)));
            }
        } else {
            let high: u16 = (0xD800 + (code - 0x10000) / 0x400) as u16;
            let low: u16 = (0xDC00 + (code - 0x10000) % 0x400) as u16;
            push_hex_unit(out, high);
            push_hex_unit(out, low);
            proof {
                lemma_hex_units_push(units, high);
                lemma_hex_units_push(units.push(high), low);
                assert(units + utf16_of(c) =~= units.push(high).push(low));
                assert(out@ =~= before + hex_units(utf16(longer)));
            }
        }
        i += 1;
    }
    assert(text@.take(text@.len() as int) =~= text@);
}

/// Appends a hexadecimal string, `<...>`.
pub fn push_hex_string(out: &mut Vec<u8>, bytes: &[u8])
    ensures
        final(out)@ == old(out)@ + hex_string_bytes(bytes@),
{
    let ghost before = out@;
    push_text(out, "<");
    push_hex(out, bytes);
    push_text(out, ">");
    assert(out@ =~= before + hex_string_bytes(bytes@));
}

fn push_string(out: &mut Vec<u8>, bytes: &[u8])
    ensures
        final(out)@ == old(out)@ + string_bytes(bytes@),
{
    let ghost before = out@;
    if all_ascii(bytes) {
        push_text(out, "(");
        push_escaped(out, bytes);
        push_text(out, ")");
        assert(out@ =~= before + string_bytes(bytes@));
    } else {
        match text_from_utf8(bytes) {
            Some(text) => {
                push_text(out, "<FEFF");
                push_utf16_hex(out, text.as_str());
                push_text(out, ">");
                assert(out@ =~= before + string_bytes(bytes@));
            },
            None => {
                push_hex_string(out, bytes);
            },
        }
    }
}

/// Appends a name.
pub fn push_name(out: &mut Vec<u8>, name: &str)
    ensures
        final(out)@ == old(out)@ + name_bytes(name@),
{
    let ghost before = out@;
    push_text(out, "/");
    let ghost start = out@;
    let bytes = name.as_bytes();
    let mut i: usize = 0;
    assert(bytes@.take(0) =~= Seq::<u8>::empty());
    assert(start + name_body(bytes@.take(0)) =~= start);
    while i < bytes.len()
        invariant
            i <= bytes@.len(),
            out@ == start + name_body(bytes@.take(i as int)),
        decreases bytes@.len() - i,
    {
        let byte: u8 = bytes[i];
        let escape = match byte {
            0..=0x20 | 0x7F..=0xFF => true,
            0x23 | 0x25 | 0x28 | 0x29 | 0x2F | 0x3C | 0x3E | 0x5B | 0x5D | 0x7B | 0x7D => true,
            _ => false,
        };
        if escape {
            out.push(0x23);
            out.push(hex_digit_byte(byte / 16));
            out.push(hex_digit_byte(byte % 16));
        } else {
            out.push(byte);
        }
        proof {
            let longer = bytes@.take(i + 1);
            assert(longer.drop_last() =~= bytes@.take(i as int));
            assert(out@ =~= start + name_body(longer));
        }
        i += 1;
    }
    assert(bytes@.take(bytes@.len() as int) =~= bytes@);
    assert(out@ =~= before + name_bytes(name@));
}

/// Appends an indirect reference.
pub fn push_reference(out: &mut Vec<u8>, obj_num: u32, gen_num: u16)
    ensures
        final(out)@ == old(out)@ + reference_bytes(obj_num as nat, gen_num as nat),
{
    let ghost before = out@;
    push_decimal(out, obj_num as u64);
    push_text(out, " ");
    push_decimal(out, gen_num as u64);
    push_text(out, " R");
    assert(out@ =~= before + reference_bytes(obj_num as nat, gen_num as nat));
}

impl PdfObject {
    /// The object in PDF syntax.
    pub fn to_bytes(&self) -> (out: Vec<u8>)
        ensures
            out@ == pdf_bytes(self@),
        decreases self,
    {
        let mut out: Vec<u8> = Vec::new();
        match self {
            PdfObject::Null => push_text(&mut out, "null"),
            PdfObject::Boolean(b) => if *b {
                push_text(&mut out, "true")
            } else {
                push_text(&mut out, "false")
            },
            PdfObject::Integer(i) => push_signed_decimal(&mut out, *i),
            PdfObject::Real(number) => push_real(&mut out, *number),
            PdfObject::String(bytes) => push_string(&mut out, bytes.as_slice()),
            PdfObject::RawString(bytes) => push_hex_string(&mut out, bytes.as_slice()),
            PdfObject::Name(name) => push_name(&mut out, name.as_str()),
            PdfObject::HexString(bytes) => push_hex_string(&mut out, bytes.as_slice()),
            PdfObject::IndirectRef { obj_num, gen_num } => push_reference(
                &mut out,
                *obj_num,
                *gen_num,
            ),
            PdfObject::Raw(bytes) => push_bytes(&mut out, bytes.as_slice()),
            PdfObject::Array(items) => {
                proof {
                    lemma_container_values(*self);
                }
                let ghost values = item_values(items@);
                push_text(&mut out, "[");
                assert(out@ =~= utf8("["@) + array_body(values, 0));
                let mut i: usize = 0;
                while i < items.len()
                    invariant
                        i <= items@.len(),
                        values == item_values(items@),
                        *self == PdfObject::Array(*items),
                        out@ == utf8("["@) + array_body(values, i as nat),
                    decreases items@.len() - i,
                {
                    if i > 0 {
                        push_text(&mut out, " ");
                    }
                    proof {
                        assert(decreases_to!(*self => self->Array_0));
                        assert(decreases_to!(*items => items@));
                        assert(decreases_to!(items@ => items@[i as int]));
                    }
                    let item = items[i].to_bytes();
                    push_bytes(&mut out, item.as_slice());
                    i += 1;
                    assert(out@ =~= utf8("["@) + array_body(values, i as nat));
                }
                push_text(&mut out, "]");
            },
            PdfObject::Dictionary(entries) => {
                proof {
                    lemma_container_values(*self);
                }
                let ghost values = entry_values(entries@);
                push_text(&mut out, "<<");
                assert(out@ =~= utf8("<<"@) + dictionary_body(values, 0));
                let mut i: usize = 0;
                while i < entries.len()
                    invariant
                        i <= entries@.len(),
                        values == entry_values(entries@),
                        *self == PdfObject::Dictionary(*entries),
                        out@ == utf8("<<"@) + dictionary_body(values, i as nat),
                    decreases entries@.len() - i,
                {
                    push_name(&mut out, entries[i].0.as_str());
                    push_text(&mut out, " ");
                    proof {
                        assert(decreases_to!(*self => self->Dictionary_0));
                        assert(decreases_to!(*entries => entries@));
                        assert(decreases_to!(entries@ => entries@[i as int]));
                        assert(decreases_to!(entries@[i as int] => entries@[i as int].1));
                    }
                    let value = entries[i].1.to_bytes();
                    push_bytes(&mut out, value.as_slice());
                    i += 1;
                    assert(out@ =~= utf8("<<"@) + dictionary_body(values, i as nat));
                }
                push_text(&mut out, ">>");
            },
        }
        assert(out@ =~= pdf_bytes(self@));
        out
    }

    /// Appends the object in PDF syntax. Every object can be written.
    pub fn serialize(&self, out: &mut Vec<u8>) -> (written: Result<(), PdfWriteError>)
        ensures
            written is Ok,
            final(out)@ == old(out)@ + pdf_bytes(self@),
    {
        let bytes = self.to_bytes();
        push_bytes(out, bytes.as_slice());
        Ok(())
    }
}

} // verus!
