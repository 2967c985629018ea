//! Text that was written is read back.

use crate::bytes::{hex, lemma_hex_len, utf8};
use crate::pdfread::value::{hex_digit_values, paired};
use crate::pdftext::{
    is_high, is_low, text_string, token_text, unescaped_from, unhexed, unit_at, utf16be_text,
};
use crate::pdfwrite::laws::{law_hexadecimal_reads_back, lemma_hex_values};
use crate::pdfwrite::object::{
    escaped, hex_string_bytes, is_ascii_bytes, pdf_bytes, utf16, utf16_of, PdfValue,
};
use crate::pdfwrite::readback::scalars::{lemma_ascii_text, lemma_marked_text, unit_bytes};
use crate::text::lemma_char_code;
use vstd::prelude::*;
use vstd::utf8::{encode_utf8_decode_utf8, encode_utf8_valid_utf8, is_ascii_chars_encode_utf8};

verus! {

proof fn lemma_unit_bytes(a: Seq<u16>, b: Seq<u16>)
    ensures
        unit_bytes(a + b) == unit_bytes(a) + unit_bytes(b),
    decreases b.len(),
{
    if b.len() == 0 {
        assert(a + b =~= a);
        assert(unit_bytes(a) + unit_bytes(b) =~= unit_bytes(a));
    } else {
        assert((a + b).drop_last() =~= a + b.drop_last());
        lemma_unit_bytes(a, b.drop_last());
        assert(unit_bytes(a + b) =~= unit_bytes(a) + unit_bytes(b));
    }
}

/// The bytes of one character in UTF-16.
proof fn lemma_char_bytes(c: char)
    ensures
        ({
            let bytes = unit_bytes(utf16_of(c));
            if (c as int) < 0x10000 {
                &&& bytes.len() == 2
                &&& bytes[0] * 256 + bytes[1] == c as int
            } else {
                &&& bytes.len() == 4
                &&& bytes[0] * 256 + bytes[1] == 0xD800 + (c as int - 0x10000) / 0x400
                &&& bytes[2] * 256 + bytes[3] == 0xDC00 + (c as int - 0x10000) % 0x400
            }
        }),
{
    let units = utf16_of(c);
    reveal_with_fuel(unit_bytes, 3);
    if units.len() == 1 {
        assert(units.drop_last() =~= Seq::empty());
    } else {
        assert(units.drop_last() =~= seq![units[0]]);
        assert(seq![units[0]].drop_last() =~= Seq::empty());
        assert(units.last() == units[1]);
    }
}

/// Text in UTF-16 is read from where it stands.
proof fn lemma_utf16_text(data: Seq<u8>, at: int, text: Seq<char>)
    requires
        0 <= at,
        at + unit_bytes(utf16(text)).len() <= data.len(),
        data.subrange(at, at + unit_bytes(utf16(text)).len()) == unit_bytes(utf16(text)),
    ensures
        utf16be_text(data, at) == text + utf16be_text(data, at + unit_bytes(utf16(text)).len()),
    decreases text.len(),
{
    if text.len() == 0 {
        assert(text + utf16be_text(data, at) =~= utf16be_text(data, at));
    } else {
        let before = text.drop_last();
        let c = text.last();
        let whole = unit_bytes(utf16(text));
        let first = unit_bytes(utf16(before));
        let last = unit_bytes(utf16_of(c));
        lemma_unit_bytes(utf16(before), utf16_of(c));
        assert(whole == first + last);
        let here = (at + first.len()) as int;
        let end = (at + whole.len()) as int;
        assert(data.subrange(at, here) =~= first) by {
            assert forall|i: int| 0 <= i < first.len() implies data[at + i] == first[i] by {
                assert(data.subrange(at, end)[i] == whole[i]);
            }
        }
        assert forall|i: int| 0 <= i < last.len() implies data[here + i] == #[trigger] last[i] by {
            assert(data.subrange(at, end)[first.len() + i] == whole[first.len() + i]);
        }
        lemma_utf16_text(data, at, before);
        lemma_char_bytes(c);
        assert(data[here + 0] == last[0]);
        assert(data[here + 1] == last[1]);
        if last.len() == 4 {
            assert(data[here + 2] == last[2]);
            assert(data[here + 3] == last[3]);
        }
        lemma_char_code(c);
        let unit = unit_at(data, here);
        if last.len() == 4 {
            let code = c as int - 0x10000;
            assert(unit == 0xD800 + code / 0x400);
            assert(unit_at(data, here + 2) == 0xDC00 + code % 0x400);
            assert(0 <= code < 0x100000);
            assert(is_high(unit) && is_low(unit_at(data, here + 2)));
            assert(0x10000 + (unit - 0xD800) * 0x400 + (unit_at(data, here + 2) - 0xDC00)
                == c as int);
            assert((c as int) as char == c);
        } else {
            assert(unit == c as int);
            assert(!is_high(unit) && !is_low(unit));
            assert(unit as char == c);
        }
        assert(utf16be_text(data, here) == seq![c] + utf16be_text(data, end));
        assert(before + (seq![c] + utf16be_text(data, end)) =~= text + utf16be_text(data, end));
    }
}

/// The body of a literal string is read from where it stands.
proof fn lemma_unescaped_from(body: Seq<u8>, at: int, bytes: Seq<u8>)
    requires
        0 <= at,
        at + escaped(bytes).len() <= body.len(),
        body.subrange(at, at + escaped(bytes).len()) == escaped(bytes),
    ensures
        unescaped_from(body, at) == bytes + unescaped_from(body, at + escaped(bytes).len()),
    decreases bytes.len(),
{
    if bytes.len() == 0 {
        assert(bytes + unescaped_from(body, at) =~= unescaped_from(body, at));
    } else {
        let before = bytes.drop_last();
        let c = bytes.last();
        let whole = escaped(bytes);
        let first = escaped(before);
        let here = (at + first.len()) as int;
        let end = (at + whole.len()) as int;
        assert(body.subrange(at, here) =~= first) by {
            assert forall|i: int| 0 <= i < first.len() implies body[at + i] == first[i] by {
                assert(body.subrange(at, end)[i] == whole[i]);
            }
        }
        lemma_unescaped_from(body, at, before);
        assert(body[here] == whole[first.len() as int]) by {
            assert(body.subrange(at, end)[first.len() as int] == whole[first.len() as int]);
        }
        if c == 40 || c == 41 || c == 92 {
            assert(body[here + 1] == whole[first.len() as int + 1]) by {
                assert(body.subrange(at, end)[first.len() as int + 1] == whole[first.len() as int
                    + 1]);
            }
        }
        assert(unescaped_from(body, here) == seq![c] + unescaped_from(body, end));
        assert(before + (seq![c] + unescaped_from(body, end)) =~= bytes + unescaped_from(
            body,
            end,
        ));
    }
}

/// A character of ASCII that a text string keeps: a reader takes the control
/// characters from U+0018 to U+001F, and U+007F, for others.
pub open spec fn is_kept(c: char) -> bool {
    (c as u32) < 0x18 || 0x20 <= c as u32 <= 0x7E
}

/// Text that was written as a string is read back, whatever characters it has.
/// In a text that is all ASCII, the few control characters that PDF gives to
/// accents are left out.
pub proof fn law_text_is_read_back(text: Seq<char>)
    requires
        is_ascii_bytes(utf8(text)) ==> forall|i: int|
            0 <= i < text.len() ==> is_kept(#[trigger] text[i]),
    ensures
        token_text(pdf_bytes(PdfValue::String(utf8(text)))) == Some(text),
{
    let bytes = utf8(text);
    let token = pdf_bytes(PdfValue::String(bytes));
    encode_utf8_decode_utf8(text);
    encode_utf8_valid_utf8(text);
    if is_ascii_bytes(bytes) {
        reveal_strlit("(");
        reveal_strlit(")");
        is_ascii_chars_encode_utf8("("@);
        is_ascii_chars_encode_utf8(")"@);
        assert(utf8("("@) =~= seq![40u8]);
        assert(utf8(")"@) =~= seq![41u8]);
        let body = escaped(bytes);
        assert(token.subrange(1, token.len() - 1) =~= body);
        assert(body.subrange(0, body.len() as int) =~= body);
        lemma_unescaped_from(body, 0, bytes);
        assert(unescaped_from(body, body.len() as int) =~= Seq::empty());
        assert(bytes + Seq::<u8>::empty() =~= bytes);
        lemma_ascii_text(bytes);
        assert(text_string(bytes) =~= text) by {
            assert forall|i: int| 0 <= i < text.len() implies text_string(bytes)[i] == text[i] by {
                assert(is_kept(text[i]));
                assert(text[i] == bytes[i] as char);
            }
        }
    } else {
        let units = utf16(text);
        let marked = seq![0xFEu8, 0xFFu8] + unit_bytes(units);
        lemma_marked_text(units);
        reveal_strlit("<");
        reveal_strlit(">");
        is_ascii_chars_encode_utf8("<"@);
        is_ascii_chars_encode_utf8(">"@);
        assert(utf8("<"@) =~= seq![60u8]);
        assert(utf8(">"@) =~= seq![62u8]);
        let body = hex(marked);
        assert(token == hex_string_bytes(marked));
        assert(token.subrange(1, token.len() - 1) =~= body);
        lemma_hex_len(marked);
        lemma_hex_values(marked);
        law_hexadecimal_reads_back(marked);
        assert(hex_digit_values(body).len() == 2 * marked.len());
        assert(unhexed(hex_digit_values(body)) =~= paired(hex_digit_values(body)));
        lemma_first_digit(marked);
        assert(marked.skip(2) =~= unit_bytes(units));
        let data = unit_bytes(units);
        assert(data.subrange(0, data.len() as int) =~= data);
        lemma_utf16_text(data, 0, text);
        assert(utf16be_text(data, data.len() as int) =~= Seq::empty());
        assert(text + Seq::<char>::empty() =~= text);
    }
}

/// Hexadecimal starts with no bracket.
proof fn lemma_first_digit(bytes: Seq<u8>)
    ensures
        hex(bytes).len() > 0 ==> hex(bytes)[0] != 60,
    decreases bytes.len(),
{
    if bytes.len() > 0 {
        lemma_first_digit(bytes.drop_last());
        if bytes.len() > 1 {
            lemma_hex_len(bytes.drop_last());
            assert(hex(bytes)[0] == hex(bytes.drop_last())[0]);
        } else {
            assert(hex(bytes.drop_last()) =~= Seq::empty());
        }
    }
}

} // verus!
