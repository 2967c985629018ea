//! What holds of every update.

use crate::bytes::{decimal, hex, hex_digit, occurs_at, utf8};
use crate::number::{all_digits, digits_value, is_digit};
use crate::pdfread::value::{hex_digit_value, hex_digit_values, paired};
use crate::pdfread::xref::{chain_at, highest_in_chain, Section, MAX_SECTIONS};
use crate::pdfwrite::writer::{
    append_outcome, digits_end, first_free, last_occurrence, object_bytes, object_header,
    objects_bytes, places_of, skip_blank, startxref_of, Numbered, Opened, STARTXREF_SEARCH_WINDOW,
};
use vstd::prelude::*;
use vstd::utf8::is_ascii_chars_encode_utf8;

verus! {

/// An update leaves every byte of the file it extends where it was.
pub proof fn law_update_keeps_the_file(
    file: Opened,
    start: nat,
    objects: Seq<Numbered>,
    second: Seq<u8>,
)
    ensures
        append_outcome(file, start, objects, second) matches Ok((bytes, _)) ==> {
            &&& file.original.len() <= bytes.len()
            &&& bytes.take(file.original.len() as int) == file.original
        },
{
    if let Ok((bytes, _)) = append_outcome(file, start, objects, second) {
        assert(bytes.take(file.original.len() as int) =~= file.original);
    }
}

/// Writing more objects leaves what was written before.
pub proof fn lemma_objects_grow(objects: Seq<Numbered>, i: nat, n: nat)
    requires
        i <= n <= objects.len(),
    ensures
        objects_bytes(objects, i).len() <= objects_bytes(objects, n).len(),
        objects_bytes(objects, n).take(objects_bytes(objects, i).len() as int) == objects_bytes(
            objects,
            i,
        ),
    decreases n - i,
{
    if i < n {
        lemma_objects_grow(objects, i, (n - 1) as nat);
        let shorter = objects_bytes(objects, (n - 1) as nat);
        let len = objects_bytes(objects, i).len() as int;
        assert(objects_bytes(objects, n).take(len) =~= shorter.take(len));
    } else {
        assert(objects_bytes(objects, n).take(objects_bytes(objects, n).len() as int)
            =~= objects_bytes(objects, n));
    }
}

/// Where each object stands.
pub proof fn lemma_places(objects: Seq<Numbered>, start: nat, n: nat, i: int)
    requires
        0 <= i < n <= objects.len(),
    ensures
        places_of(objects, start, n).len() == n,
        places_of(objects, start, n)[i] == (
            objects[i].0,
            objects[i].1,
            (start + objects_bytes(objects, i as nat).len()) as u64,
        ),
    decreases n,
{
    if i < n - 1 {
        lemma_places(objects, start, (n - 1) as nat, i);
    } else if n > 1 {
        lemma_places(objects, start, (n - 1) as nat, 0);
    } else {
        assert(places_of(objects, start, 0).len() == 0);
    }
}

/// Each place that an update reports is the place of that object: the line
/// with its number and generation starts there.
pub proof fn law_places_point_at_their_objects(
    file: Opened,
    objects: Seq<Numbered>,
    second: Seq<u8>,
    i: int,
)
    requires
        0 <= i < objects.len(),
        file.original.len() + objects_bytes(objects, objects.len()).len() <= u64::MAX,
    ensures
        append_outcome(file, 0, objects, second) matches Ok((bytes, places)) ==> {
            &&& places.len() == objects.len()
            &&& places[i].0 == objects[i].0
            &&& places[i].1 == objects[i].1
            &&& occurs_at(bytes, object_header(objects[i].0, objects[i].1), places[i].2 as int)
        },
{
    if let Ok((bytes, places)) = append_outcome(file, 0, objects, second) {
        let n = objects.len();
        let original = file.original;
        lemma_places(objects, original.len(), n, i);
        lemma_objects_grow(objects, i as nat, n);
        lemma_objects_grow(objects, (i + 1) as nat, n);
        let at = original.len() + objects_bytes(objects, i as nat).len();
        let header = object_header(objects[i].0, objects[i].1);
        let body = original + objects_bytes(objects, n);
        let upto = objects_bytes(objects, (i + 1) as nat);
        assert(bytes.take(body.len() as int) =~= body);
        assert(bytes.subrange(at as int, (at + header.len()) as int) =~= header) by {
            assert forall|k: int| 0 <= k < header.len() implies bytes[at + k] == header[k] by {
                assert(bytes[at + k] == body[at + k]);
                assert(body[at + k] == objects_bytes(objects, n)[objects_bytes(
                    objects,
                    i as nat,
                ).len() + k]);
                assert(objects_bytes(objects, n).take(upto.len() as int)[objects_bytes(
                    objects,
                    i as nat,
                ).len() + k] == upto[objects_bytes(objects, i as nat).len() + k]);
                assert(upto[objects_bytes(objects, i as nat).len() + k] == object_bytes(
                    objects[i],
                )[k]);
            }
        }
    }
}

pub proof fn lemma_highest_in_chain(sections: Seq<Section>, i: int)
    requires
        0 <= i < sections.len(),
        sections[i].highest is Some,
    ensures
        highest_in_chain(sections) is Some,
        sections[i].highest->0 <= highest_in_chain(sections)->0,
    decreases sections.len(),
{
    if i < sections.len() - 1 {
        lemma_highest_in_chain(sections.drop_last(), i);
    }
}

/// The object number that an update starts from is past every number that the
/// cross-reference chain of the file speaks of.
pub proof fn law_first_free_is_past_the_chain(
    bytes: Seq<u8>,
    startxref: nat,
    size: nat,
    sections: Seq<Section>,
    i: int,
)
    requires
        chain_at(bytes, startxref, MAX_SECTIONS as nat) == Some(sections),
        0 <= i < sections.len(),
        sections[i].highest is Some,
        sections[i].highest->0 < u32::MAX,
    ensures
        first_free(bytes, startxref, size) > sections[i].highest->0,
        first_free(bytes, startxref, size) >= size,
{
    lemma_highest_in_chain(sections, i);
}

proof fn lemma_digit(n: int)
    requires
        0 <= n < 16,
    ensures
        hex_digit_value(hex_digit(n)) == Some(n as nat),
{
}

proof fn lemma_values_push(bytes: Seq<u8>, digit: u8)
    ensures
        hex_digit_values(bytes.push(digit)) == match hex_digit_value(digit) {
            Some(value) => hex_digit_values(bytes).push(value),
            None => hex_digit_values(bytes),
        },
{
    assert(bytes.push(digit).drop_last() =~= bytes);
}

/// The values of the digits that bytes are written in.
pub proof fn lemma_hex_values(bytes: Seq<u8>)
    ensures
        hex_digit_values(hex(bytes)).len() == 2 * bytes.len(),
        forall|i: int|
            0 <= i < bytes.len() ==> {
                &&& hex_digit_values(hex(bytes))[2 * i] == (#[trigger] bytes[i]) as nat / 16
                &&& hex_digit_values(hex(bytes))[2 * i + 1] == bytes[i] as nat % 16
            },
    decreases bytes.len(),
{
    if bytes.len() > 0 {
        let before = bytes.drop_last();
        let last = bytes.last();
        lemma_hex_values(before);
        lemma_digit(last as int / 16);
        lemma_digit(last as int % 16);
        let high = hex_digit(last as int / 16);
        let low = hex_digit(last as int % 16);
        assert(hex(bytes) =~= hex(before).push(high).push(low));
        lemma_values_push(hex(before), high);
        lemma_values_push(hex(before).push(high), low);
        assert forall|i: int| 0 <= i < bytes.len() implies {
            &&& hex_digit_values(hex(bytes))[2 * i] == (#[trigger] bytes[i]) as nat / 16
            &&& hex_digit_values(hex(bytes))[2 * i + 1] == bytes[i] as nat % 16
        } by {
            if i < before.len() {
                assert(bytes[i] == before[i]);
            }
        }
    } else {
        assert(hex(bytes) =~= Seq::empty());
    }
}

/// Bytes that were written in hexadecimal are read back.
pub proof fn law_hexadecimal_reads_back(bytes: Seq<u8>)
    ensures
        paired(hex_digit_values(hex(bytes))) == bytes,
{
    lemma_hex_values(bytes);
    assert(paired(hex_digit_values(hex(bytes))) =~= bytes);
}

/// Decimal digits stand for the number they were made from.
pub proof fn law_decimal_reads_back(n: nat)
    ensures
        decimal(n).len() > 0,
        all_digits(decimal(n)),
        digits_value(decimal(n)) == n,
    decreases n,
{
    if n >= 10 {
        law_decimal_reads_back(n / 10);
        assert(decimal(n).drop_last() =~= decimal(n / 10));
        assert forall|i: int| 0 <= i < decimal(n).len() implies is_digit(
            #[trigger] decimal(n)[i],
        ) by {
            if i < decimal(n).len() - 1 {
                assert(decimal(n)[i] == decimal(n / 10)[i]);
            }
        }
    } else {
        assert(decimal(n).drop_last() =~= Seq::empty());
        assert(digits_value(Seq::<u8>::empty()) == 0);
    }
}

/// A number below a power of ten has no more digits than that has zeros.
pub proof fn lemma_decimal_len(n: nat, digits: nat, bound: nat)
    requires
        n < bound,
        digits >= 1,
        bound <= pow10(digits),
    ensures
        decimal(n).len() <= digits,
    decreases n,
{
    if n >= 10 {
        if digits == 1 {
            assert(pow10(1) == 10) by {
                reveal_with_fuel(pow10, 2);
            }
        } else {
            assert(pow10(digits) == 10 * pow10((digits - 1) as nat));
            lemma_decimal_len(n / 10, (digits - 1) as nat, pow10((digits - 1) as nat));
        }
    }
}

/// A power of ten.
pub open spec fn pow10(n: nat) -> nat
    decreases n,
{
    if n == 0 {
        1
    } else {
        10 * pow10((n - 1) as nat)
    }
}

proof fn lemma_no_later_occurrence(haystack: Seq<u8>, needle: Seq<u8>, from: int, at: int, found: int)
    requires
        from <= found <= at,
        occurs_at(haystack, needle, found),
        forall|i: int| found < i <= at ==> !#[trigger] occurs_at(haystack, needle, i),
    ensures
        last_occurrence(haystack, needle, from, at) == Some(found),
    decreases at - found,
{
    if at > found {
        lemma_no_later_occurrence(haystack, needle, from, at - 1, found);
    }
}

proof fn lemma_digits_end(data: Seq<u8>, at: int, end: int)
    requires
        0 <= at <= end <= data.len(),
        forall|i: int| at <= i < end ==> is_digit(#[trigger] data[i]),
        end < data.len() ==> !is_digit(data[end]),
    ensures
        digits_end(data, at) == end,
    decreases end - at,
{
    if at < end {
        lemma_digits_end(data, at + 1, end);
    }
}

/// The end of an update names the place where its cross-reference data starts,
/// and that is what is read from it.
pub proof fn law_startxref_reads_back(before: Seq<u8>, xref_at: nat)
    requires
        xref_at <= u64::MAX,
    ensures
        startxref_of(
            before + utf8("startxref\n"@) + decimal(xref_at) + utf8("\n%%EOF\n"@),
        ) == Some(xref_at),
{
    let keyword = utf8("startxref"@);
    let bytes = before + utf8("startxref\n"@) + decimal(xref_at) + utf8("\n%%EOF\n"@);
    reveal_strlit("startxref");
    reveal_strlit("startxref\n");
    reveal_strlit("\n%%EOF\n");
    is_ascii_chars_encode_utf8("startxref"@);
    is_ascii_chars_encode_utf8("startxref\n"@);
    is_ascii_chars_encode_utf8("\n%%EOF\n"@);
    law_decimal_reads_back(xref_at);
    assert(xref_at < 0x1_0000_0000_0000_0000);
    assert(0x1_0000_0000_0000_0000 <= pow10(20)) by {
        reveal_with_fuel(pow10, 21);
    }
    lemma_decimal_len(xref_at, 20, 0x1_0000_0000_0000_0000);
    let digits = decimal(xref_at);
    let found = before.len() as int;
    assert(keyword.len() == 9);
    assert(keyword[0] == 115u8);
    assert(bytes.subrange(found, found + 9) =~= keyword);
    assert(occurs_at(bytes, keyword, found));
    assert forall|i: int| found < i <= bytes.len() implies !#[trigger] occurs_at(
        bytes,
        keyword,
        i,
    ) by {
        if occurs_at(bytes, keyword, i) {
            assert(bytes.subrange(i, i + keyword.len())[0] == keyword[0]);
            assert(bytes[i] == 115u8);
            if i < found + 10 {
                assert(bytes[i] == utf8("startxref\n"@)[i - found]);
            } else if i < found + 10 + digits.len() {
                assert(bytes[i] == digits[i - found - 10]);
                assert(is_digit(digits[i - found - 10]));
            } else {
                assert(bytes[i] == utf8("\n%%EOF\n"@)[i - found - 10 - digits.len()]);
            }
        }
    }
    let window_start = if bytes.len() > STARTXREF_SEARCH_WINDOW {
        bytes.len() - STARTXREF_SEARCH_WINDOW
    } else {
        0
    };
    lemma_no_later_occurrence(bytes, keyword, window_start, bytes.len() as int, found);
    let start = found + 10;
    assert(bytes[found + 9] == 10u8);
    assert(bytes[start] == digits[0]);
    assert(is_digit(digits[0]));
    assert(skip_blank(bytes, start) == start);
    assert(skip_blank(bytes, found + 9) == start);
    let end = start + digits.len();
    assert forall|i: int| start <= i < end implies is_digit(#[trigger] bytes[i]) by {
        assert(bytes[i] == digits[i - start]);
    }
    assert(bytes[end] == 10u8);
    lemma_digits_end(bytes, start, end);
    assert(bytes.subrange(start, end) =~= digits);
}

} // verus!
