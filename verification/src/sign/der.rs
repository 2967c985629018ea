//! The few DER encodings that are written here: a tag, a length, a content.

use crate::bytes::push_bytes;
use crate::number::{capacity, number_in};
use vstd::prelude::*;

verus! {

/// A number in base 256, the highest digit first.
pub open spec fn big_endian(n: nat) -> Seq<u8>
    decreases n,
{
    if n < 256 {
        seq![n as u8]
    } else {
        big_endian(n / 256).push((n % 256) as u8)
    }
}

/// A length: one byte below 128, and otherwise a count of bytes and the bytes.
pub open spec fn length_bytes(n: nat) -> Seq<u8> {
    if n < 128 {
        seq![n as u8]
    } else {
        seq![(128 + big_endian(n).len()) as u8] + big_endian(n)
    }
}

/// A tag, the length of a content, and the content.
pub open spec fn tlv(tag: u8, content: Seq<u8>) -> Seq<u8> {
    seq![tag] + length_bytes(content.len()) + content
}

/// The tag of an octet string.
pub const OCTET_STRING: u8 = 0x04;

/// The tag of a sequence.
pub const SEQUENCE: u8 = 0x30;

/// The tag of a set.
pub const SET: u8 = 0x31;

/// The tag of a field that is marked 4.
pub const FIELD_FOUR: u8 = 0xA4;

fn base_256(n: u64) -> (out: Vec<u8>)
    ensures
        out@ == big_endian(n as nat),
        out@.len() <= 8,
        n < 0x100 ==> out@.len() <= 1,
        n < 0x1_0000 ==> out@.len() <= 2,
        n < 0x100_0000 ==> out@.len() <= 3,
        n < 0x1_0000_0000 ==> out@.len() <= 4,
        n < 0x100_0000_0000 ==> out@.len() <= 5,
        n < 0x1_0000_0000_0000 ==> out@.len() <= 6,
        n < 0x100_0000_0000_0000 ==> out@.len() <= 7,
    decreases n,
{
    if n < 256 {
        let mut out: Vec<u8> = Vec::new();
        out.push(n as u8);
        assert(out@ =~= big_endian(n as nat));
        out
    } else {
        let mut out = base_256(n / 256);
        out.push((n % 256) as u8);
        out
    }
}

/// Encodes a content under a tag.
pub fn encode(tag: u8, content: &[u8]) -> (out: Vec<u8>)
    ensures
        out@ == tlv(tag, content@),
{
    let mut out: Vec<u8> = Vec::new();
    out.push(tag);
    let length: u64 = content.len() as u64;
    if length < 128 {
        out.push(length as u8);
    } else {
        let digits = base_256(length);
        out.push(128 + digits.len() as u8);
        push_bytes(&mut out, digits.as_slice());
    }
    push_bytes(&mut out, content);
    assert(out@ =~= tlv(tag, content@));
    out
}

/// The bytes of a number stand for it, and no byte is spent on a zero before it.
pub proof fn law_a_number_is_read_from_its_bytes(n: nat)
    ensures
        number_in(big_endian(n), 0, big_endian(n).len()) == n,
        big_endian(n).len() > 1 ==> big_endian(n)[0] != 0,
    decreases n,
{
    let bytes = big_endian(n);
    reveal_with_fuel(number_in, 2);
    if n >= 256 {
        let high = big_endian(n / 256);
        law_a_number_is_read_from_its_bytes(n / 256);
        lemma_same_number(bytes, high, high.len());
        assert(bytes[0] == high[0]);
        if n / 256 < 256 {
            assert(high[0] == n / 256);
        } else {
            assert(high.len() > 1);
        }
    }
}

proof fn lemma_same_number(a: Seq<u8>, b: Seq<u8>, width: nat)
    requires
        width <= a.len(),
        width <= b.len(),
        forall|i: int| 0 <= i < width ==> #[trigger] a[i] == b[i],
    ensures
        number_in(a, 0, width) == number_in(b, 0, width),
    decreases width,
{
    if width > 0 {
        lemma_same_number(a, b, (width - 1) as nat);
        assert(a[width - 1] == b[width - 1]);
    }
}

pub proof fn lemma_few_bytes(n: nat, most: nat)
    requires
        n < capacity(most),
        most > 0,
    ensures
        big_endian(n).len() <= most,
    decreases n,
{
    if n >= 256 {
        reveal_with_fuel(capacity, 2);
        lemma_few_bytes(n / 256, (most - 1) as nat);
    }
}

/// How many bytes the length takes that encoded bytes say, and how long the
/// content is by it.
pub open spec fn told_length(bytes: Seq<u8>) -> (nat, nat) {
    if bytes[0] < 128 {
        (1, bytes[0] as nat)
    } else {
        let count = (bytes[0] - 128) as nat;
        (1 + count, number_in(bytes, 1, count))
    }
}

/// A value in DER tells its tag, and how long its content is, which is all that
/// follows.
pub proof fn law_a_value_tells_its_length(tag: u8, content: Seq<u8>)
    requires
        content.len() <= u64::MAX,
    ensures
        ({
            let value = tlv(tag, content);
            let (header, length) = told_length(value.drop_first());
            &&& value[0] == tag
            &&& length == content.len()
            &&& value.len() == 1 + header + length
            &&& value.skip(1 + header as int) == content
        }),
{
    let n = content.len();
    let value = tlv(tag, content);
    let rest = value.drop_first();
    let length = length_bytes(n);
    assert forall|i: int| 0 <= i < length.len() implies #[trigger] rest[i] == length[i] by {}
    if n >= 128 {
        let digits = big_endian(n);
        law_a_number_is_read_from_its_bytes(n);
        reveal_with_fuel(capacity, 9);
        lemma_few_bytes(n, 8);
        assert(length[0] == 128 + digits.len());
        assert forall|i: int| 0 <= i < digits.len() implies #[trigger] rest[1 + i] == digits[i] by {
            assert(rest[1 + i] == length[1 + i]);
        }
        lemma_number_moved(rest, digits, digits.len());
    }
    assert(value.skip(1 + length.len() as int) =~= content);
}

proof fn lemma_number_moved(bytes: Seq<u8>, digits: Seq<u8>, width: nat)
    requires
        width <= digits.len(),
        forall|i: int| 0 <= i < width ==> #[trigger] bytes[1 + i] == digits[i],
    ensures
        number_in(bytes, 1, width) == number_in(digits, 0, width),
    decreases width,
{
    if width > 0 {
        lemma_number_moved(bytes, digits, (width - 1) as nat);
        assert(bytes[1 + (width - 1)] == digits[width - 1]);
    }
}

} // verus!
