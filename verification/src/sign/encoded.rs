//! What is written in DER is found where it was written.

use crate::bytes::occurs_at;
use crate::number::{capacity, lemma_number_in, number_in};
use crate::sign::cms_builder::{
    algorithm_identifier, oid_encoding, signing_certificate_value,
};
use crate::sign::credential::CertificateFacts;
use crate::sign::der::{
    big_endian, law_a_number_is_read_from_its_bytes, lemma_few_bytes, length_bytes, tlv,
};
use crate::sign::digest::sha256_of;
use crate::sign::sealed::{
    element_at, salt_and_rounds, scheme_in, scheme_oid, sealed_at, signed_in, Scheme, Sealed,
};
use vstd::prelude::*;

verus! {

proof fn lemma_number_at(data: Seq<u8>, at: int, digits: Seq<u8>, width: nat)
    requires
        width <= digits.len(),
        forall|i: int| 0 <= i < width ==> #[trigger] data[at + i] == digits[i],
    ensures
        number_in(data, at, width) == number_in(digits, 0, width),
    decreases width,
{
    if width > 0 {
        lemma_number_at(data, at, digits, (width - 1) as nat);
        assert(data[at + (width - 1)] == digits[width - 1]);
    }
}

/// A value in DER is found where it stands among other bytes: its content is
/// what it was made of, and it ends where the value does.
pub proof fn law_an_element_is_found(before: Seq<u8>, tag: u8, content: Seq<u8>, after: Seq<u8>)
    requires
        content.len() <= u32::MAX,
    ensures
        ({
            let data = before + tlv(tag, content) + after;
            element_at(data, before.len() as int, tag) matches Some((from, to))
                && data.subrange(from, to) == content && to == before.len() + tlv(
                tag,
                content,
            ).len()
        }),
{
    let n = content.len();
    let value = tlv(tag, content);
    let data = before + value + after;
    let at = before.len() as int;
    let length = length_bytes(n);
    assert(value.len() == 1 + length.len() + n);
    assert(data[at] == tag);
    assert forall|i: int| 0 <= i < length.len() implies #[trigger] data[at + 1 + i] == length[i] by {
        assert(data[at + 1 + i] == value[1 + i]);
    }
    assert(data[at + 1 + 0] == length[0]);
    let from = at + 1 + length.len();
    if n >= 128 {
        let digits = big_endian(n);
        law_a_number_is_read_from_its_bytes(n);
        reveal_with_fuel(capacity, 5);
        lemma_few_bytes(n, 4);
        assert(digits.len() >= 1);
        assert forall|i: int| 0 <= i < digits.len() implies #[trigger] data[at + 2 + i]
            == digits[i] by {
            assert(data[at + 1 + (1 + i)] == length[1 + i]);
        }
        lemma_number_at(data, at + 2, digits, digits.len());
    }
    assert(data.subrange(from as int, from + n) =~= content);
}

/// Bytes stand for a number between the lowest and the highest that they can
/// hold with a sign, and one that is the same up to the numbers they can hold
/// without.
pub proof fn law_the_highest_bit_is_the_sign(data: Seq<u8>, at: int, width: nat)
    requires
        0 < width <= 8,
    ensures
        -capacity(width) <= 2 * signed_in(data, at, width) < capacity(width),
        signed_in(data, at, width) == number_in(data, at, width) || signed_in(data, at, width)
            + capacity(width) == number_in(data, at, width),
{
    lemma_number_in(data, at, width);
    lemma_highest_byte(data, at, width);
}

proof fn lemma_highest_byte(data: Seq<u8>, at: int, width: nat)
    requires
        0 < width <= 8,
    ensures
        data[at] * capacity((width - 1) as nat) <= number_in(data, at, width) < (data[at] + 1)
            * capacity((width - 1) as nat),
        capacity(width) == 256 * capacity((width - 1) as nat),
        data[at] >= 128 ==> 2 * number_in(data, at, width) >= capacity(width),
        data[at] < 128 ==> 2 * number_in(data, at, width) < capacity(width),
    decreases width,
{
    reveal_with_fuel(number_in, 2);
    reveal_with_fuel(capacity, 2);
    let first = data[at] as int;
    if width > 1 {
        lemma_highest_byte(data, at, (width - 1) as nat);
        let small = capacity((width - 2) as nat) as int;
        let before = number_in(data, at, (width - 1) as nat) as int;
        let last = data[at + width - 1] as int;
        assert(capacity((width - 1) as nat) == 256 * small);
        assert(number_in(data, at, width) == before * 256 + last);
        assert(first * (256 * small) == 256 * (first * small)) by (nonlinear_arith);
        assert((first + 1) * (256 * small) == 256 * ((first + 1) * small)) by (nonlinear_arith);
    } else {
        assert(capacity(0) == 1);
        assert(number_in(data, at, 0) == 0);
        assert(number_in(data, at, width) == first);
        assert(first * 1 == first && (first + 1) * 1 == first + 1);
    }
    let high = capacity((width - 1) as nat) as int;
    if data[at] >= 128 {
        assert(first * high >= 128 * high) by (nonlinear_arith)
            requires
                first >= 128,
                high >= 0,
        ;
    } else {
        assert((first + 1) * high <= 128 * high) by (nonlinear_arith)
            requires
                first < 128,
                high >= 0,
        ;
    }
}

/// The salt and the rounds of a derivation are those that its parameters were
/// made of.
pub proof fn law_a_salt_and_rounds_are_read_back(salt: Seq<u8>, rounds: Seq<u8>)
    requires
        salt.len() <= 0x7FFF_FFFF,
        0 < rounds.len() <= 4,
    ensures
        salt_and_rounds(tlv(0x30, tlv(4, salt) + tlv(2, rounds))) == Some(
            (salt, signed_in(rounds, 0, rounds.len())),
        ),
{
    let none = Seq::<u8>::empty();
    let inner = tlv(4, salt) + tlv(2, rounds);
    let data = tlv(0x30, inner);
    law_a_number_is_read_from_its_bytes(salt.len());
    reveal_with_fuel(capacity, 5);
    lemma_few_bytes(salt.len(), 4);
    assert(inner.len() <= u32::MAX);
    law_an_element_is_found(none, 0x30, inner, none);
    assert(none + data + none =~= data);
    let (from, to) = element_at(data, 0, 0x30).unwrap();
    let head = data.take(from);
    assert(data.subrange(from, to) == inner);
    assert(to == data.len());
    assert(data =~= head + tlv(4, salt) + tlv(2, rounds)) by {
        assert(data =~= head + data.subrange(from, to));
    }
    law_an_element_is_found(head, 4, salt, tlv(2, rounds));
    let (first, end) = element_at(data, from, 4).unwrap();
    let start = head + tlv(4, salt);
    assert(data =~= start + tlv(2, rounds) + none);
    law_an_element_is_found(start, 2, rounds, none);
    let (number, over) = element_at(data, end, 2).unwrap();
    assert(data.subrange(number, over) == rounds);
    assert(over - number == rounds.len());
    assert forall|i: int| 0 <= i < rounds.len() implies #[trigger] data[number + i] == rounds[i] by {
        assert(data.subrange(number, over)[i] == rounds[i]);
    }
    lemma_number_at(data, number, rounds, rounds.len());
    assert(data[number + 0] == rounds[0]);
}

/// A sealed part is found where it stands in a container, with the scheme, the
/// parameters and the content that it was made of.
pub proof fn law_a_sealed_part_is_found(
    before: Seq<u8>,
    scheme: Scheme,
    parameters: Seq<u8>,
    content: Seq<u8>,
    after: Seq<u8>,
)
    requires
        parameters.len() <= 0x7FFF_FFFF,
        content.len() <= u32::MAX,
    ensures
        sealed_at(
            before + tlv(0x30, scheme_oid(scheme) + parameters) + tlv(0x80, content) + after,
            before.len() as int,
        ) == Some(Sealed { scheme, parameters, content }),
{
    let oid = scheme_oid(scheme);
    let identifier = oid + parameters;
    let head = tlv(0x30, identifier);
    let tail = tlv(0x80, content) + after;
    let data = before + head + tlv(0x80, content) + after;
    assert(data =~= before + head + tail);
    law_an_element_is_found(before, 0x30, identifier, tail);
    law_an_element_is_found(before + head, 0x80, content, after);
    let (from, to) = element_at(data, before.len() as int, 0x30).unwrap();
    assert(to == (before + head).len());
    lemma_scheme(scheme, parameters);
}

proof fn lemma_scheme(scheme: Scheme, parameters: Seq<u8>)
    ensures
        scheme_in(scheme_oid(scheme) + parameters) == Some((scheme, parameters)),
{
    let oid = scheme_oid(scheme);
    let identifier = oid + parameters;
    assert(identifier.subrange(0, oid.len() as int) =~= oid);
    assert(occurs_at(identifier, oid, 0));
    assert(identifier[1] == oid[1]);
    assert(identifier.skip(oid.len() as int) =~= parameters);
    if scheme != Scheme::Pbes2 {
        assert(identifier[11] == oid[11]);
        if occurs_at(identifier, scheme_oid(Scheme::Pbes2), 0) {
            assert(identifier.subrange(0, 11)[1] == identifier[1]);
            assert(scheme_oid(Scheme::Pbes2)[1] == 9);
        }
        if scheme == Scheme::Rc2 && occurs_at(identifier, scheme_oid(Scheme::TripleDes), 0) {
            assert(identifier.subrange(0, 12)[11] == identifier[11]);
            assert(scheme_oid(Scheme::TripleDes)[11] == 3);
        }
    }
}

/// The content of the DER element at `at`.
pub open spec fn content_at(data: Seq<u8>, at: int, tag: u8) -> Option<Seq<u8>> {
    match element_at(data, at, tag) {
        Some((from, to)) => Some(data.subrange(from, to)),
        None => None,
    }
}

/// The attribute that names the certificate of the signer holds, inside three
/// sequences, the SHA-256 digest of the certificate, and behind it, as a
/// directory name, its issuer, with its serial number at the end.
pub proof fn law_the_certificate_is_named(signer: CertificateFacts)
    requires
        signer.issuer.len() <= 0x00FF_FFFF,
        signer.serial.len() <= 0x00FF_FFFF,
        sha256_of(signer.der).len() == 32,
    ensures
        ({
            let value = signing_certificate_value(signer);
            &&& content_at(value, 0, 0x30) matches Some(outer)
            &&& content_at(outer, 0, 0x30) matches Some(middle)
            &&& content_at(middle, 0, 0x30) matches Some(inner)
            &&& content_at(inner, 0, 4) == Some(sha256_of(signer.der))
            &&& content_at(inner, 34, 0x30) matches Some(issuer_serial)
            &&& content_at(issuer_serial, 0, 0x30) matches Some(names)
            &&& content_at(names, 0, 0xA4) == Some(signer.issuer)
            &&& issuer_serial == tlv(0x30, names) + signer.serial
        }),
{
    let none = Seq::<u8>::empty();
    let hash = sha256_of(signer.der);
    let names = tlv(0xA4, signer.issuer);
    let issuer_serial = tlv(0x30, names) + signer.serial;
    let digest = tlv(4, hash);
    let inner = digest + tlv(0x30, issuer_serial);
    let middle = tlv(0x30, inner);
    let outer = tlv(0x30, middle);
    let value = tlv(0x30, outer);
    lemma_little_more(signer.issuer);
    lemma_little_more(names);
    lemma_little_more(issuer_serial);
    lemma_little_more(inner);
    lemma_little_more(middle);
    lemma_little_more(outer);
    assert(digest.len() == 34);
    lemma_content(none, 0xA4, signer.issuer, none, names);
    lemma_content(none, 0x30, names, signer.serial, issuer_serial);
    lemma_content(none, 4, hash, tlv(0x30, issuer_serial), inner);
    lemma_content(digest, 0x30, issuer_serial, none, inner);
    lemma_content(none, 0x30, inner, none, middle);
    lemma_content(none, 0x30, middle, none, outer);
    lemma_content(none, 0x30, outer, none, value);
}

proof fn lemma_little_more(content: Seq<u8>)
    requires
        content.len() <= u32::MAX,
    ensures
        forall|tag: u8| #[trigger] tlv(tag, content).len() <= content.len() + 6,
{
    reveal_with_fuel(capacity, 5);
    lemma_few_bytes(content.len(), 4);
}

proof fn lemma_content(
    before: Seq<u8>,
    tag: u8,
    content: Seq<u8>,
    after: Seq<u8>,
    data: Seq<u8>,
)
    requires
        content.len() <= u32::MAX,
        data =~= before + tlv(tag, content) + after,
    ensures
        content_at(data, before.len() as int, tag) == Some(content),
{
    law_an_element_is_found(before, tag, content, after);
}

/// An algorithm is named by its identifier, and behind that stands a null exactly
/// where one is asked for.
pub proof fn law_an_algorithm_is_named(oid: Seq<char>, null: bool)
    requires
        algorithm_identifier(oid, null) is Ok,
        oid_encoding(oid)->Ok_0.len() <= 0x00FF_FFFF,
    ensures
        content_at(algorithm_identifier(oid, null)->Ok_0, 0, 0x30) == Some(
            if null {
                oid_encoding(oid)->Ok_0.push(5).push(0)
            } else {
                oid_encoding(oid)->Ok_0
            },
        ),
{
    let name = oid_encoding(oid)->Ok_0;
    let content = if null {
        name.push(5).push(0)
    } else {
        name
    };
    assert(name + seq![5u8, 0u8] =~= name.push(5).push(0));
    let none = Seq::<u8>::empty();
    lemma_content(none, 0x30, content, none, tlv(0x30, content));
}

} // verus!
