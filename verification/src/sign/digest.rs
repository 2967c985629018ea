//! Message digests.

use crate::sign::mechanism::DigestAlgorithm;
use crate::text::digit_value;
use sha2::Digest;
use vstd::prelude::*;

verus! {

/// What SHA-256 of the `sha2` crate makes of a byte string.
pub uninterp spec fn sha256_of(bytes: Seq<u8>) -> Seq<u8>;

/// What SHA-384 of the `sha2` crate makes of a byte string.
pub uninterp spec fn sha384_of(bytes: Seq<u8>) -> Seq<u8>;

/// What SHA-512 of the `sha2` crate makes of a byte string.
pub uninterp spec fn sha512_of(bytes: Seq<u8>) -> Seq<u8>;

/// `sha2::Sha256`, fed two spans one after the other: the digest of both
/// together. It has 32 bytes.
#[verifier::external_body]
pub(crate) fn sha256_spans(first: &[u8], second: &[u8]) -> (digest: Vec<u8>)
    ensures
        digest@ == sha256_of(first@ + second@),
        digest@.len() == 32,
{
    sha2::Sha256::new().chain_update(first).chain_update(second).finalize().to_vec()
}

/// `sha2::Sha384`, fed two spans one after the other: the digest of both
/// together. It has 48 bytes.
#[verifier::external_body]
pub(crate) fn sha384_spans(first: &[u8], second: &[u8]) -> (digest: Vec<u8>)
    ensures
        digest@ == sha384_of(first@ + second@),
        digest@.len() == 48,
{
    sha2::Sha384::new().chain_update(first).chain_update(second).finalize().to_vec()
}

/// `sha2::Sha512`, fed two spans one after the other: the digest of both
/// together. It has 64 bytes.
#[verifier::external_body]
pub(crate) fn sha512_spans(first: &[u8], second: &[u8]) -> (digest: Vec<u8>)
    ensures
        digest@ == sha512_of(first@ + second@),
        digest@.len() == 64,
{
    sha2::Sha512::new().chain_update(first).chain_update(second).finalize().to_vec()
}

/// The digest of a byte string.
pub open spec fn digest_of(algorithm: DigestAlgorithm, bytes: Seq<u8>) -> Seq<u8> {
    match algorithm {
        DigestAlgorithm::Sha256 => sha256_of(bytes),
        DigestAlgorithm::Sha384 => sha384_of(bytes),
        DigestAlgorithm::Sha512 => sha512_of(bytes),
    }
}

/// The digest of two spans together.
pub fn digest_spans(algorithm: DigestAlgorithm, first: &[u8], second: &[u8]) -> (digest: Vec<u8>)
    ensures
        digest@ == digest_of(algorithm, first@ + second@),
        digest@.len() == algorithm.length(),
{
    match algorithm {
        DigestAlgorithm::Sha256 => sha256_spans(first, second),
        DigestAlgorithm::Sha384 => sha384_spans(first, second),
        DigestAlgorithm::Sha512 => sha512_spans(first, second),
    }
}

/// What `hex::encode` writes for a byte string: two digits to the byte, in
/// lower case.
pub open spec fn lower_hex(bytes: Seq<u8>) -> Seq<char>
    decreases bytes.len(),
{
    if bytes.len() == 0 {
        Seq::empty()
    } else {
        lower_hex(bytes.drop_last()).push(lower_hex_digit(bytes.last() as int / 16)).push(
            lower_hex_digit(bytes.last() as int % 16),
        )
    }
}

/// A hexadecimal digit in lower case.
pub open spec fn lower_hex_digit(n: int) -> char {
    if n < 10 {
        (48 + n) as char
    } else {
        (87 + n) as char
    }
}

/// `hex::encode`: the bytes in hexadecimal, in lower case.
#[verifier::external_body]
pub(crate) fn hex_text(bytes: &[u8]) -> (text: String)
    ensures
        text@ == lower_hex(bytes@),
{
    hex::encode(bytes)
}

/// The text of bytes in hexadecimal has two digits for each of them, and they
/// stand for it.
pub proof fn law_two_digits_stand_for_a_byte(bytes: Seq<u8>, i: int)
    requires
        0 <= i < bytes.len(),
    ensures
        lower_hex(bytes).len() == 2 * bytes.len(),
        digit_value(lower_hex(bytes)[2 * i]) * 16 + digit_value(lower_hex(bytes)[2 * i + 1])
            == bytes[i],
    decreases bytes.len(),
{
    let before = bytes.drop_last();
    lemma_two_digits(before);
    if i < bytes.len() - 1 {
        law_two_digits_stand_for_a_byte(before, i);
        assert(lower_hex(bytes)[2 * i] == lower_hex(before)[2 * i]);
        assert(lower_hex(bytes)[2 * i + 1] == lower_hex(before)[2 * i + 1]);
    }
}

proof fn lemma_two_digits(bytes: Seq<u8>)
    ensures
        lower_hex(bytes).len() == 2 * bytes.len(),
    decreases bytes.len(),
{
    if bytes.len() > 0 {
        lemma_two_digits(bytes.drop_last());
    }
}

} // verus!
