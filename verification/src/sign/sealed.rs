//! The sealed parts of a PKCS#12 container, and what is in them.

use crate::bytes::{copy_bytes, occurs_at, same_bytes};
use crate::number::{capacity, lemma_number_in, number_in, read_number};
use cbc::cipher::block_padding::Pkcs7;
use cbc::cipher::{BlockModeDecrypt, KeyIvInit};
use pkcs12::kdf::{derive_key_utf8, Pkcs12KeyType};
use pkcs5::der::Decode;
use pkcs5::pbes2::{Kdf, Parameters};
use vstd::prelude::*;
use vstd::slice::slice_subrange;

verus! {

/// How a part of a container is sealed.
#[derive(Debug, Clone, Copy, PartialEq, Eq, Structural)]
pub enum Scheme {
    /// The second scheme of PKCS#5, which names its own algorithms.
    Pbes2,
    /// Triple DES with a key derived by SHA-1.
    TripleDes,
    /// RC2 of 40 bits with a key derived by SHA-1.
    Rc2,
}

/// The identifier of a scheme in DER.
pub open spec fn scheme_oid(scheme: Scheme) -> Seq<u8> {
    match scheme {
        Scheme::Pbes2 => seq![6u8, 9, 0x2A, 0x86, 0x48, 0x86, 0xF7, 0x0D, 1, 5, 0x0D],
        Scheme::TripleDes => seq![6u8, 10, 0x2A, 0x86, 0x48, 0x86, 0xF7, 0x0D, 1, 0x0C, 1, 3],
        Scheme::Rc2 => seq![6u8, 10, 0x2A, 0x86, 0x48, 0x86, 0xF7, 0x0D, 1, 0x0C, 1, 6],
    }
}

/// From where to where the contents of the DER element at `at` stand, if one
/// with this tag stands there whole.
pub open spec fn element_at(data: Seq<u8>, at: int, tag: u8) -> Option<(int, int)> {
    if !(0 <= at && at + 2 <= data.len()) || data[at] != tag {
        None
    } else {
        let length = data[at + 1];
        let more = if length < 0x80 {
            0int
        } else {
            length - 0x80
        };
        let from = at + 2 + more;
        if more > 4 || from > data.len() {
            None
        } else {
            let to = from + (if length < 0x80 {
                length as int
            } else {
                number_in(data, at + 2, more as nat) as int
            });
            if to > data.len() {
                None
            } else {
                Some((from, to))
            }
        }
    }
}

/// A sealed part of a container.
pub struct Sealed {
    pub scheme: Scheme,
    /// The parameters of the scheme in DER.
    pub parameters: Seq<u8>,
    pub content: Seq<u8>,
}

/// A scheme and its parameters, where an algorithm identifier holds them.
pub open spec fn scheme_in(identifier: Seq<u8>) -> Option<(Scheme, Seq<u8>)> {
    if occurs_at(identifier, scheme_oid(Scheme::Pbes2), 0) {
        Some((Scheme::Pbes2, identifier.skip(11)))
    } else if occurs_at(identifier, scheme_oid(Scheme::TripleDes), 0) {
        Some((Scheme::TripleDes, identifier.skip(12)))
    } else if occurs_at(identifier, scheme_oid(Scheme::Rc2), 0) {
        Some((Scheme::Rc2, identifier.skip(12)))
    } else {
        None
    }
}

/// The sealed part whose algorithm identifier stands at `at`: a sequence that
/// starts with the identifier of a scheme, and the content behind it.
pub open spec fn sealed_at(data: Seq<u8>, at: int) -> Option<Sealed> {
    match element_at(data, at, 0x30) {
        None => None,
        Some((from, to)) => match (scheme_in(data.subrange(from, to)), element_at(data, to, 0x80)) {
            (Some((scheme, parameters)), Some((first, end))) => Some(
                Sealed { scheme, parameters, content: data.subrange(first, end) },
            ),
            _ => None,
        },
    }
}

/// What the derivation of a key costs.
#[derive(Debug, Clone, Copy, PartialEq, Eq)]
pub enum Cost {
    Pbkdf2 { iterations: u32 },
    Scrypt { cost: u64, block_size: u16, parallelization: u16 },
}

/// How many iterations the derivation of a key may take.
pub const MAX_ITERATIONS: u32 = 1_000_000;

/// How many lanes scrypt may have.
pub const MAX_PARALLELIZATION: u16 = 16;

/// How many bytes scrypt may take.
pub const MAX_SCRYPT_MEMORY: u64 = 0x4000_0000;

/// A cost that is paid: scrypt has one, and none is above its limit.
pub open spec fn is_payable(cost: Cost) -> bool {
    match cost {
        Cost::Pbkdf2 { iterations } => iterations <= MAX_ITERATIONS,
        Cost::Scrypt { cost, block_size, parallelization } => {
            &&& cost > 0
            &&& parallelization <= MAX_PARALLELIZATION
            &&& 128 * cost * block_size <= MAX_SCRYPT_MEMORY
        },
    }
}

/// What the key derivation costs that `pkcs5::pbes2::Parameters::from_der` reads
/// from parameters; nothing where it fails or reads another derivation than
/// these two.
pub uninterp spec fn pbes2_cost(parameters: Seq<u8>) -> Option<Cost>;

/// What `pkcs5::pbes2::Parameters::decrypt` makes of a content, by parameters in
/// DER and a passphrase; nothing where it fails.
pub uninterp spec fn pbes2_plain(parameters: Seq<u8>, content: Seq<u8>, passphrase: Seq<char>) -> Option<
    Seq<u8>,
>;

/// What `pkcs12::kdf::derive_key_utf8` derives by SHA-1 from a passphrase, a
/// salt and a number of rounds: the vector to start with or the key, of this
/// length; nothing where it fails.
pub uninterp spec fn derived(
    passphrase: Seq<char>,
    salt: Seq<u8>,
    vector: bool,
    rounds: int,
    length: nat,
) -> Option<Seq<u8>>;

/// What `cbc::Decryptor` makes of a content by triple DES, without its padding;
/// nothing where it fails.
pub uninterp spec fn triple_des_plain(key: Seq<u8>, vector: Seq<u8>, content: Seq<u8>) -> Option<
    Seq<u8>,
>;

/// What `cbc::Decryptor` makes of a content by RC2, without its padding; nothing
/// where it fails.
pub uninterp spec fn rc2_plain(key: Seq<u8>, vector: Seq<u8>, content: Seq<u8>) -> Option<Seq<u8>>;

/// Byte strings that may be missing, by their views.
pub open spec fn maybe_bytes(bytes: Option<Vec<u8>>) -> Option<Seq<u8>> {
    match bytes {
        Some(bytes) => Some(bytes@),
        None => None,
    }
}

/// `pkcs5::pbes2::Parameters::from_der`, and what the key derivation that it
/// reads costs.
#[verifier::external_body]
fn read_cost(parameters: &[u8]) -> (cost: Option<Cost>)
    ensures
        cost == pbes2_cost(parameters@),
{
    match Parameters::from_der(parameters).ok()?.kdf {
        Kdf::Pbkdf2(kdf) => Some(Cost::Pbkdf2 { iterations: kdf.iteration_count }),
        Kdf::Scrypt(kdf) => Some(Cost::Scrypt {
            cost: kdf.cost_parameter,
            block_size: kdf.block_size,
            parallelization: kdf.parallelization,
        }),
        _ => None,
    }
}

/// `pkcs5::pbes2::Parameters::decrypt`. It takes the logarithm of the cost of
/// scrypt, and panics where that is zero, so the cost is one that is paid.
#[verifier::external_body]
fn open_pbes2(parameters: &[u8], content: &[u8], passphrase: &str) -> (plain: Option<Vec<u8>>)
    requires
        pbes2_cost(parameters@) matches Some(cost) ==> is_payable(cost),
    ensures
        maybe_bytes(plain) == pbes2_plain(parameters@, content@, passphrase@),
{
    Parameters::from_der(parameters).ok()?.decrypt(passphrase.as_bytes(), content).ok()
}

/// `pkcs12::kdf::derive_key_utf8` with SHA-1.
#[verifier::external_body]
fn derive(passphrase: &str, salt: &[u8], vector: bool, rounds: i32, length: usize) -> (key: Option<
    Vec<u8>,
>)
    requires
        length <= 32,
    ensures
        maybe_bytes(key) == derived(passphrase@, salt@, vector, rounds as int, length as nat),
{
    let purpose = if vector { Pkcs12KeyType::Iv } else { Pkcs12KeyType::EncryptionKey };
    derive_key_utf8::<sha1::Sha1>(passphrase, salt, purpose, rounds, length).ok()
}

/// `cbc::Decryptor` over `des::TdesEde3`, with the padding of PKCS#7.
#[verifier::external_body]
fn open_triple_des(key: &[u8], vector: &[u8], content: &[u8]) -> (plain: Option<Vec<u8>>)
    ensures
        maybe_bytes(plain) == triple_des_plain(key@, vector@, content@),
{
    let cipher = cbc::Decryptor::<des::TdesEde3>::new_from_slices(key, vector).ok()?;
    cipher.decrypt_padded_vec::<Pkcs7>(content).ok()
}

/// `cbc::Decryptor` over `rc2::Rc2`, with the padding of PKCS#7.
#[verifier::external_body]
fn open_rc2(key: &[u8], vector: &[u8], content: &[u8]) -> (plain: Option<Vec<u8>>)
    ensures
        maybe_bytes(plain) == rc2_plain(key@, vector@, content@),
{
    let cipher = cbc::Decryptor::<rc2::Rc2>::new_from_slices(key, vector).ok()?;
    cipher.decrypt_padded_vec::<Pkcs7>(content).ok()
}

/// The integer that bytes stand for, the highest bit being its sign.
pub open spec fn signed_in(data: Seq<u8>, at: int, width: nat) -> int {
    if width > 0 && data[at] >= 0x80 {
        number_in(data, at, width) - capacity(width)
    } else {
        number_in(data, at, width) as int
    }
}

/// The salt and the rounds of a derivation by SHA-1: a sequence of both.
pub open spec fn salt_and_rounds(parameters: Seq<u8>) -> Option<(Seq<u8>, int)> {
    match element_at(parameters, 0, 0x30) {
        None => None,
        Some((from, _)) => match element_at(parameters, from, 4) {
            None => None,
            Some((first, end)) => match element_at(parameters, end, 2) {
                None => None,
                Some((number, over)) => if 0 < over - number <= 4 {
                    Some(
                        (
                            parameters.subrange(first, end),
                            signed_in(parameters, number, (over - number) as nat),
                        ),
                    )
                } else {
                    None
                },
            },
        },
    }
}

/// What a sealed part holds; nothing where it cannot be opened, or only at a
/// cost that is not paid.
pub open spec fn opened(part: Sealed, passphrase: Seq<char>) -> Option<Seq<u8>> {
    match part.scheme {
        Scheme::Pbes2 => match pbes2_cost(part.parameters) {
            Some(cost) => if is_payable(cost) {
                pbes2_plain(part.parameters, part.content, passphrase)
            } else {
                None
            },
            None => None,
        },
        _ => match salt_and_rounds(part.parameters) {
            Some((salt, rounds)) => if rounds <= MAX_ITERATIONS {
                let length = if part.scheme == Scheme::TripleDes {
                    24
                } else {
                    5
                };
                match (
                    derived(passphrase, salt, false, rounds, length),
                    derived(passphrase, salt, true, rounds, 8),
                ) {
                    (Some(key), Some(vector)) => if part.scheme == Scheme::TripleDes {
                        triple_des_plain(key, vector, part.content)
                    } else {
                        rc2_plain(key, vector, part.content)
                    },
                    _ => None,
                }
            } else {
                None
            },
            None => None,
        },
    }
}

/// A sealed part of a container.
#[derive(Debug)]
pub struct SealedPart {
    pub scheme: Scheme,
    /// The parameters of the scheme in DER.
    pub parameters: Vec<u8>,
    pub content: Vec<u8>,
}

impl View for SealedPart {
    type V = Sealed;

    open spec fn view(&self) -> Sealed {
        Sealed {
            scheme: self.scheme,
            parameters: self.parameters@,
            content: self.content@,
        }
    }
}

fn find_element(data: &[u8], at: usize, tag: u8) -> (element: Option<(usize, usize)>)
    requires
        at <= data@.len(),
    ensures
        match element {
            Some((from, to)) => element_at(data@, at as int, tag) == Some((from as int, to as int))
                && at < from <= to <= data@.len(),
            None => element_at(data@, at as int, tag) is None,
        },
{
    let total: usize = data.len();
    if total - at < 2 || data[at] != tag {
        return None;
    }
    let length: u8 = data[at + 1];
    if length < 0x80 {
        let from: usize = at + 2;
        if total - from < length as usize {
            return None;
        }
        return Some((from, from + length as usize));
    }
    let more: usize = (length - 0x80) as usize;
    if more > 4 || total - at - 2 < more {
        return None;
    }
    let from: usize = at + 2 + more;
    let size: u64 = read_number(data, at + 2, more);
    if size > (total - from) as u64 {
        return None;
    }
    Some((from, from + size as usize))
}

fn starts_with(data: &[u8], start: &[u8]) -> (starts: bool)
    ensures
        starts == occurs_at(data@, start@, 0),
{
    if start.len() > data.len() {
        return false;
    }
    same_bytes(slice_subrange(data, 0, start.len()), start)
}

fn find_scheme(identifier: &[u8]) -> (found: Option<(Scheme, Vec<u8>)>)
    ensures
        match found {
            Some((scheme, parameters)) => scheme_in(identifier@) == Some((scheme, parameters@)),
            None => scheme_in(identifier@) is None,
        },
{
    let pbes2: [u8; 11] = [6, 9, 0x2A, 0x86, 0x48, 0x86, 0xF7, 0x0D, 1, 5, 0x0D];
    let triple_des: [u8; 12] = [6, 10, 0x2A, 0x86, 0x48, 0x86, 0xF7, 0x0D, 1, 0x0C, 1, 3];
    let rc2: [u8; 12] = [6, 10, 0x2A, 0x86, 0x48, 0x86, 0xF7, 0x0D, 1, 0x0C, 1, 6];
    assert(pbes2@ =~= scheme_oid(Scheme::Pbes2));
    assert(triple_des@ =~= scheme_oid(Scheme::TripleDes));
    assert(rc2@ =~= scheme_oid(Scheme::Rc2));
    let (scheme, skipped): (Scheme, usize) = if starts_with(identifier, &pbes2) {
        (Scheme::Pbes2, 11)
    } else if starts_with(identifier, &triple_des) {
        (Scheme::TripleDes, 12)
    } else if starts_with(identifier, &rc2) {
        (Scheme::Rc2, 12)
    } else {
        return None;
    };
    let parameters = copy_bytes(slice_subrange(identifier, skipped, identifier.len()));
    assert(parameters@ =~= identifier@.skip(skipped as int));
    Some((scheme, parameters))
}

/// Finds the sealed part whose algorithm identifier stands at `at`.
pub fn find_sealed(data: &[u8], at: usize) -> (part: Option<SealedPart>)
    requires
        at <= data@.len(),
    ensures
        match part {
            Some(found) => sealed_at(data@, at as int) == Some(found@),
            None => sealed_at(data@, at as int) is None,
        },
{
    let (from, to) = match find_element(data, at, 0x30) {
        Some(element) => element,
        None => return None,
    };
    let (scheme, parameters) = match find_scheme(slice_subrange(data, from, to)) {
        Some(found) => found,
        None => return None,
    };
    let (first, end) = match find_element(data, to, 0x80) {
        Some(element) => element,
        None => return None,
    };
    let content = copy_bytes(slice_subrange(data, first, end));
    Some(SealedPart { scheme, parameters, content })
}

fn can_be_paid(cost: Cost) -> (payable: bool)
    ensures
        payable == is_payable(cost),
{
    match cost {
        Cost::Pbkdf2 { iterations } => iterations <= MAX_ITERATIONS,
        Cost::Scrypt { cost, block_size, parallelization } => {
            if cost == 0 || parallelization > MAX_PARALLELIZATION {
                return false;
            }
            if cost > MAX_SCRYPT_MEMORY {
                proof {
                    if block_size > 0 {
                        assert(128 * cost * block_size > MAX_SCRYPT_MEMORY) by (nonlinear_arith)
                            requires
                                cost > MAX_SCRYPT_MEMORY,
                                block_size > 0,
                        ;
                    }
                }
                return block_size == 0;
            }
            proof {
                assert(128 * cost * block_size <= 128 * 0x4000_0000 * 0xFFFF) by (nonlinear_arith)
                    requires
                        cost <= 0x4000_0000,
                        block_size <= 0xFFFF,
                ;
            }
            128 * cost * block_size as u64 <= MAX_SCRYPT_MEMORY
        },
    }
}

fn read_signed(data: &[u8], at: usize, width: usize) -> (n: i32)
    requires
        0 < width <= 4,
        at + width <= data@.len(),
    ensures
        n == signed_in(data@, at as int, width as nat),
{
    let n: u64 = read_number(data, at, width);
    proof {
        reveal_with_fuel(capacity, 5);
        reveal_with_fuel(number_in, 5);
        lemma_number_in(data@, at as int, width as nat);
    }
    let whole: i64 = match width {
        1 => 0x100,
        2 => 0x1_0000,
        3 => 0x100_0000,
        _ => 0x1_0000_0000,
    };
    if data[at] >= 0x80 {
        (n as i64 - whole) as i32
    } else {
        n as i32
    }
}

fn read_salt_and_rounds(parameters: &[u8]) -> (found: Option<(Vec<u8>, i32)>)
    ensures
        match found {
            Some((salt, rounds)) => salt_and_rounds(parameters@) == Some((salt@, rounds as int)),
            None => salt_and_rounds(parameters@) is None,
        },
{
    let (from, _) = match find_element(parameters, 0, 0x30) {
        Some(element) => element,
        None => return None,
    };
    let (first, end) = match find_element(parameters, from, 4) {
        Some(element) => element,
        None => return None,
    };
    let (number, over) = match find_element(parameters, end, 2) {
        Some(element) => element,
        None => return None,
    };
    if over == number || over - number > 4 {
        return None;
    }
    let salt = copy_bytes(slice_subrange(parameters, first, end));
    Some((salt, read_signed(parameters, number, over - number)))
}

/// Opens a sealed part.
pub fn unseal(part: &SealedPart, passphrase: &str) -> (plain: Option<Vec<u8>>)
    ensures
        maybe_bytes(plain) == opened(part@, passphrase@),
{
    if part.scheme == Scheme::Pbes2 {
        return match read_cost(part.parameters.as_slice()) {
            Some(cost) => if can_be_paid(cost) {
                open_pbes2(part.parameters.as_slice(), part.content.as_slice(), passphrase)
            } else {
                None
            },
            None => None,
        };
    }
    let (salt, rounds) = match read_salt_and_rounds(part.parameters.as_slice()) {
        Some(found) => found,
        None => return None,
    };
    if rounds > MAX_ITERATIONS as i32 {
        return None;
    }
    let length: usize = if part.scheme == Scheme::TripleDes {
        24
    } else {
        5
    };
    match (
        derive(passphrase, salt.as_slice(), false, rounds, length),
        derive(passphrase, salt.as_slice(), true, rounds, 8),
    ) {
        (Some(key), Some(vector)) => if part.scheme == Scheme::TripleDes {
            open_triple_des(key.as_slice(), vector.as_slice(), part.content.as_slice())
        } else {
            open_rc2(key.as_slice(), vector.as_slice(), part.content.as_slice())
        },
        _ => None,
    }
}

/// What is paid is paid at a lower cost too, as long as scrypt has one.
pub proof fn law_lower_costs_are_paid(one: Cost, two: Cost)
    requires
        is_payable(two),
        match (one, two) {
            (Cost::Pbkdf2 { iterations }, Cost::Pbkdf2 { iterations: most }) => iterations <= most,
            (
                Cost::Scrypt { cost, block_size, parallelization },
                Cost::Scrypt { cost: most, block_size: largest, parallelization: all },
            ) => 0 < cost <= most && block_size <= largest && parallelization <= all,
            _ => false,
        },
    ensures
        is_payable(one),
{
    match (one, two) {
        (
            Cost::Scrypt { cost, block_size, parallelization },
            Cost::Scrypt { cost: most, block_size: largest, parallelization: all },
        ) => {
            assert(128 * cost * block_size <= 128 * most * largest) by (nonlinear_arith)
                requires
                    0 < cost <= most,
                    0 <= block_size <= largest,
            ;
        },
        _ => {},
    }
}

} // verus!
