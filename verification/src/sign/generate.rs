//! New signing identities: a key on P-256, a certificate that it signs itself,
//! and an encrypted container for both.

use crate::sign::credential::CredentialSummary;
use crate::sign::errors::signing_sentence;
use crate::sign::pkcs12::{
    container_contents, load_pkcs12, loaded_credential, write_container, KeyFacts,
};
use crate::text::{chars_of, is_white_space, join, joined, owned, push_str, views, white_space};
use der::asn1::GeneralizedTime;
use der::{Decode, Encode};
use p256::ecdsa::{DerSignature, SigningKey};
use p256::pkcs8::{DecodePrivateKey, EncodePrivateKey};
use rand::RngCore;
use std::error::Error;
use std::str::FromStr;
use std::time::Duration;
use vstd::prelude::*;
use x509_cert::builder::{Builder, CertificateBuilder, Profile};
use x509_cert::name::Name;
use x509_cert::serial_number::SerialNumber;
use x509_cert::spki::SubjectPublicKeyInfoOwned;
use x509_cert::time::{Time, Validity};

verus! {

/// Whom a new credential is for, and when it holds: nanoseconds since the start
/// of 1970, below zero before it.
#[derive(Debug, Clone, PartialEq, Eq)]
pub struct NewCredentialIdentity {
    pub common_name: String,
    pub organization: Option<String>,
    pub email: Option<String>,
    pub not_before: i128,
    pub not_after: i128,
}

/// A new key does not agree on keys.
pub const KEY_AGREEMENT: bool = false;

/// A new key does not encipher keys.
pub const KEY_ENCIPHERMENT: bool = false;

/// An encrypted container, and what there is to show of the credential in it.
#[derive(Debug)]
pub struct GeneratedPkcs12 {
    pub bytes: Vec<u8>,
    pub summary: CredentialSummary,
}

/// Why no credential was made.
#[derive(Debug, Clone, PartialEq, Eq)]
pub enum CredentialGenerationError {
    MissingCommonName,
    InvalidValidity,
    InvalidIdentity(String),
    Certificate(String),
    Pkcs12(String),
    Verification(String),
}

impl CredentialGenerationError {
    /// The error as a sentence.
    pub open spec fn sentence(self) -> Seq<char> {
        match self {
            CredentialGenerationError::MissingCommonName =>
                "A full name is required for a signing identity"@,
            CredentialGenerationError::InvalidValidity =>
                "The credential expiry must be later than its start date"@,
            CredentialGenerationError::InvalidIdentity(reason) =>
                "Could not encode the certificate identity: "@ + reason@,
            CredentialGenerationError::Certificate(reason) =>
                "Could not generate the signing certificate: "@ + reason@,
            CredentialGenerationError::Pkcs12(reason) =>
                "Could not package the signing credential: "@ + reason@,
            CredentialGenerationError::Verification(reason) =>
                "The generated credential could not be verified: "@ + reason@,
        }
    }

    /// The error as a sentence.
    pub fn message(&self) -> (text: String)
        ensures
            text@ == self.sentence(),
    {
        match self {
            CredentialGenerationError::MissingCommonName => owned(
                "A full name is required for a signing identity",
            ),
            CredentialGenerationError::InvalidValidity => owned(
                "The credential expiry must be later than its start date",
            ),
            CredentialGenerationError::InvalidIdentity(reason) => {
                let mut text = owned("Could not encode the certificate identity: ");
                push_str(&mut text, reason.as_str());
                text
            },
            CredentialGenerationError::Certificate(reason) => {
                let mut text = owned("Could not generate the signing certificate: ");
                push_str(&mut text, reason.as_str());
                text
            },
            CredentialGenerationError::Pkcs12(reason) => {
                let mut text = owned("Could not package the signing credential: ");
                push_str(&mut text, reason.as_str());
                text
            },
            CredentialGenerationError::Verification(reason) => {
                let mut text = owned("The generated credential could not be verified: ");
                push_str(&mut text, reason.as_str());
                text
            },
        }
    }
}

/// A text without the white space it starts with.
pub open spec fn without_leading(text: Seq<char>) -> Seq<char>
    decreases text.len(),
{
    if text.len() > 0 && is_white_space(text[0]) {
        without_leading(text.drop_first())
    } else {
        text
    }
}

/// A text without the white space it ends in.
pub open spec fn without_trailing(text: Seq<char>) -> Seq<char>
    decreases text.len(),
{
    if text.len() > 0 && is_white_space(text.last()) {
        without_trailing(text.drop_last())
    } else {
        text
    }
}

/// A text without the white space around it.
pub open spec fn trimmed(text: Seq<char>) -> Seq<char> {
    without_trailing(without_leading(text))
}

/// The characters of a text without the white space around it.
fn trim(text: &str) -> (chars: Vec<char>)
    ensures
        chars@ == trimmed(text@),
{
    let mut chars = chars_of(text);
    let ghost all = chars@;
    while chars.len() > 0 && white_space(chars[0])
        invariant
            without_leading(chars@) == without_leading(all),
        decreases chars@.len(),
    {
        let ghost before = chars@;
        chars.remove(0);
        assert(chars@ =~= before.drop_first());
    }
    let ghost rest = chars@;
    while chars.len() > 0 && white_space(chars[chars.len() - 1])
        invariant
            without_trailing(chars@) == without_trailing(rest),
        decreases chars@.len(),
    {
        let ghost before = chars@;
        chars.pop();
        assert(chars@ =~= before.drop_last());
    }
    chars
}

/// A character of a distinguished name that means something to its syntax where
/// it stands.
pub open spec fn is_special(text: Seq<char>, at: int) -> bool {
    let c = text[at];
    ||| c == ' ' && (at == 0 || at + 1 == text.len())
    ||| c == '#' && at == 0
    ||| c == ',' || c == '+' || c == '"' || c == '\\' || c == '<' || c == '>' || c == ';' || c
        == '='
}

/// The first `n` characters of a text, with a backslash before those that would
/// mean something to the syntax of distinguished names.
pub open spec fn escaped_name(text: Seq<char>, n: nat) -> Seq<char>
    decreases n,
{
    if n == 0 {
        Seq::empty()
    } else if is_special(text, n - 1) {
        escaped_name(text, (n - 1) as nat).push('\\').push(text[n - 1])
    } else {
        escaped_name(text, (n - 1) as nat).push(text[n - 1])
    }
}

/// A text with every backslash taken out that stands before another character.
pub open spec fn unescaped_name(text: Seq<char>) -> Seq<char>
    decreases text.len(),
{
    if text.len() == 0 {
        Seq::empty()
    } else if text[0] == '\\' && text.len() >= 2 {
        seq![text[1]] + unescaped_name(text.skip(2))
    } else {
        seq![text[0]] + unescaped_name(text.skip(1))
    }
}

/// The characters of a text from `from` on, escaped.
spec fn escaped_from(text: Seq<char>, from: int) -> Seq<char>
    decreases text.len() - from,
{
    if from >= text.len() {
        Seq::empty()
    } else if is_special(text, from) {
        seq!['\\', text[from]] + escaped_from(text, from + 1)
    } else {
        seq![text[from]] + escaped_from(text, from + 1)
    }
}

proof fn lemma_escaped_halves(text: Seq<char>, n: nat)
    requires
        n <= text.len(),
    ensures
        escaped_name(text, n) + escaped_from(text, n as int) == escaped_from(text, 0),
    decreases n,
{
    if n > 0 {
        lemma_escaped_halves(text, (n - 1) as nat);
        assert(escaped_name(text, n) + escaped_from(text, n as int) =~= escaped_name(
            text,
            (n - 1) as nat,
        ) + escaped_from(text, n - 1));
    } else {
        assert(escaped_name(text, 0) + escaped_from(text, 0) =~= escaped_from(text, 0));
    }
}

proof fn lemma_unescaped_from(text: Seq<char>, from: int)
    requires
        0 <= from <= text.len(),
    ensures
        unescaped_name(escaped_from(text, from)) == text.skip(from),
    decreases text.len() - from,
{
    if from < text.len() {
        lemma_unescaped_from(text, from + 1);
        let rest = escaped_from(text, from + 1);
        assert(seq![text[from]] + text.skip(from + 1) =~= text.skip(from));
        if is_special(text, from) {
            assert(escaped_from(text, from).skip(2) =~= rest);
        } else {
            assert(escaped_from(text, from).skip(1) =~= rest);
        }
    } else {
        assert(text.skip(from) =~= Seq::empty());
    }
}

/// What is escaped in a name is data: taking the escapes out gives the text
/// back.
pub proof fn law_escaped_names_read_back(text: Seq<char>)
    ensures
        unescaped_name(escaped_name(text, text.len())) == text,
{
    lemma_escaped_halves(text, text.len());
    lemma_unescaped_from(text, 0);
    assert(escaped_name(text, text.len()) + escaped_from(text, text.len() as int)
        =~= escaped_name(text, text.len()));
    assert(text.skip(0) =~= text);
}

/// Escapes what would mean something to the syntax of distinguished names.
fn escape_name(chars: &[char]) -> (escaped: String)
    ensures
        escaped@ == escaped_name(chars@, chars@.len()),
{
    let mut escaped = String::new();
    let count: usize = chars.len();
    let mut i: usize = 0;
    while i < count
        invariant
            i <= count,
            count == chars@.len(),
            escaped@ == escaped_name(chars@, i as nat),
        decreases count - i,
    {
        let c = chars[i];
        let edge = c == ' ' && (i == 0 || i + 1 == count);
        if edge || (c == '#' && i == 0) || c == ',' || c == '+' || c == '"' || c == '\\' || c
            == '<' || c == '>' || c == ';' || c == '=' {
            escaped.push('\\');
        }
        escaped.push(c);
        i += 1;
    }
    escaped
}

/// One component of a distinguished name.
pub open spec fn component(key: Seq<char>, value: Seq<char>) -> Seq<char> {
    key + escaped_name(trimmed(value), trimmed(value).len())
}

/// The components of a list, and one more where there is a value that is not
/// blank.
pub open spec fn with_component(
    components: Seq<Seq<char>>,
    key: Seq<char>,
    value: Option<Seq<char>>,
) -> Seq<Seq<char>> {
    match value {
        Some(text) if trimmed(text).len() > 0 => components.push(component(key, text)),
        _ => components,
    }
}

/// A text that may be missing.
pub open spec fn maybe_text(text: Option<String>) -> Option<Seq<char>> {
    match text {
        Some(text) => Some(text@),
        None => None,
    }
}

/// The distinguished name of an identity, as text.
pub open spec fn subject_text(identity: NewCredentialIdentity) -> Seq<char> {
    joined(
        with_component(
            with_component(
                seq![component("CN="@, identity.common_name@)],
                "O="@,
                maybe_text(identity.organization),
            ),
            "emailAddress="@,
            maybe_text(identity.email),
        ),
        ","@,
    )
}

fn component_of(key: &str, chars: &[char]) -> (text: String)
    ensures
        text@ == key@ + escaped_name(chars@, chars@.len()),
{
    let mut text = owned(key);
    let escaped = escape_name(chars);
    push_str(&mut text, escaped.as_str());
    text
}

fn push_component(components: &mut Vec<String>, key: &str, value: &str)
    ensures
        views(final(components)@) == with_component(views(old(components)@), key@, Some(value@)),
{
    let ghost before = views(components@);
    let chars = trim(value);
    if chars.len() > 0 {
        let text = component_of(key, chars.as_slice());
        let ghost added = text@;
        components.push(text);
        assert(views(components@) =~= before.push(added));
    }
}

/// The distinguished name of an identity, as text.
pub fn subject_name(identity: &NewCredentialIdentity) -> (subject: String)
    ensures
        subject@ == subject_text(*identity),
{
    let mut components: Vec<String> = Vec::new();
    let name = trim(identity.common_name.as_str());
    components.push(component_of("CN=", name.as_slice()));
    assert(views(components@) =~= seq![component("CN="@, identity.common_name@)]);
    if let Some(organization) = &identity.organization {
        push_component(&mut components, "O=", organization.as_str());
    }
    if let Some(email) = &identity.email {
        push_component(&mut components, "emailAddress=", email.as_str());
    }
    join(components.as_slice(), ",")
}

/// What `x509_cert::name::Name::from_str` and its `to_der` make of a text.
pub uninterp spec fn name_encoding(text: Seq<char>) -> Result<Seq<u8>, Seq<char>>;

/// Is this where a component of a distinguished name starts, as
/// `x509_cert::name::Name::from_str` parts it? It does so at the start, and behind
/// a comma or a plus that has no backslash before it, or two.
pub open spec fn starts_component(text: Seq<char>, at: int) -> bool {
    ||| at == 0
    ||| {
        &&& 0 < at <= text.len()
        &&& text[at - 1] == ',' || text[at - 1] == '+'
        &&& at < 2 || text[at - 2] != '\\' || (at >= 3 && text[at - 3] == '\\')
    }
}

/// The longest text that is read as an object identifier. One that can be
/// encoded has at most 39 bytes, and a byte stands for at most three digits and
/// a point.
pub const MAX_KEY_LENGTH: usize = 160;

/// Is what stands from `at` on, as far as it could be an object identifier, no
/// longer than one can be, and does every number in it fit into 32 bits? Before
/// it stand `length` characters, and the digits of a number with this value.
pub open spec fn fits_as_key(text: Seq<char>, at: int, length: nat, value: nat) -> bool
    decreases text.len() - at,
{
    if at >= text.len() || !(text[at] == '.' || '0' <= text[at] <= '9') {
        true
    } else if length >= MAX_KEY_LENGTH {
        false
    } else if text[at] == '.' {
        fits_as_key(text, at + 1, length + 1, 0)
    } else {
        let more = value * 10 + (text[at] as int - '0' as int);
        more <= u32::MAX && fits_as_key(text, at + 1, length + 1, more as nat)
    }
}

/// No component of a name starts with an object identifier that is too long.
pub open spec fn has_short_keys(text: Seq<char>) -> bool {
    forall|at: int|
        0 <= at <= text.len() && #[trigger] starts_component(text, at) ==> fits_as_key(
            text,
            at,
            0,
            0,
        )
}

fn key_fits(text: &[char], start: usize) -> (fits: bool)
    requires
        start <= text@.len(),
    ensures
        fits == fits_as_key(text@, start as int, 0, 0),
{
    let mut at: usize = start;
    let mut length: usize = 0;
    let mut value: u64 = 0;
    while at < text.len() && (text[at] == '.' || ('0' <= text[at] && text[at] <= '9'))
        invariant
            at <= text@.len(),
            length <= MAX_KEY_LENGTH,
            value <= u32::MAX,
            fits_as_key(text@, at as int, length as nat, value as nat) == fits_as_key(
                text@,
                start as int,
                0,
                0,
            ),
        decreases text@.len() - at,
    {
        if length >= MAX_KEY_LENGTH {
            return false;
        }
        if text[at] == '.' {
            value = 0;
        } else {
            value = value * 10 + (text[at] as u32 - '0' as u32) as u64;
            if value > u32::MAX as u64 {
                return false;
            }
        }
        length += 1;
        at += 1;
    }
    true
}

/// Does no component of a name start with an object identifier that is too long?
pub fn keys_are_short(name: &str) -> (short: bool)
    ensures
        short == has_short_keys(name@),
{
    let text = chars_of(name);
    let mut at: usize = 0;
    loop
        invariant
            at <= text@.len(),
            text@ == name@,
            forall|i: int|
                0 <= i < at && #[trigger] starts_component(text@, i) ==> fits_as_key(
                    text@,
                    i,
                    0,
                    0,
                ),
        decreases text@.len() - at,
    {
        let starts = at == 0 || ((text[at - 1] == ',' || text[at - 1] == '+') && (at < 2
            || text[at - 2] != '\\' || (at >= 3 && text[at - 3] == '\\')));
        assert(starts == starts_component(text@, at as int));
        if starts && !key_fits(text.as_slice(), at) {
            return false;
        }
        if at == text.len() {
            return true;
        }
        at += 1;
    }
}

/// `x509_cert::name::Name::from_str`, encoded. What stands before the first
/// equals sign of a component is read as an object identifier where it is no known
/// name, and that reading computes each number in 32 bits without a test and calls
/// itself for each character: so no component starts with one that has a larger
/// number or is longer than one can be.
#[verifier::external_body]
fn name_der(text: &str) -> (der: Result<Vec<u8>, String>)
    requires
        has_short_keys(text@),
    ensures
        match der {
            Ok(bytes) => name_encoding(text@) == Ok::<Seq<u8>, Seq<char>>(bytes@),
            Err(reason) => name_encoding(text@) == Err::<Seq<u8>, Seq<char>>(reason@),
        },
{
    Name::from_str(text).and_then(|name| name.to_der()).map_err(|e| e.to_string())
}

/// Nanoseconds since the start of 1970, by whole seconds and what is left.
pub open spec fn nanoseconds(moment: (u64, u32)) -> nat {
    (moment.0 * 1_000_000_000 + moment.1) as nat
}

/// The last moment that can be told by seconds and what is left.
pub const LAST_MOMENT: i128 = 18_446_744_073_709_551_615_999_999_999;

/// A moment, or the last one where it lies behind that.
pub open spec fn within_time(moment: i128) -> nat {
    if moment > LAST_MOMENT {
        LAST_MOMENT as nat
    } else {
        moment as nat
    }
}

/// Tells a moment since the start of 1970 by whole seconds and what is left.
fn by_seconds(moment: i128) -> (parts: (u64, u32))
    requires
        moment >= 0,
    ensures
        nanoseconds(parts) == within_time(moment),
        parts.1 < 1_000_000_000,
{
    if moment > LAST_MOMENT {
        return (u64::MAX, 999_999_999);
    }
    let seconds: i128 = moment / 1_000_000_000;
    let left: i128 = moment % 1_000_000_000;
    (seconds as u64, left as u32)
}

/// What `x509_cert::builder::CertificateBuilder` makes of a name in DER that is
/// both subject and issuer, a P-256 key in PKCS#8 that is both certified and
/// signs, a serial number, the nanoseconds since the start of 1970 between which
/// the certificate holds, and whether the key may agree on keys and encipher
/// keys beside signing.
pub uninterp spec fn self_signed_certificate(
    name: Seq<u8>,
    key: Seq<u8>,
    serial: Seq<u8>,
    not_before: nat,
    not_after: nat,
    key_agreement: bool,
    key_encipherment: bool,
) -> Result<Seq<u8>, Seq<char>>;

/// `x509_cert::builder::CertificateBuilder` for an end certificate that is signed
/// by the key it certifies. `der::asn1::GeneralizedTime` makes the two times of
/// seconds and nanoseconds since the start of 1970 and refuses what lies past the
/// year 9999. `std::time::Duration::new` carries nanoseconds over into seconds,
/// so they are less than one.
#[verifier::external_body]
fn build_certificate(
    name: &[u8],
    key: &[u8],
    serial: &[u8],
    not_before: (u64, u32),
    not_after: (u64, u32),
    key_agreement: bool,
    key_encipherment: bool,
) -> (der: Result<Vec<u8>, String>)
    requires
        not_before.1 < 1_000_000_000,
        not_after.1 < 1_000_000_000,
    ensures
        match der {
            Ok(bytes) => self_signed_certificate(
                name@,
                key@,
                serial@,
                nanoseconds(not_before),
                nanoseconds(not_after),
                key_agreement,
                key_encipherment,
            ) == Ok::<Seq<u8>, Seq<char>>(bytes@),
            Err(reason) => self_signed_certificate(
                name@,
                key@,
                serial@,
                nanoseconds(not_before),
                nanoseconds(not_after),
                key_agreement,
                key_encipherment,
            ) == Err::<Seq<u8>, Seq<char>>(reason@),
        },
{
    let make = || -> Result<Vec<u8>, Box<dyn Error>> {
        let at = |(seconds, left)| GeneralizedTime::from_unix_duration(Duration::new(seconds, left)).map(Time::from);
        let key = SigningKey::from_pkcs8_der(key)?;
        let name = Name::from_der(name)?;
        let validity = Validity { not_before: at(not_before)?, not_after: at(not_after)? };
        let profile = Profile::Leaf { issuer: name.clone(), enable_key_agreement: key_agreement, enable_key_encipherment: key_encipherment };
        let public = SubjectPublicKeyInfoOwned::from_key(*key.verifying_key())?;
        let builder = CertificateBuilder::new(profile, SerialNumber::new(serial)?, validity, name, public, &key)?;
        Ok(builder.build::<DerSignature>()?.to_der()?)
    };
    make().map_err(|e| e.to_string())
}

/// `p256::ecdsa::SigningKey::random` with `rand::rngs::OsRng`: a new key in
/// PKCS#8. Nothing is stated of the bytes, which are random.
#[verifier::external_body]
fn random_key() -> (key: Result<Vec<u8>, String>) {
    let key = SigningKey::random(&mut rand::rngs::OsRng);
    key.to_pkcs8_der().map(|der| der.as_bytes().to_vec()).map_err(|e| e.to_string())
}

/// `rand::rngs::OsRng`, asked for bytes: as many as were asked for.
#[verifier::external_body]
fn random_bytes(count: usize) -> (bytes: Vec<u8>)
    ensures
        bytes@.len() == count,
{
    let mut bytes = vec![0u8; count];
    rand::rngs::OsRng.fill_bytes(&mut bytes);
    bytes
}

/// How many bytes a serial number has.
pub const SERIAL_BYTES: usize = 16;

/// A serial number made of random bytes: the highest bit is clear, so that the
/// number is positive, and it is one where every other bit is clear too.
pub open spec fn serial_of(random: Seq<u8>) -> Seq<u8> {
    let cleared = random.update(0, (random[0] % 128) as u8);
    if forall|i: int| 0 <= i < cleared.len() ==> #[trigger] cleared[i] == 0 {
        cleared.update(cleared.len() - 1, 1)
    } else {
        cleared
    }
}

/// A serial number is a positive number that needs no leading zero.
pub proof fn law_a_serial_is_positive(random: Seq<u8>)
    requires
        random.len() == SERIAL_BYTES,
    ensures
        serial_of(random).len() == SERIAL_BYTES,
        serial_of(random)[0] < 128,
        exists|i: int| 0 <= i < SERIAL_BYTES && #[trigger] serial_of(random)[i] != 0,
{
    let cleared = random.update(0, (random[0] % 128) as u8);
    if forall|i: int| 0 <= i < cleared.len() ==> #[trigger] cleared[i] == 0 {
        assert(serial_of(random)[15] != 0);
    } else {
        let i = choose|i: int| 0 <= i < cleared.len() && #[trigger] cleared[i] != 0;
        assert(serial_of(random)[i] != 0);
    }
}

/// Makes a serial number of random bytes.
pub fn positive_serial(random: Vec<u8>) -> (serial: Vec<u8>)
    requires
        random@.len() == SERIAL_BYTES,
    ensures
        serial@ == serial_of(random@),
{
    let mut serial = random;
    let first: u8 = serial[0] % 128;
    serial.set(0, first);
    let ghost cleared = serial@;
    let mut i: usize = 0;
    while i < serial.len() && serial[i] == 0
        invariant
            i <= serial@.len(),
            serial@ == cleared,
            forall|j: int| 0 <= j < i ==> #[trigger] cleared[j] == 0,
        decreases serial@.len() - i,
    {
        i += 1;
    }
    if i == serial.len() {
        let last: usize = serial.len() - 1;
        serial.set(last, 1);
    }
    serial
}

/// Why an identity is refused before any key is made.
pub enum IdentityRefusal {
    MissingCommonName,
    InvalidValidity,
    InvalidIdentity(Seq<char>),
}

/// The distinguished name of an identity in DER, or why it is refused.
pub open spec fn accepted_name(identity: NewCredentialIdentity) -> Result<
    Seq<u8>,
    IdentityRefusal,
> {
    if trimmed(identity.common_name@).len() == 0 {
        Err(IdentityRefusal::MissingCommonName)
    } else if identity.not_after <= identity.not_before {
        Err(IdentityRefusal::InvalidValidity)
    } else if !has_short_keys(subject_text(identity)) {
        Err(IdentityRefusal::InvalidIdentity("an object identifier in the name is too long"@))
    } else {
        match name_encoding(subject_text(identity)) {
            Ok(name) => Ok(name),
            Err(reason) => Err(IdentityRefusal::InvalidIdentity(reason)),
        }
    }
}

/// Is this how the refusal is reported?
pub open spec fn reports_identity(
    error: CredentialGenerationError,
    refusal: IdentityRefusal,
) -> bool {
    match refusal {
        IdentityRefusal::MissingCommonName => error is MissingCommonName,
        IdentityRefusal::InvalidValidity => error is InvalidValidity,
        IdentityRefusal::InvalidIdentity(reason) =>
            error matches CredentialGenerationError::InvalidIdentity(found) && found@ == reason,
    }
}

/// Checks an identity, and gives its distinguished name in DER.
pub fn check_identity(identity: &NewCredentialIdentity) -> (name: Result<
    Vec<u8>,
    CredentialGenerationError,
>)
    ensures
        match accepted_name(*identity) {
            Ok(der) => name matches Ok(found) && found@ == der,
            Err(refusal) => name matches Err(error) && reports_identity(error, refusal),
        },
{
    let common_name = trim(identity.common_name.as_str());
    if common_name.len() == 0 {
        return Err(CredentialGenerationError::MissingCommonName);
    }
    if identity.not_after <= identity.not_before {
        return Err(CredentialGenerationError::InvalidValidity);
    }
    let subject = subject_name(identity);
    if !keys_are_short(subject.as_str()) {
        return Err(
            CredentialGenerationError::InvalidIdentity(
                owned("an object identifier in the name is too long"),
            ),
        );
    }
    match name_der(subject.as_str()) {
        Ok(name) => Ok(name),
        Err(reason) => Err(CredentialGenerationError::InvalidIdentity(reason)),
    }
}

/// The certificate of a key for an identity that was accepted, under a serial
/// number made of random bytes; or why there is none. A time before 1970 cannot
/// be written.
pub open spec fn certificate_for(
    identity: NewCredentialIdentity,
    name: Seq<u8>,
    key: Seq<u8>,
    random: Seq<u8>,
) -> Result<Seq<u8>, Seq<char>> {
    if identity.not_before < 0 || identity.not_after < 0 {
        Err("malformed ASN.1 DER value for GeneralizedTime"@)
    } else {
        self_signed_certificate(
            name,
            key,
            serial_of(random),
            within_time(identity.not_before),
            within_time(identity.not_after),
            KEY_AGREEMENT,
            KEY_ENCIPHERMENT,
        )
    }
}

/// Certifies a key for an identity that was accepted, under a serial number
/// made of random bytes.
pub fn certify(
    identity: &NewCredentialIdentity,
    name: &[u8],
    key: &[u8],
    random: Vec<u8>,
) -> (certificate: Result<Vec<u8>, CredentialGenerationError>)
    requires
        random@.len() == SERIAL_BYTES,
    ensures
        match certificate_for(*identity, name@, key@, random@) {
            Ok(der) => certificate matches Ok(found) && found@ == der,
            Err(reason) => certificate matches Err(CredentialGenerationError::Certificate(found))
                && found@ == reason,
        },
{
    if identity.not_before < 0 || identity.not_after < 0 {
        return Err(
            CredentialGenerationError::Certificate(
                owned("malformed ASN.1 DER value for GeneralizedTime"),
            ),
        );
    }
    let serial = positive_serial(random);
    match build_certificate(
        name,
        key,
        serial.as_slice(),
        by_seconds(identity.not_before),
        by_seconds(identity.not_after),
        KEY_AGREEMENT,
        KEY_ENCIPHERMENT,
    ) {
        Ok(der) => Ok(der),
        Err(reason) => Err(CredentialGenerationError::Certificate(reason)),
    }
}

/// Reads a new container again, and describes what is in it.
pub fn describe_container(bytes: Vec<u8>, passphrase: &str) -> (generated: Result<
    GeneratedPkcs12,
    CredentialGenerationError,
>)
    ensures
        match loaded_credential(bytes@, passphrase@) {
            Ok(credential) => generated matches Ok(made) && made.bytes@ == bytes@
                && made.summary.describes(credential),
            Err(fault) =>
                generated matches Err(CredentialGenerationError::Verification(reason)) && reason@
                == signing_sentence(fault),
        },
{
    let credential = match load_pkcs12(bytes.as_slice(), passphrase) {
        Ok(credential) => credential,
        Err(error) => return Err(CredentialGenerationError::Verification(error.message())),
    };
    match credential.summary() {
        Ok(summary) => Ok(GeneratedPkcs12 { bytes, summary }),
        Err(error) => Err(CredentialGenerationError::Verification(error.message())),
    }
}

/// The identifier that links a new key to its certificate.
pub open spec fn new_key_id() -> Seq<u8> {
    seq![
        112u8, 117, 108, 112, 105, 116, 45, 115, 105, 103, 110, 105, 110, 103, 45, 107, 101, 121,
    ]
}

/// A container holds this key and nothing but a certificate that the key signed
/// for an identity, under a serial number made of these random bytes. The key
/// has the alias and the identifier of a new credential.
pub open spec fn holds_identity(
    contents: Result<Option<KeyFacts>, Option<Seq<char>>>,
    identity: NewCredentialIdentity,
    key: Seq<u8>,
    random: Seq<u8>,
) -> bool {
    &&& accepted_name(identity) matches Ok(name)
    &&& random.len() == SERIAL_BYTES
    &&& certificate_for(identity, name, key, random) matches Ok(certificate)
    &&& contents == Ok::<Option<KeyFacts>, Option<Seq<char>>>(
        Some(
            KeyFacts {
                alias: "pulpit-signing-identity"@,
                key_id: new_key_id(),
                key,
                certificates: seq![certificate],
            },
        ),
    )
}

/// Generates a credential and packs it into an encrypted container. An identity
/// that is not accepted is refused before a key is made; a container that is
/// returned holds a new key with a certificate for the identity, it was opened
/// again with the passphrase, and its summary is that of the credential in it.
pub fn generate_self_signed_pkcs12(identity: &NewCredentialIdentity, passphrase: &str) -> (generated:
    Result<GeneratedPkcs12, CredentialGenerationError>)
    ensures
        accepted_name(*identity) matches Err(refusal) ==> (generated matches Err(error)
            && reports_identity(error, refusal)),
        (generated matches Err(error) && (error is MissingCommonName || error is InvalidValidity
            || error is InvalidIdentity)) ==> accepted_name(*identity) is Err,
        generated matches Ok(made) ==> {
            let contents = container_contents(made.bytes@, passphrase@);
            &&& exists|key: Seq<u8>, random: Seq<u8>|
                #[trigger] holds_identity(contents, *identity, key, random)
            &&& loaded_credential(made.bytes@, passphrase@) matches Ok(credential)
            &&& made.summary.describes(credential)
        },
{
    let name = match check_identity(identity) {
        Ok(name) => name,
        Err(error) => return Err(error),
    };
    let key = match random_key() {
        Ok(key) => key,
        Err(reason) => return Err(CredentialGenerationError::Certificate(reason)),
    };
    let random = random_bytes(SERIAL_BYTES);
    let ghost drawn = random@;
    let certificate = match certify(identity, name.as_slice(), key.as_slice(), random) {
        Ok(certificate) => certificate,
        Err(error) => return Err(error),
    };
    let key_id: [u8; 18] = [
        112, 117, 108, 112, 105, 116, 45, 115, 105, 103, 110, 105, 110, 103, 45, 107, 101, 121,
    ];
    assert(key_id@ =~= new_key_id());
    let bytes = match write_container(
        &key_id,
        "pulpit-signing-identity",
        key.as_slice(),
        certificate.as_slice(),
        passphrase,
    ) {
        Ok(bytes) => bytes,
        Err(reason) => return Err(CredentialGenerationError::Pkcs12(reason)),
    };
    assert(holds_identity(container_contents(bytes@, passphrase@), *identity, key@, drawn));
    describe_container(bytes, passphrase)
}

proof fn lemma_leading(text: Seq<char>) -> (start: int)
    ensures
        0 <= start <= text.len(),
        without_leading(text) == text.skip(start),
        forall|i: int| 0 <= i < start ==> is_white_space(#[trigger] text[i]),
        start < text.len() ==> !is_white_space(text[start]),
    decreases text.len(),
{
    if text.len() > 0 && is_white_space(text[0]) {
        let rest = text.drop_first();
        let start = lemma_leading(rest) + 1;
        assert(text.skip(start) =~= rest.skip(start - 1));
        assert forall|i: int| 0 <= i < start implies is_white_space(#[trigger] text[i]) by {
            if i > 0 {
                assert(text[i] == rest[i - 1]);
            }
        }
        start
    } else {
        assert(text.skip(0) =~= text);
        0
    }
}

proof fn lemma_trailing(text: Seq<char>) -> (end: int)
    ensures
        0 <= end <= text.len(),
        without_trailing(text) == text.take(end),
        forall|i: int| end <= i < text.len() ==> is_white_space(#[trigger] text[i]),
        end > 0 ==> !is_white_space(text[end - 1]),
    decreases text.len(),
{
    if text.len() > 0 && is_white_space(text.last()) {
        let rest = text.drop_last();
        let end = lemma_trailing(rest);
        assert(text.take(end) =~= rest.take(end));
        assert forall|i: int| end <= i < text.len() implies is_white_space(#[trigger] text[i]) by {
            if i < rest.len() {
                assert(text[i] == rest[i]);
            }
        }
        end
    } else {
        assert(text.take(text.len() as int) =~= text);
        text.len() as int
    }
}

/// A name is taken without the white space around it: what is cut off is white space
/// alone, and what is left neither starts nor ends in it.
pub proof fn law_names_are_trimmed(text: Seq<char>)
    ensures
        exists|before: Seq<char>, after: Seq<char>|
            {
                &&& text == #[trigger] (before + trimmed(text) + after)
                &&& forall|i: int| 0 <= i < before.len() ==> is_white_space(#[trigger] before[i])
                &&& forall|i: int| 0 <= i < after.len() ==> is_white_space(#[trigger] after[i])
            },
        trimmed(text).len() > 0 ==> !is_white_space(trimmed(text)[0]) && !is_white_space(
            trimmed(text).last(),
        ),
{
    let start = lemma_leading(text);
    let rest = text.skip(start);
    let end = lemma_trailing(rest);
    let before = text.take(start);
    let after = rest.skip(end);
    assert(trimmed(text) == rest.take(end));
    assert(text =~= before + trimmed(text) + after);
}

/// An identity is accepted only with a name that is not blank, and only where it
/// ends after it starts.
pub proof fn law_accepted_identities_last(identity: NewCredentialIdentity)
    requires
        accepted_name(identity) is Ok,
    ensures
        identity.not_before < identity.not_after,
        exists|i: int|
            0 <= i < identity.common_name@.len() && !is_white_space(
                #[trigger] identity.common_name@[i],
            ),
{
    let name = identity.common_name@;
    if forall|i: int| 0 <= i < name.len() ==> is_white_space(#[trigger] name[i]) {
        lemma_all_blank(name);
    }
}

proof fn lemma_all_blank(text: Seq<char>)
    requires
        forall|i: int| 0 <= i < text.len() ==> is_white_space(#[trigger] text[i]),
    ensures
        trimmed(text).len() == 0,
    decreases text.len(),
{
    if text.len() > 0 {
        let rest = text.drop_first();
        assert forall|i: int| 0 <= i < rest.len() implies is_white_space(#[trigger] rest[i]) by {
            assert(rest[i] == text[i + 1]);
        }
        lemma_all_blank(rest);
    }
}

/// A certificate holds from and until the moments that its identity gives, as far as
/// they can be told, and those are told in nanoseconds.
pub proof fn law_a_certificate_holds_as_long_as_its_identity(
    identity: NewCredentialIdentity,
    name: Seq<u8>,
    key: Seq<u8>,
    random: Seq<u8>,
    start: (u64, u32),
    end: (u64, u32),
)
    requires
        start.1 < 1_000_000_000,
        end.1 < 1_000_000_000,
        identity.not_before == start.0 * 1_000_000_000 + start.1,
        identity.not_after == end.0 * 1_000_000_000 + end.1,
    ensures
        certificate_for(identity, name, key, random) == self_signed_certificate(
            name,
            key,
            serial_of(random),
            nanoseconds(start),
            nanoseconds(end),
            KEY_AGREEMENT,
            KEY_ENCIPHERMENT,
        ),
        nanoseconds(start) / 1_000_000_000 == start.0,
        nanoseconds(start) % 1_000_000_000 == start.1,
{
}

} // verus!
