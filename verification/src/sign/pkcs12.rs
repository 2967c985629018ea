//! PKCS#12 containers.

use crate::bytes::{occurs_at, same_bytes};
use crate::sign::credential::{
    byte_strings, certificate_of, credential_of, credential_outcome, from_parts,
    law_a_credential_holds_what_it_is_made_of, CertificateFacts, Credential, CredentialFacts,
};
use crate::sign::errors::{SigningError, SigningFault};
use crate::sign::sealed::{find_sealed, opened, sealed_at, unseal};
use crate::text::owned;
use p12_keystore::{KeyStore, KeyStoreEntry, Pkcs12ImportPolicy, PrivateKeyChain};
use vstd::prelude::*;

verus! {

/// Why a container cannot be opened.
pub enum ContainerFailure {
    /// The passphrase does not fit the container.
    Passphrase,
    Unreadable(String),
}

/// What the first key of a container comes with, by value: its alias, the
/// identifier that links it to its certificate, the key in PKCS#8, and the
/// certificates in DER, the signer's first.
pub struct KeyFacts {
    pub alias: Seq<char>,
    pub key_id: Seq<u8>,
    pub key: Seq<u8>,
    pub certificates: Seq<Seq<u8>>,
}

/// What the first key of a container comes with.
pub struct KeyEntry {
    pub alias: String,
    pub key_id: Vec<u8>,
    pub key: Vec<u8>,
    pub certificates: Vec<Vec<u8>>,
}

impl View for KeyEntry {
    type V = KeyFacts;

    open spec fn view(&self) -> KeyFacts {
        KeyFacts {
            alias: self.alias@,
            key_id: self.key_id@,
            key: self.key@,
            certificates: byte_strings(self.certificates@),
        }
    }
}

/// What `p12_keystore::KeyStore::from_pkcs12` and `private_key_chain` find in a
/// container: the first key with what goes with it; nothing where the container
/// holds no key; no reason where the passphrase does not fit; and the error as
/// text otherwise.
pub uninterp spec fn container_contents(data: Seq<u8>, passphrase: Seq<char>) -> Result<
    Option<KeyFacts>,
    Option<Seq<char>>,
>;

/// What was found in a container.
pub open spec fn contents_outcome(result: Result<Option<KeyEntry>, ContainerFailure>) -> Result<
    Option<KeyFacts>,
    Option<Seq<char>>,
> {
    match result {
        Ok(Some(entry)) => Ok(Some(entry@)),
        Ok(None) => Ok(None),
        Err(ContainerFailure::Passphrase) => Err(None),
        Err(ContainerFailure::Unreadable(reason)) => Err(Some(reason@)),
    }
}

/// The identifier of scrypt in DER, 1.3.6.1.4.1.11591.4.11.
pub open spec fn scrypt_oid() -> Seq<u8> {
    seq![6u8, 9, 0x2B, 6, 1, 4, 1, 0xDA, 0x47, 4, 0x0B]
}

/// From `at` on stand the identifier of scrypt and its parameters, whose cost,
/// which follows the salt, is zero.
pub open spec fn zero_cost_at(data: Seq<u8>, at: int) -> bool {
    let salt = at + 15;
    &&& occurs_at(data, scrypt_oid(), at)
    &&& salt <= data.len()
    &&& data[at + 11] == 0x30
    &&& data[at + 13] == 4
    &&& occurs_at(data, seq![2u8, 1, 0], salt + data[at + 14])
}

/// Somewhere in the bytes stand scrypt parameters whose cost is zero.
pub open spec fn names_zero_cost(data: Seq<u8>) -> bool {
    exists|at: int| #[trigger] zero_cost_at(data, at)
}

fn occurs(data: &[u8], needle: &[u8], at: usize) -> (found: bool)
    ensures
        found == occurs_at(data@, needle@, at as int),
{
    if needle.len() > data.len() || at > data.len() - needle.len() {
        return false;
    }
    let part = vstd::slice::slice_subrange(data, at, at + needle.len());
    same_bytes(part, needle)
}

/// Do scrypt parameters whose cost is zero stand somewhere in the bytes?
pub fn has_zero_cost(data: &[u8]) -> (found: bool)
    ensures
        found == names_zero_cost(data@),
{
    let oid: [u8; 11] = [6, 9, 0x2B, 6, 1, 4, 1, 0xDA, 0x47, 4, 0x0B];
    let zero: [u8; 3] = [2, 1, 0];
    assert(oid@ =~= scrypt_oid());
    assert(zero@ =~= seq![2u8, 1, 0]);
    let mut at: usize = 0;
    while at < data.len()
        invariant
            at <= data@.len(),
            oid@ == scrypt_oid(),
            zero@ == seq![2u8, 1, 0],
            forall|i: int| 0 <= i < at ==> !#[trigger] zero_cost_at(data@, i),
        decreases data@.len() - at,
    {
        if occurs(data, &oid, at) && data.len() - at >= 15 && data[at + 11] == 0x30 && data[at
            + 13] == 4 {
            let salt: usize = data[at + 14] as usize;
            if salt <= data.len() - at - 15 && occurs(data, &zero, at + 15 + salt) {
                assert(zero_cost_at(data@, at as int));
                return true;
            }
        }
        at += 1;
    }
    assert forall|i: int| !#[trigger] zero_cost_at(data@, i) by {
        if i < 0 || i >= data@.len() {
            assert(!occurs_at(data@, scrypt_oid(), i));
        }
    }
    false
}

/// A sealed part of a container is opened by the passphrase, and scrypt
/// parameters whose cost is zero stand in it.
pub open spec fn seals_zero_cost_at(data: Seq<u8>, passphrase: Seq<char>, at: int) -> bool {
    sealed_at(data, at) matches Some(part) && opened(part, passphrase) matches Some(plain)
        && names_zero_cost(plain)
}

/// Scrypt parameters whose cost is zero stand in some sealed part of a
/// container, which the passphrase opens.
pub open spec fn seals_zero_cost(data: Seq<u8>, passphrase: Seq<char>) -> bool {
    exists|at: int| 0 <= at < data.len() && #[trigger] seals_zero_cost_at(data, passphrase, at)
}

/// Do scrypt parameters whose cost is zero stand in a sealed part?
pub fn has_sealed_zero_cost(data: &[u8], passphrase: &str) -> (found: bool)
    ensures
        found == seals_zero_cost(data@, passphrase@),
{
    let mut at: usize = 0;
    while at < data.len()
        invariant
            at <= data@.len(),
            forall|i: int| 0 <= i < at ==> !#[trigger] seals_zero_cost_at(data@, passphrase@, i),
        decreases data@.len() - at,
    {
        if let Some(part) = find_sealed(data, at) {
            if let Some(plain) = unseal(&part, passphrase) {
                if has_zero_cost(plain.as_slice()) {
                    assert(seals_zero_cost_at(data@, passphrase@, at as int));
                    return true;
                }
            }
        }
        assert(!seals_zero_cost_at(data@, passphrase@, at as int));
        at += 1;
    }
    false
}

/// `p12_keystore::KeyStore::from_pkcs12`, and `private_key_chain` of what it
/// reads. The derivation of a key by scrypt takes the logarithm of the cost, and
/// panics on a cost of zero, so neither the bytes nor what is in their sealed
/// parts shows one. A sealed part holds no other that is opened.
#[verifier::external_body]
fn open_container(data: &[u8], passphrase: &str) -> (contents: Result<
    Option<KeyEntry>,
    ContainerFailure,
>)
    requires
        !names_zero_cost(data@),
        !seals_zero_cost(data@, passphrase@),
    ensures
        contents_outcome(contents) == container_contents(data@, passphrase@),
{
    let store = KeyStore::from_pkcs12(data, passphrase, Pkcs12ImportPolicy::Strict).map_err(|e| match e {
        p12_keystore::error::Error::MacError(_) => ContainerFailure::Passphrase,
        other => ContainerFailure::Unreadable(format!("{other:?}")),
    })?;
    Ok(store.private_key_chain().map(|(alias, chain)| KeyEntry {
        alias: alias.to_string(),
        key_id: chain.local_key_id().as_ref().to_vec(),
        key: chain.key().as_der().to_vec(),
        certificates: chain.certs().iter().map(|certificate| certificate.as_der().to_vec()).collect(),
    }))
}

/// `p12_keystore::KeyStore::writer`: a container with one key and its
/// certificate, encrypted under a passphrase, from which `from_pkcs12` with that
/// passphrase reads them back, with their alias and their identifier. It draws
/// random numbers, so two containers with the same contents differ; nothing else
/// is stated of the bytes.
#[verifier::external_body]
pub(crate) fn write_container(
    key_id: &[u8],
    alias: &str,
    key: &[u8],
    certificate: &[u8],
    passphrase: &str,
) -> (container: Result<Vec<u8>, String>)
    ensures
        match container {
            Ok(bytes) => container_contents(bytes@, passphrase@) == Ok::<
                Option<KeyFacts>,
                Option<Seq<char>>,
            >(
                Some(
                    KeyFacts {
                        alias: alias@,
                        key_id: key_id@,
                        key: key@,
                        certificates: seq![certificate@],
                    },
                ),
            ),
            Err(_) => true,
        },
{
    let key = p12_keystore::PrivateKey::from_der(key).map_err(|e| format!("{e:?}"))?;
    let certificate = p12_keystore::Certificate::from_der(certificate).map_err(|e| format!("{e:?}"))?;
    let mut store = KeyStore::new();
    store.add_entry(alias, KeyStoreEntry::PrivateKeyChain(PrivateKeyChain::new(key_id, key, [certificate])));
    store.writer(passphrase).write().map_err(|e| format!("{e:?}"))
}

/// The credential that the contents of a container make.
pub open spec fn credential_in(contents: Result<Option<KeyFacts>, Option<Seq<char>>>) -> Result<CredentialFacts, SigningFault> {
    match contents {
        Err(None) => Err(SigningFault::WrongPassphrase),
        Err(Some(reason)) => Err(SigningFault::KeyLoadFailed(reason)),
        Ok(None) => Err(SigningFault::KeyLoadFailed("the container holds no private key"@)),
        Ok(Some(entry)) => if entry.certificates.len() == 0 {
            Err(SigningFault::KeyLoadFailed("the container holds no certificate"@))
        } else {
            credential_of(
                entry.certificates[0],
                entry.key,
                entry.certificates.drop_first(),
            )
        },
    }
}

/// The credential of a container. One that asks for scrypt at a cost of zero,
/// openly or in a sealed part, is refused.
pub open spec fn loaded_credential(data: Seq<u8>, passphrase: Seq<char>) -> Result<
    CredentialFacts,
    SigningFault,
> {
    if names_zero_cost(data) || seals_zero_cost(data, passphrase) {
        Err(SigningFault::KeyLoadFailed("the container asks for scrypt at no cost"@))
    } else {
        credential_in(container_contents(data, passphrase))
    }
}

/// Makes a credential of the contents of a container.
pub fn credential_from_contents(
    contents: Result<Option<KeyEntry>, ContainerFailure>,
) -> (credential: Result<Credential, SigningError>)
    ensures
        credential_outcome(credential) == credential_in(contents_outcome(contents)),
{
    let entry = match contents {
        Ok(Some(entry)) => entry,
        Ok(None) => return Err(
            SigningError::KeyLoadFailed(owned("the container holds no private key")),
        ),
        Err(ContainerFailure::Passphrase) => return Err(SigningError::WrongPassphrase),
        Err(ContainerFailure::Unreadable(reason)) => return Err(
            SigningError::KeyLoadFailed(reason),
        ),
    };
    let key = entry.key;
    let mut certificates = entry.certificates;
    if certificates.len() == 0 {
        return Err(SigningError::KeyLoadFailed(owned("the container holds no certificate")));
    }
    let ghost all = byte_strings(certificates@);
    let signer = certificates.remove(0);
    proof {
        assert(signer@ == all[0]);
        assert(byte_strings(certificates@) =~= all.drop_first());
    }
    from_parts(signer.as_slice(), key.as_slice(), certificates)
}

/// Loads the credential of a PKCS#12 container.
pub fn load_pkcs12_impl(pkcs12_data: &[u8], passphrase: &str) -> (credential: Result<
    Credential,
    SigningError,
>)
    ensures
        credential_outcome(credential) == loaded_credential(pkcs12_data@, passphrase@),
{
    if has_zero_cost(pkcs12_data) || has_sealed_zero_cost(pkcs12_data, passphrase) {
        return Err(
            SigningError::KeyLoadFailed(owned("the container asks for scrypt at no cost")),
        );
    }
    credential_from_contents(open_container(pkcs12_data, passphrase))
}

/// Loads the credential of a PKCS#12 container.
pub fn load_pkcs12(pkcs12_data: &[u8], passphrase: &str) -> (credential: Result<
    Credential,
    SigningError,
>)
    ensures
        credential_outcome(credential) == loaded_credential(pkcs12_data@, passphrase@),
{
    load_pkcs12_impl(pkcs12_data, passphrase)
}

/// Scrypt parameters whose cost is zero are noticed wherever they stand, whatever
/// their salt and whatever follows the cost.
pub proof fn law_a_cost_of_zero_is_noticed(
    before: Seq<u8>,
    length: u8,
    salt: Seq<u8>,
    after: Seq<u8>,
)
    requires
        salt.len() < 128,
    ensures
        names_zero_cost(
            before + scrypt_oid() + seq![0x30u8, length, 4u8, salt.len() as u8] + salt + seq![
                2u8,
                1u8,
                0u8,
            ] + after,
        ),
{
    let head = seq![0x30u8, length, 4u8, salt.len() as u8];
    let cost = seq![2u8, 1u8, 0u8];
    let data = before + scrypt_oid() + head + salt + cost + after;
    let at = before.len() as int;
    assert(data.subrange(at, at + 11) =~= scrypt_oid());
    assert(data[at + 11] == head[0]);
    assert(data[at + 13] == head[2]);
    assert(data[at + 14] == head[3]);
    let place = at + 15 + salt.len();
    assert(data.subrange(place, place + 3) =~= cost);
    assert(zero_cost_at(data, at));
}

/// The credential of a container has the key that is in it, and is that of the first
/// certificate there; the others are its chain.
pub proof fn law_the_first_certificate_is_the_signers(
    contents: Result<Option<KeyFacts>, Option<Seq<char>>>,
)
    ensures
        credential_in(contents) matches Ok(made) ==> (contents matches Ok(Some(entry)) && {
            &&& entry.certificates.len() > 0
            &&& made.key == entry.key
            &&& certificate_of(entry.certificates[0]) == Ok::<CertificateFacts, Seq<char>>(
                made.signer,
            )
            &&& made.chain.len() < entry.certificates.len()
            &&& forall|i: int|
                0 <= i < made.chain.len() ==> exists|k: int|
                    1 <= k < entry.certificates.len() && certificate_of(
                        #[trigger] entry.certificates[k],
                    ) == Ok::<CertificateFacts, Seq<char>>(#[trigger] made.chain[i])
        }),
        contents == Err::<Option<KeyFacts>, Option<Seq<char>>>(None) <==> credential_in(contents)
            == Err::<CredentialFacts, SigningFault>(SigningFault::WrongPassphrase),
{
    if let Ok(Some(entry)) = contents {
        if entry.certificates.len() > 0 {
            let rest = entry.certificates.drop_first();
            law_a_credential_holds_what_it_is_made_of(entry.certificates[0], entry.key, rest);
            if let Ok(made) = credential_in(contents) {
                assert forall|i: int| 0 <= i < made.chain.len() implies exists|k: int|
                    1 <= k < entry.certificates.len() && certificate_of(
                        #[trigger] entry.certificates[k],
                    ) == Ok::<CertificateFacts, Seq<char>>(#[trigger] made.chain[i]) by {
                    let k = choose|k: int|
                        0 <= k < rest.len() && certificate_of(#[trigger] rest[k]) == Ok::<
                            CertificateFacts,
                            Seq<char>,
                        >(made.chain[i]);
                    assert(entry.certificates[k + 1] == rest[k]);
                }
            }
        }
    }
}

} // verus!
