//! Which digest and which signature algorithm a key calls for.

use crate::sign::credential::PublicKeyInfo;
use crate::sign::errors::{SigningError, SigningFault};
use crate::text::owned;
use vstd::prelude::*;

verus! {

/// The digest algorithms that signatures are made with.
#[derive(Debug, Clone, Copy, PartialEq, Eq, Structural)]
pub enum DigestAlgorithm {
    Sha256,
    Sha384,
    Sha512,
}

impl DigestAlgorithm {
    /// The name of the algorithm.
    pub open spec fn label(self) -> Seq<char> {
        match self {
            DigestAlgorithm::Sha256 => "sha256"@,
            DigestAlgorithm::Sha384 => "sha384"@,
            DigestAlgorithm::Sha512 => "sha512"@,
        }
    }

    /// The object identifier of the algorithm.
    pub open spec fn identifier(self) -> Seq<char> {
        match self {
            DigestAlgorithm::Sha256 => "2.16.840.1.101.3.4.2.1"@,
            DigestAlgorithm::Sha384 => "2.16.840.1.101.3.4.2.2"@,
            DigestAlgorithm::Sha512 => "2.16.840.1.101.3.4.2.3"@,
        }
    }

    /// How many bytes a digest has.
    pub open spec fn length(self) -> nat {
        match self {
            DigestAlgorithm::Sha256 => 32,
            DigestAlgorithm::Sha384 => 48,
            DigestAlgorithm::Sha512 => 64,
        }
    }

    fn name(&self) -> (name: String)
        ensures
            name@ == self.label(),
    {
        match self {
            DigestAlgorithm::Sha256 => owned("sha256"),
            DigestAlgorithm::Sha384 => owned("sha384"),
            DigestAlgorithm::Sha512 => owned("sha512"),
        }
    }

    /// The object identifier of the algorithm.
    pub fn oid(&self) -> (oid: &'static str)
        ensures
            oid@ == self.identifier(),
    {
        match self {
            DigestAlgorithm::Sha256 => "2.16.840.1.101.3.4.2.1",
            DigestAlgorithm::Sha384 => "2.16.840.1.101.3.4.2.2",
            DigestAlgorithm::Sha512 => "2.16.840.1.101.3.4.2.3",
        }
    }

    /// How many bytes a digest has.
    pub fn hash_len(&self) -> (length: usize)
        ensures
            length == self.length(),
    {
        match self {
            DigestAlgorithm::Sha256 => 32,
            DigestAlgorithm::Sha384 => 48,
            DigestAlgorithm::Sha512 => 64,
        }
    }

    /// The digest that an RSA key of this size calls for.
    pub fn select_for_rsa_bits(bits: usize) -> (digest: Result<DigestAlgorithm, SigningError>)
        ensures
            digest == Ok::<DigestAlgorithm, SigningError>(rsa_digest(bits as nat)),
    {
        if bits <= 2048 {
            Ok(DigestAlgorithm::Sha256)
        } else if bits <= 3072 {
            Ok(DigestAlgorithm::Sha384)
        } else {
            Ok(DigestAlgorithm::Sha512)
        }
    }

    /// The digest that an elliptic-curve key of this size calls for.
    pub fn select_for_ec_bits(bits: usize) -> (digest: Result<DigestAlgorithm, SigningError>)
        ensures
            digest == Ok::<DigestAlgorithm, SigningError>(ec_digest(bits as nat)),
    {
        if bits <= 256 {
            Ok(DigestAlgorithm::Sha256)
        } else if bits <= 384 {
            Ok(DigestAlgorithm::Sha384)
        } else {
            Ok(DigestAlgorithm::Sha512)
        }
    }
}

/// The digest that an RSA key of this size calls for.
pub open spec fn rsa_digest(bits: nat) -> DigestAlgorithm {
    if bits <= 2048 {
        DigestAlgorithm::Sha256
    } else if bits <= 3072 {
        DigestAlgorithm::Sha384
    } else {
        DigestAlgorithm::Sha512
    }
}

/// The digest that an elliptic-curve key of this size calls for.
pub open spec fn ec_digest(bits: nat) -> DigestAlgorithm {
    if bits <= 256 {
        DigestAlgorithm::Sha256
    } else if bits <= 384 {
        DigestAlgorithm::Sha384
    } else {
        DigestAlgorithm::Sha512
    }
}

/// How a signature is made.
#[derive(Debug, Clone, Copy, PartialEq, Eq, Structural)]
pub enum SigningMechanism {
    /// PKCS#1 v1.5 with SHA-256.
    Rsa2048Sha256,
    /// PKCS#1 v1.5 with SHA-384.
    Rsa3072Sha384,
    /// PKCS#1 v1.5 with SHA-512.
    Rsa4096Sha512,
    EcdsaP256Sha256,
    EcdsaP384Sha384,
    EcdsaP521Sha512,
    /// Ed25519, whose digest is always SHA-512.
    Ed25519,
}

impl SigningMechanism {
    /// The digest that the mechanism uses.
    pub open spec fn digest(self) -> DigestAlgorithm {
        match self {
            SigningMechanism::Rsa2048Sha256 => DigestAlgorithm::Sha256,
            SigningMechanism::Rsa3072Sha384 => DigestAlgorithm::Sha384,
            SigningMechanism::Rsa4096Sha512 => DigestAlgorithm::Sha512,
            SigningMechanism::EcdsaP256Sha256 => DigestAlgorithm::Sha256,
            SigningMechanism::EcdsaP384Sha384 => DigestAlgorithm::Sha384,
            SigningMechanism::EcdsaP521Sha512 => DigestAlgorithm::Sha512,
            SigningMechanism::Ed25519 => DigestAlgorithm::Sha512,
        }
    }

    /// Does the mechanism sign with RSA?
    pub open spec fn is_rsa(self) -> bool {
        self == SigningMechanism::Rsa2048Sha256 || self == SigningMechanism::Rsa3072Sha384 || self
            == SigningMechanism::Rsa4096Sha512
    }

    /// The object identifier of the signature algorithm.
    pub open spec fn identifier(self) -> Seq<char> {
        match self {
            SigningMechanism::Rsa2048Sha256 => "1.2.840.113549.1.1.11"@,
            SigningMechanism::Rsa3072Sha384 => "1.2.840.113549.1.1.12"@,
            SigningMechanism::Rsa4096Sha512 => "1.2.840.113549.1.1.13"@,
            SigningMechanism::EcdsaP256Sha256 => "1.2.840.10045.4.3.2"@,
            SigningMechanism::EcdsaP384Sha384 => "1.2.840.10045.4.3.3"@,
            SigningMechanism::EcdsaP521Sha512 => "1.2.840.10045.4.3.4"@,
            SigningMechanism::Ed25519 => "1.3.101.112"@,
        }
    }

    /// The digest that the mechanism uses.
    pub fn digest_algorithm(&self) -> (digest: DigestAlgorithm)
        ensures
            digest == self.digest(),
    {
        match self {
            SigningMechanism::Rsa2048Sha256
            | SigningMechanism::EcdsaP256Sha256 => DigestAlgorithm::Sha256,
            SigningMechanism::Rsa3072Sha384
            | SigningMechanism::EcdsaP384Sha384 => DigestAlgorithm::Sha384,
            SigningMechanism::Rsa4096Sha512
            | SigningMechanism::EcdsaP521Sha512 => DigestAlgorithm::Sha512,
            SigningMechanism::Ed25519 => DigestAlgorithm::Sha512,
        }
    }

    /// The object identifier of the signature algorithm.
    pub fn signature_algorithm_oid(&self) -> (oid: &'static str)
        ensures
            oid@ == self.identifier(),
    {
        match self {
            SigningMechanism::Rsa2048Sha256 => "1.2.840.113549.1.1.11",
            SigningMechanism::Rsa3072Sha384 => "1.2.840.113549.1.1.12",
            SigningMechanism::Rsa4096Sha512 => "1.2.840.113549.1.1.13",
            SigningMechanism::EcdsaP256Sha256 => "1.2.840.10045.4.3.2",
            SigningMechanism::EcdsaP384Sha384 => "1.2.840.10045.4.3.3",
            SigningMechanism::EcdsaP521Sha512 => "1.2.840.10045.4.3.4",
            SigningMechanism::Ed25519 => "1.3.101.112",
        }
    }

    /// How many bytes a signature is expected to have.
    pub fn signature_length(&self) -> (length: usize)
        ensures
            length == match *self {
                SigningMechanism::Rsa2048Sha256 => 256usize,
                SigningMechanism::Rsa3072Sha384 => 384,
                SigningMechanism::Rsa4096Sha512 => 512,
                SigningMechanism::EcdsaP256Sha256 => 72,
                SigningMechanism::EcdsaP384Sha384 => 104,
                SigningMechanism::EcdsaP521Sha512 => 140,
                SigningMechanism::Ed25519 => 64,
            },
    {
        match self {
            SigningMechanism::Rsa2048Sha256 => 256,
            SigningMechanism::Rsa3072Sha384 => 384,
            SigningMechanism::Rsa4096Sha512 => 512,
            SigningMechanism::EcdsaP256Sha256 => 72,
            SigningMechanism::EcdsaP384Sha384 => 104,
            SigningMechanism::EcdsaP521Sha512 => 140,
            SigningMechanism::Ed25519 => 64,
        }
    }
}

/// The mechanism of a key that leaves no choice of digest.
pub open spec fn fixed_mechanism(key: PublicKeyInfo) -> SigningMechanism {
    match key {
        PublicKeyInfo::EcP256 => SigningMechanism::EcdsaP256Sha256,
        PublicKeyInfo::EcP384 => SigningMechanism::EcdsaP384Sha384,
        PublicKeyInfo::EcP521 => SigningMechanism::EcdsaP521Sha512,
        _ => SigningMechanism::Ed25519,
    }
}

/// The mechanism of an RSA key with a digest.
pub open spec fn rsa_mechanism(digest: DigestAlgorithm) -> SigningMechanism {
    match digest {
        DigestAlgorithm::Sha256 => SigningMechanism::Rsa2048Sha256,
        DigestAlgorithm::Sha384 => SigningMechanism::Rsa3072Sha384,
        DigestAlgorithm::Sha512 => SigningMechanism::Rsa4096Sha512,
    }
}

/// The mechanism for a key: an RSA key takes the digest that was asked for, or
/// the one that its size calls for; every other key has one digest of its own,
/// and any other request is refused.
pub open spec fn mechanism_for(key: PublicKeyInfo, requested: Option<DigestAlgorithm>) -> Result<
    SigningMechanism,
    SigningFault,
> {
    match key {
        PublicKeyInfo::Rsa { bits } => Ok(
            rsa_mechanism(
                match requested {
                    Some(digest) => digest,
                    None => rsa_digest(bits as nat),
                },
            ),
        ),
        _ => match requested {
            Some(digest) if digest != fixed_mechanism(key).digest() => Err(
                SigningFault::DigestMechanismMismatch {
                    implied: fixed_mechanism(key).digest().label(),
                    requested: digest.label(),
                },
            ),
            _ => Ok(fixed_mechanism(key)),
        },
    }
}

/// What was selected, or the fault.
pub open spec fn selection(result: Result<SigningMechanism, SigningError>) -> Result<
    SigningMechanism,
    SigningFault,
> {
    match result {
        Ok(mechanism) => Ok(mechanism),
        Err(error) => Err(error@),
    }
}

/// The digest of the mechanism for a key is the one that was asked for.
pub proof fn law_the_requested_digest_is_used(key: PublicKeyInfo, requested: DigestAlgorithm)
    ensures
        mechanism_for(key, Some(requested)) matches Ok(mechanism) ==> mechanism.digest()
            == requested,
{
}

/// Without a request every key has a mechanism.
pub proof fn law_every_key_has_a_mechanism(key: PublicKeyInfo)
    ensures
        mechanism_for(key, None) is Ok,
        key matches PublicKeyInfo::Rsa { bits } ==> mechanism_for(key, None)->Ok_0.digest()
            == rsa_digest(bits as nat),
{
}

fn only(
    mechanism: SigningMechanism,
    requested_digest: Option<DigestAlgorithm>,
) -> (selected: Result<SigningMechanism, SigningError>)
    ensures
        selection(selected) == match requested_digest {
            Some(digest) if digest != mechanism.digest() => Err::<SigningMechanism, SigningFault>(
                SigningFault::DigestMechanismMismatch {
                    implied: mechanism.digest().label(),
                    requested: digest.label(),
                },
            ),
            _ => Ok(mechanism),
        },
{
    if let Some(requested) = requested_digest {
        let implied = mechanism.digest_algorithm();
        if requested != implied {
            return Err(
                SigningError::DigestMechanismMismatch {
                    implied: implied.name(),
                    requested: requested.name(),
                },
            );
        }
    }
    Ok(mechanism)
}

/// Selects the mechanism for a key, with the digest that was asked for if one
/// was.
pub fn select_mechanism(
    pub_key_info: &PublicKeyInfo,
    requested_digest: Option<DigestAlgorithm>,
) -> (selected: Result<SigningMechanism, SigningError>)
    ensures
        selection(selected) == mechanism_for(*pub_key_info, requested_digest),
{
    match pub_key_info {
        PublicKeyInfo::Rsa { bits } => {
            let digest = match requested_digest {
                Some(digest) => digest,
                None => match DigestAlgorithm::select_for_rsa_bits(*bits) {
                    Ok(digest) => digest,
                    Err(error) => return Err(error),
                },
            };
            match digest {
                DigestAlgorithm::Sha256 => Ok(SigningMechanism::Rsa2048Sha256),
                DigestAlgorithm::Sha384 => Ok(SigningMechanism::Rsa3072Sha384),
                DigestAlgorithm::Sha512 => Ok(SigningMechanism::Rsa4096Sha512),
            }
        },
        PublicKeyInfo::EcP256 => only(SigningMechanism::EcdsaP256Sha256, requested_digest),
        PublicKeyInfo::EcP384 => only(SigningMechanism::EcdsaP384Sha384, requested_digest),
        PublicKeyInfo::EcP521 => only(SigningMechanism::EcdsaP521Sha512, requested_digest),
        PublicKeyInfo::Ed25519 => only(SigningMechanism::Ed25519, requested_digest),
    }
}

/// A larger key never calls for a shorter digest, and the digest of a curve has
/// as many bits as the security of its coordinates asks for.
pub proof fn law_larger_keys_take_longer_digests(small: nat, large: nat)
    requires
        small <= large,
    ensures
        rsa_digest(small).length() <= rsa_digest(large).length(),
        ec_digest(small).length() <= ec_digest(large).length(),
        ec_digest(small).length() * 8 >= small || ec_digest(small) == DigestAlgorithm::Sha512,
        small > 32 ==> ec_digest((small - 1) as nat) != ec_digest(small) ==> ec_digest(
            (small - 1) as nat,
        ).length() * 8 == small - 1,
{
}

/// A curve signs with the digest that its size calls for, whatever is asked for, and
/// no two kinds of key that leave no choice sign in the same way.
pub proof fn law_a_curve_signs_with_its_own_digest(one: PublicKeyInfo, two: PublicKeyInfo)
    requires
        !(one is Rsa),
        !(two is Rsa),
    ensures
        one.size() matches Some(bits) ==> fixed_mechanism(one).digest() == ec_digest(bits as nat),
        !fixed_mechanism(one).is_rsa(),
        fixed_mechanism(one) == fixed_mechanism(two) ==> one == two,
{
}

} // verus!
