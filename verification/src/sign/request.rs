//! What is asked of a signing operation, and what it reports.

use crate::sign::appearance::SignAppearance;
use crate::sign::cms_builder::SigningProfile;
use vstd::prelude::*;

verus! {

/// Which field carries the signature.
#[derive(Debug, Clone, PartialEq, Eq)]
pub enum SignTarget {
    /// A new field. It changes the form and a page, so it is added only to a
    /// document without signatures.
    NewInvisibleField {
        /// The name of the field; a free `SignatureN` is taken when there is
        /// none.
        name: Option<String>,
    },
    /// A field that is there and empty.
    ExistingField(String),
}

/// What is asked of one signing operation.
#[derive(Debug, Clone)]
pub struct SignRequest {
    pub profile: SigningProfile,
    /// The time that the signature claims, in seconds since the start of 1970.
    pub signing_time: i64,
    pub field: SignTarget,
    pub reason: Option<String>,
    pub location: Option<String>,
    pub contact: Option<String>,
    /// The second half of the identifier that the trailer gets.
    pub id2: [u8; 16],
    /// Reserve no more room than the estimate.
    pub tight_size_estimates: bool,
    /// What the signature looks like; it is invisible when there is none.
    pub appearance: Option<SignAppearance>,
}

impl Default for SignRequest {
    fn default() -> (request: Self)
        ensures
            request.profile == SigningProfile::AdbePkcs7Detached,
            request.signing_time == 0,
            request.field == (SignTarget::NewInvisibleField { name: None }),
            request.reason is None,
            request.location is None,
            request.contact is None,
            forall|i: int| 0 <= i < 16 ==> #[trigger] request.id2@[i] == 0,
            !request.tight_size_estimates,
            request.appearance is None,
    {
        SignRequest {
            profile: SigningProfile::AdbePkcs7Detached,
            signing_time: 0,
            field: SignTarget::NewInvisibleField { name: None },
            reason: None,
            location: None,
            contact: None,
            id2: [0u8; 16],
            tight_size_estimates: false,
            appearance: None,
        }
    }
}

/// What a signing operation did.
#[derive(Debug, Clone, PartialEq, Eq)]
pub struct SignReport {
    /// The field that carries the signature.
    pub field_name: String,
    /// How many signatures the document has now.
    pub signature_count: usize,
    /// How many hexadecimal digits were reserved for the signature.
    pub bytes_reserved: usize,
    /// How many bytes the signature has.
    pub cms_len: usize,
    /// 1, or 2 where the first reservation was too small.
    pub attempts: usize,
    /// How many bytes the signed document has.
    pub output_len: u64,
    /// The field has a seed value, which was ignored.
    pub seed_value_ignored: bool,
}

} // verus!
