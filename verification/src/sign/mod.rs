//! Signing: credentials, signatures, and the revision that carries one.

pub mod appearance;
pub mod apply;
pub mod cms_builder;
pub mod credential;
pub mod dates;
pub mod der;
pub mod digest;
pub mod document;
pub mod drawn;
pub mod encoded;
pub mod errors;
pub mod gate;
pub mod generate;
pub mod laws;
pub mod mechanism;
pub mod pkcs12;
pub mod plan;
pub mod ranged;
pub mod refusal;
pub mod request;
pub mod revision;
pub mod sealed;
pub mod written;

pub use cms_builder::{
    build_cms, digest_algorithm_for, estimate_cms_size, CmsSignatureInfo, SigningProfile,
};
pub use credential::{Credential, CredentialSummary, PublicKeyInfo};
pub use errors::SigningError;
pub use mechanism::{select_mechanism, DigestAlgorithm, SigningMechanism};
pub use pkcs12::load_pkcs12;
