//! Reading PDF structure.

pub mod dictionary;
pub mod filter;
pub mod reals;
pub mod rows;
pub mod value;
pub mod xref;
