//! Folders and archives of pictures, shown as documents whose pages they are.

pub mod archive;
pub mod backend;
pub mod cache;
pub mod decode;
pub mod document;
pub mod listing;
pub mod measure;
pub mod names;
pub mod numbered;
pub mod order;
pub mod scale;
pub mod table;
pub mod taped;
pub mod zipped;
