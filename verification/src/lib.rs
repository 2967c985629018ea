//! Rendering, reading and signing documents.

pub mod bytes;
pub mod formats;
pub mod images;
pub mod number;
pub mod pdf;
pub mod outlinelinks;
pub mod outlineread;
pub mod pagetree;
pub mod pdfoutline;
pub mod pdfread;
pub mod pdftext;
pub mod pdfwrite;
pub mod protocol;
pub mod sharing;
pub mod shm;
pub mod sign;
pub mod text;
pub mod zip_reader;
