//! A minimal PDF object model and an incremental update writer.

pub mod error;
pub mod laws;
pub mod object;
pub mod pieces;
pub mod readback;
pub mod reopen;
pub mod section;
pub mod tokenizer;
pub mod writer;

pub use error::PdfWriteError;
pub use object::{PdfObject, Real};
pub use tokenizer::PdfTokenizer;
pub use writer::{
    find_startxref_offset, BackPatchContext, IncrementalWriter, PlaceholderOffsets, TrailerDict,
    XRefKind, STARTXREF_SEARCH_WINDOW,
};
