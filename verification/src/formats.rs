//! The formats that are refused by name, and never as damaged files.

use crate::bytes::utf8;
use crate::images::archive::{refusal_of, unsupported_archive};
use crate::images::names::{equal_letters, extension_of_path, path_extension, same_letters};
use vstd::prelude::*;

verus! {

/// Why a format is refused by name, if it is.
pub open spec fn format_refusal(path: Seq<u8>) -> Option<Seq<char>> {
    match refusal_of(path) {
        Some(text) => Some(text),
        None => match path_extension(path) {
            Some(extension) => if same_letters(extension, utf8("ps"@)) {
                Some("PostScript files (.ps) are not supported; convert the document to PDF"@)
            } else if same_letters(extension, utf8("epub"@)) {
                Some("EPUB books (.epub) are not supported; convert the document to PDF"@)
            } else {
                None
            },
            None => None,
        },
    }
}

/// Why a file of this format is refused by name, if it is.
pub fn unsupported_format(path: &[u8]) -> (refusal: Option<&'static str>)
    ensures
        match refusal {
            Some(text) => format_refusal(path@) == Some(text@),
            None => format_refusal(path@) is None,
        },
{
    if let Some(text) = unsupported_archive(path) {
        return Some(text);
    }
    match extension_of_path(path) {
        Some(extension) => {
            if equal_letters(extension.as_slice(), "ps".as_bytes()) {
                Some("PostScript files (.ps) are not supported; convert the document to PDF")
            } else if equal_letters(extension.as_slice(), "epub".as_bytes()) {
                Some("EPUB books (.epub) are not supported; convert the document to PDF")
            } else {
                None
            }
        },
        None => None,
    }
}

} // verus!
