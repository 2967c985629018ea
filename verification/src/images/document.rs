//! A folder or an archive of pictures as a document that is read. Its pages can
//! be turned and drawn; everything else that a PDF document can do is refused,
//! because there is nothing honest to answer.

use crate::formats::{format_refusal, unsupported_format};
use crate::images::backend::{fill_shapes, shapes, Prepared};
use crate::images::cache::{
    added, asked, holds, in_order, key_index, lemma_added, lemma_asked, total, CacheValue,
    DecodedCache, DecodedKey,
};
use crate::images::decode::{
    decodable, decode_at, decoded_of, decoding, failure_text, header_of, place_hint, place_label,
    whole, Failure, ImageFailure, Picture, PictureValue, DEFAULT_DECODED_BUDGET_BYTES,
};
use crate::images::table::{
    place_of, resolution, resolve_source, source_path, PageLocation, PageTable, ResolvedSource,
    TableValue,
};
use crate::pdf::PageSize;
use crate::sharing::share;
use crate::text::{lossy_utf8, owned, push_str, text_from_utf8_lossy};
use std::sync::Arc;
use vstd::prelude::*;

verus! {

/// Why something could not be done with a document.
#[derive(Debug, Clone, PartialEq, Eq)]
pub enum DocumentError {
    Backend(String),
    /// What cannot be done, and why.
    Unsupported(String),
    /// A format that is not read, in a sentence of its own.
    UnsupportedFormat(String),
    NoSuchPage { page: usize, count: usize },
}

/// Why something could not be done, as a value.
pub enum DocumentFault {
    Backend(Seq<char>),
    Unsupported(Seq<char>),
    UnsupportedFormat(Seq<char>),
    NoSuchPage(nat, nat),
}

impl View for DocumentError {
    type V = DocumentFault;

    open spec fn view(&self) -> DocumentFault {
        match self {
            DocumentError::Backend(reason) => DocumentFault::Backend(reason@),
            DocumentError::Unsupported(what) => DocumentFault::Unsupported(what@),
            DocumentError::UnsupportedFormat(text) => DocumentFault::UnsupportedFormat(text@),
            DocumentError::NoSuchPage { page, count } => DocumentFault::NoSuchPage(
                *page as nat,
                *count as nat,
            ),
        }
    }
}

/// Refuses what only a PDF document can do.
pub fn unsupported(what: &str) -> (error: DocumentError)
    ensures
        error@ == DocumentFault::Unsupported(what@ + ": this document is a folder of images"@),
{
    let mut text = owned(what);
    push_str(&mut text, ": this document is a folder of images");
    DocumentError::Unsupported(text)
}

/// Decides what opening a path means for the reader.
pub fn plan_reading(source: &[u8], is_dir: bool) -> (planned: Result<ResolvedSource, DocumentError>)
    ensures
        match planned {
            Ok(resolved) => format_refusal(source@) is None && match resolution(source@, is_dir) {
                Some((value, picked)) => resolved.source@ == value && (match resolved.picked {
                    Some(name) => picked == Some(name@),
                    None => picked is None,
                }),
                None => false,
            },
            Err(error) => match format_refusal(source@) {
                Some(text) => error@ == DocumentFault::UnsupportedFormat(text),
                None => resolution(source@, is_dir) is None && error@ == DocumentFault::Backend(
                    lossy_utf8(source@)
                        + " is not a directory, a comic archive or a supported image"@,
                ),
            },
        },
{
    if let Some(text) = unsupported_format(source) {
        return Err(DocumentError::UnsupportedFormat(owned(text)));
    }
    match resolve_source(source, is_dir) {
        Some(resolved) => Ok(resolved),
        None => {
            let mut reason = text_from_utf8_lossy(source);
            push_str(&mut reason, " is not a directory, a comic archive or a supported image");
            Err(DocumentError::Backend(reason))
        },
    }
}

/// An open image document.
#[derive(Debug)]
pub struct ImageDocument {
    table: PageTable,
    geometry: Vec<PageSize>,
    cache: DecodedCache,
}

impl ImageDocument {
    /// The pages.
    pub closed spec fn pages(self) -> TableValue {
        self.table@
    }

    /// The shapes of the pages.
    pub closed spec fn shape_list(self) -> Seq<PageSize> {
        self.geometry@
    }

    /// The pictures that were decoded last.
    pub closed spec fn kept(self) -> CacheValue {
        self.cache@
    }

    /// Is every picture that is kept accounted for, and in order?
    pub closed spec fn well_formed(self) -> bool {
        self.cache.well_formed() && in_order(self.cache@)
    }

    /// A document with these pages, of which these sizes could be measured;
    /// `plain` is the shape of a page where nothing is known.
    pub fn open(table: PageTable, measured: &[Option<(u32, u32)>], plain: PageSize) -> (document:
        ImageDocument)
        ensures
            document.well_formed(),
            document.pages() == table@,
            document.shape_list() == shapes(measured@, Seq::empty(), plain),
            document.kept() == (CacheValue {
                budget: DEFAULT_DECODED_BUDGET_BYTES,
                tick: 0,
                entries: Seq::empty(),
            }),
    {
        let cache = DecodedCache::default();
        assert(total(cache@.entries) == 0);
        ImageDocument { table, geometry: fill_shapes(measured, plain), cache }
    }

    /// The pages.
    pub fn table(&self) -> (table: &PageTable)
        ensures
            table@ == self.pages(),
    {
        &self.table
    }

    /// The path of the folder or of the archive.
    pub fn path(&self) -> (path: &[u8])
        ensures
            path@ == source_path(self.pages().source),
    {
        self.table.path()
    }

    /// How many pages there are.
    pub fn page_count(&self) -> (count: usize)
        ensures
            count == self.pages().entries.len(),
    {
        self.table.len()
    }

    /// The shape of a page.
    pub fn page_geometry(&self, page: usize) -> (shape: Result<PageSize, DocumentError>)
        ensures
            match shape {
                Ok(found) => page < self.shape_list().len() && found
                    == self.shape_list()[page as int],
                Err(error) => page >= self.shape_list().len() && error@
                    == DocumentFault::NoSuchPage(page as nat, self.shape_list().len()),
            },
    {
        if page < self.geometry.len() {
            Ok(self.geometry[page])
        } else {
            Err(DocumentError::NoSuchPage { page, count: self.geometry.len() })
        }
    }

    /// Decides what a page needs before it can be drawn.
    pub fn prepare(&mut self, page: usize) -> (prepared: Result<Prepared, DocumentError>)
        requires
            old(self).well_formed(),
            old(self).kept().tick < u64::MAX,
        ensures
            final(self).well_formed(),
            final(self).pages() == old(self).pages(),
            final(self).shape_list() == old(self).shape_list(),
            if page >= old(self).pages().entries.len() {
                &&& final(self).kept() == old(self).kept()
                &&& match prepared {
                    Ok(_) => false,
                    Err(error) => error@ == DocumentFault::NoSuchPage(
                        page as nat,
                        old(self).pages().entries.len(),
                    ),
                }
            } else {
                let entry = old(self).pages().entries[page as int];
                let key = DecodedKey {
                    document: 0,
                    page,
                    len: entry.len,
                    modified: entry.modified,
                };
                let kept = old(self).kept().entries;
                &&& final(self).kept() == asked(old(self).kept(), key)
                &&& if holds(kept, key) {
                    match prepared {
                        Ok(Prepared::Ready(picture)) => {
                            &&& (*picture)@ == kept[key_index(kept, key, 0)].image
                            &&& whole((*picture)@)
                            &&& decodable(picture.width, picture.height)
                        },
                        _ => false,
                    }
                } else {
                    match prepared {
                        Ok(Prepared::Read { location, key: given }) => given == key && location@
                            == place_of(old(self).pages().source, entry.name),
                        _ => false,
                    }
                }
            },
    {
        let location = match self.table.locate(page) {
            Some(location) => location,
            None => {
                return Err(DocumentError::NoSuchPage { page, count: self.table.len() });
            },
        };
        let entries = self.table.entries();
        assert(self.table@.entries[page as int] == entries@[page as int]@);
        let key = DecodedKey {
            document: 0,
            page,
            len: entries[page].len,
            modified: entries[page].modified,
        };
        proof {
            lemma_asked(self.cache@, key);
        }
        match self.cache.get(&key) {
            Some(picture) => Ok(Prepared::Ready(picture)),
            None => Ok(Prepared::Read { location, key }),
        }
    }

    /// Decodes a page from its bytes, and keeps it.
    pub fn take_in(
        &mut self,
        key: DecodedKey,
        location: &PageLocation,
        bytes: Result<Vec<u8>, ImageFailure>,
    ) -> (picture: Result<Arc<Picture>, DocumentError>)
        requires
            old(self).well_formed(),
            old(self).kept().tick < u64::MAX,
        ensures
            final(self).well_formed(),
            final(self).pages() == old(self).pages(),
            final(self).shape_list() == old(self).shape_list(),
            match picture {
                Ok(found) => {
                    &&& match bytes {
                        Ok(read) => decoding(
                            place_label(location@),
                            header_of(read@, place_hint(location@)),
                            decoded_of(read@, place_hint(location@)),
                        ) == Ok::<PictureValue, Failure>((*found)@),
                        Err(_) => false,
                    }
                    &&& whole((*found)@)
                    &&& decodable(found.width, found.height)
                    &&& holds(final(self).kept().entries, key)
                    &&& final(self).kept() == added(old(self).kept(), key, (*found)@)
                },
                Err(error) => {
                    &&& final(self).kept() == old(self).kept()
                    &&& match bytes {
                        Ok(read) => match decoding(
                            place_label(location@),
                            header_of(read@, place_hint(location@)),
                            decoded_of(read@, place_hint(location@)),
                        ) {
                            Ok(_) => false,
                            Err(failure) => error@ == DocumentFault::Backend(
                                failure_text(failure),
                            ),
                        },
                        Err(failure) => error@ == DocumentFault::Backend(failure_text(failure@)),
                    }
                },
            },
    {
        let picture = match decode_at(location, bytes) {
            Ok(picture) => picture,
            Err(failure) => {
                return Err(DocumentError::Backend(failure.message()));
            },
        };
        proof {
            lemma_added(self.cache@, key, picture@);
        }
        let image = Arc::new(picture);
        self.cache.insert(key, share(&image));
        Ok(image)
    }
}

} // verus!
