//! Folders and archives of pictures as documents that pages are drawn from.
//!
//! Reading files is left to the caller: what is to be read is given out, and
//! what was read is taken in.

use crate::formats::{format_refusal, unsupported_format};
use crate::images::cache::{
    added, asked, holds, in_order, key_index, lemma_added, lemma_asked, lemma_forgotten, of_others,
    total, CacheValue, DecodedCache, DecodedKey, MAX_PICTURE_BYTES,
};
use crate::images::decode::{
    about, decodable, decode_at, decoded_of, decoding, dimensions_at, header_of, page_failure, place_hint, place_label,
    whole, Failure, ImageFailure, Picture, PictureValue, DEFAULT_DECODED_BUDGET_BYTES,
};
use crate::images::scale::{frame_of, scale_into};
use crate::images::table::{
    list_fault_text, list_source, listed_pages, place_of, resolution, resolve_source, source_path,
    Listing, PageLocation, PageSource, PageTable, ResolvedSource, SourceValue, TableValue,
};
use crate::pdf::{
    filled_sizes, request_fault, BackendDocumentId, DocumentMetadata, PageSize, PdfError, PdfFault,
    RenderRequest,
};
use crate::sharing::share;
use crate::text::{decimal_text, lossy_utf8, owned, text_from_utf8_lossy};
use std::collections::HashMap;
use std::sync::Arc;
use vstd::prelude::*;

verus! {

/// The open image documents, and the pictures that were decoded last.
#[derive(Debug)]
pub struct ImageBackend {
    documents: HashMap<u64, PageTable>,
    next_id: u64,
    cache: DecodedCache,
}

/// The open image documents, as a value.
#[verifier::ext_equal]
pub struct OpenImages {
    pub tables: Map<u64, TableValue>,
    pub next_id: u64,
    pub cache: CacheValue,
}

impl View for ImageBackend {
    type V = OpenImages;

    closed spec fn view(&self) -> OpenImages {
        OpenImages {
            tables: self.documents@.map_values(|table: PageTable| table@),
            next_id: self.next_id,
            cache: self.cache@,
        }
    }
}

/// What is wrong with opening a path as an image document, if anything.
pub open spec fn opening_fault(source: Seq<u8>, is_dir: bool) -> Option<PdfFault> {
    match format_refusal(source) {
        Some(text) => Some(PdfFault::Open(lossy_utf8(source), text)),
        None => if resolution(source, is_dir) is None {
            Some(
                PdfFault::Open(
                    lossy_utf8(source),
                    "not a directory, a comic archive or a supported image"@,
                ),
            )
        } else {
            None
        },
    }
}

/// Decides what opening a path means for an image document.
pub fn plan_open(source: &[u8], is_dir: bool) -> (planned: Result<ResolvedSource, PdfError>)
    ensures
        match planned {
            Ok(resolved) => opening_fault(source@, is_dir) is None && match resolution(
                source@,
                is_dir,
            ) {
                Some((value, picked)) => resolved.source@ == value && (match resolved.picked {
                    Some(name) => picked == Some(name@),
                    None => picked is None,
                }),
                None => false,
            },
            Err(error) => opening_fault(source@, is_dir) == Some(error@),
        },
{
    if let Some(text) = unsupported_format(source) {
        return Err(PdfError::Open { path: text_from_utf8_lossy(source), reason: owned(text) });
    }
    match resolve_source(source, is_dir) {
        Some(resolved) => Ok(resolved),
        None => Err(
            PdfError::Open {
                path: text_from_utf8_lossy(source),
                reason: owned("not a directory, a comic archive or a supported image"),
            },
        ),
    }
}

/// The sizes of pages `i` and on of what was measured, after those that are
/// known.
pub open spec fn sizes_of(measured: Seq<Option<(u32, u32)>>) -> Seq<PageSize> {
    filled_sizes(|page: int| picture_size(measured[page]), Seq::empty(), measured.len() as int)
}

/// The size of a page from that of a picture.
pub open spec fn picture_size(pixels: Option<(u32, u32)>) -> Option<PageSize> {
    match pixels {
        Some((width, height)) => Some(
            PageSize { width: (width * 1_000) as u64, height: (height * 1_000) as u64 },
        ),
        None => None,
    }
}

/// The sizes of all pages. One that could not be measured takes that of the
/// first; where that one could not, nothing is known.
pub fn fill_sizes(measured: &[Option<(u32, u32)>]) -> (sizes: Vec<PageSize>)
    ensures
        sizes@ == sizes_of(measured@),
{
    let count: usize = measured.len();
    let ghost sizes_at = |page: int| picture_size(measured@[page]);
    let mut sizes: Vec<PageSize> = Vec::new();
    let mut page: usize = 0;
    while page < count
        invariant
            page <= count,
            count == measured@.len(),
            sizes@.len() == page,
            sizes_at == (|p: int| picture_size(measured@[p])),
            filled_sizes(sizes_at, sizes@, count as int) == sizes_of(measured@),
        decreases count - page,
    {
        match measured[page] {
            Some((width, height)) => {
                sizes.push(PageSize { width: width as u64 * 1_000, height: height as u64 * 1_000 });
            },
            None => {
                if sizes.len() == 0 {
                    return Vec::new();
                }
                let first = sizes[0];
                sizes.push(first);
            },
        }
        page += 1;
    }
    sizes
}

/// The shapes of pages from the `n`-th on, after those that are `done`: one that
/// could not be measured takes that of the first, and the first a plain one.
pub open spec fn shapes(
    measured: Seq<Option<(u32, u32)>>,
    done: Seq<PageSize>,
    plain: PageSize,
) -> Seq<PageSize>
    decreases measured.len() - done.len(),
{
    if done.len() >= measured.len() {
        done
    } else {
        shapes(
            measured,
            done.push(
                match picture_size(measured[done.len() as int]) {
                    Some(size) => size,
                    None => if done.len() > 0 {
                        done[0]
                    } else {
                        plain
                    },
                },
            ),
            plain,
        )
    }
}

/// The shape of every page, so that the pages can be laid out: one that could
/// not be measured keeps its place.
pub fn fill_shapes(measured: &[Option<(u32, u32)>], plain: PageSize) -> (out: Vec<PageSize>)
    ensures
        out@ == shapes(measured@, Seq::empty(), plain),
{
    let mut out: Vec<PageSize> = Vec::new();
    let mut page: usize = 0;
    while page < measured.len()
        invariant
            page <= measured@.len(),
            out@.len() == page,
            shapes(measured@, out@, plain) == shapes(measured@, Seq::empty(), plain),
        decreases measured@.len() - page,
    {
        let size = match measured[page] {
            Some((width, height)) => PageSize {
                width: width as u64 * 1_000,
                height: height as u64 * 1_000,
            },
            None => if out.len() > 0 {
                out[0]
            } else {
                plain
            },
        };
        out.push(size);
        page += 1;
    }
    out
}

/// What is needed before a page can be drawn.
#[derive(Debug)]
pub enum Prepared {
    /// The picture was decoded before.
    Ready(Arc<Picture>),
    /// The picture has to be read from here.
    Read { location: PageLocation, key: DecodedKey },
}

/// What is wrong with asking for this page, if anything.
pub open spec fn image_fault(open: OpenImages, request: RenderRequest) -> Option<PdfFault> {
    match request_fault(request) {
        Some(fault) => Some(fault),
        None => page_fault(open, request.document, request.page),
    }
}

/// What is wrong with a page of a document, if anything.
pub open spec fn page_fault(open: OpenImages, document: BackendDocumentId, page: usize) -> Option<
    PdfFault,
> {
    if !open.tables.dom().contains(document.0) {
        Some(PdfFault::Render("unknown document"@))
    } else if page >= open.tables[document.0].entries.len() {
        Some(PdfFault::PageOutOfRange(page as nat, open.tables[document.0].entries.len()))
    } else {
        None
    }
}

/// What a page is kept under once it is decoded.
pub open spec fn key_of(open: OpenImages, request: RenderRequest) -> DecodedKey {
    let entry = open.tables[request.document.0].entries[request.page as int];
    DecodedKey {
        document: request.document.0,
        page: request.page,
        len: entry.len,
        modified: entry.modified,
    }
}

impl ImageBackend {
    /// Is every picture that is kept accounted for, and in order?
    pub closed spec fn well_formed(self) -> bool {
        self.cache.well_formed() && in_order(self.cache@)
    }

    /// A backend with the ordinary budget.
    pub fn new() -> (backend: ImageBackend)
        ensures
            backend.well_formed(),
            backend@.tables == Map::<u64, TableValue>::empty(),
            backend@.next_id == 0,
            backend@.cache == (CacheValue {
                budget: DEFAULT_DECODED_BUDGET_BYTES,
                tick: 0,
                entries: Seq::empty(),
            }),
    {
        ImageBackend::with_budget(DEFAULT_DECODED_BUDGET_BYTES)
    }

    /// A backend that keeps no more than so many bytes of decoded pictures.
    pub fn with_budget(budget: u64) -> (backend: ImageBackend)
        requires
            budget <= u64::MAX - MAX_PICTURE_BYTES,
        ensures
            backend.well_formed(),
            backend@.tables == Map::<u64, TableValue>::empty(),
            backend@.next_id == 0,
            backend@.cache == (CacheValue { budget, tick: 0, entries: Seq::empty() }),
    {
        let backend = ImageBackend {
            documents: HashMap::new(),
            next_id: 0,
            cache: DecodedCache::new(budget),
        };
        assert(total(backend.cache@.entries) == 0);
        assert(backend@.tables =~= Map::empty());
        backend
    }

    /// The pages of an open document.
    pub fn table(&self, document: BackendDocumentId) -> (table: Option<&PageTable>)
        ensures
            match table {
                Some(found) => self@.tables.dom().contains(document.0) && found@
                    == self@.tables[document.0],
                None => !self@.tables.dom().contains(document.0),
            },
    {
        broadcast use vstd::std_specs::hash::group_hash_axioms;

        self.documents.get(&document.0)
    }

    /// Opens a document from what listing its source gave.
    pub fn open(&mut self, source: PageSource, listing: Listing) -> (opened: Result<
        BackendDocumentId,
        PdfError,
    >)
        requires
            old(self).well_formed(),
            old(self)@.next_id < u64::MAX,
        ensures
            final(self).well_formed(),
            final(self)@.cache == old(self)@.cache,
            match opened {
                Ok(document) => {
                    &&& document.0 == old(self)@.next_id + 1
                    &&& final(self)@.next_id == document.0
                    &&& match listed_pages(source_path(source@), listing) {
                        Ok(pages) => final(self)@.tables == old(self)@.tables.insert(
                            document.0,
                            TableValue {
                                source: source@,
                                entries: crate::images::listing::sorted(pages),
                            },
                        ),
                        Err(_) => false,
                    }
                },
                Err(error) => {
                    &&& final(self)@ == old(self)@
                    &&& match listed_pages(source_path(source@), listing) {
                        Ok(_) => false,
                        Err(fault) => error@ == PdfFault::Open(
                            lossy_utf8(source_path(source@)),
                            list_fault_text(fault),
                        ),
                    }
                },
            },
    {
        broadcast use vstd::std_specs::hash::group_hash_axioms;

        let path = text_from_utf8_lossy(source.path());
        let table = match list_source(source, listing) {
            Ok(table) => table,
            Err(error) => {
                return Err(PdfError::Open { path, reason: error.message() });
            },
        };
        let ghost before = self@.tables;
        let ghost value = table@;
        self.next_id = self.next_id + 1;
        self.documents.insert(self.next_id, table);
        assert(self@.tables =~= before.insert(self.next_id, value));
        Ok(BackendDocumentId(self.next_id))
    }

    /// Closes a document, and lets its decoded pictures go.
    pub fn close(&mut self, document: BackendDocumentId)
        requires
            old(self).well_formed(),
        ensures
            final(self).well_formed(),
            final(self)@.tables == old(self)@.tables.remove(document.0),
            final(self)@.next_id == old(self)@.next_id,
            final(self)@.cache == (CacheValue {
                entries: of_others(
                    old(self)@.cache.entries,
                    document.0,
                    old(self)@.cache.entries.len() as int,
                ),
                ..old(self)@.cache
            }),
    {
        broadcast use vstd::std_specs::hash::group_hash_axioms;

        let ghost before = self@.tables;
        let ghost cache = self@.cache;
        self.documents.remove(&document.0);
        self.cache.forget_document(document.0);
        proof {
            assert(self@.tables =~= before.remove(document.0));
            lemma_forgotten(cache, document.0);
        }
    }

    /// What there is to know of a document, from the sizes of its pictures.
    pub fn metadata(&self, document: BackendDocumentId, measured: &[Option<(u32, u32)>]) -> (metadata:
        Result<DocumentMetadata, PdfError>)
        ensures
            match metadata {
                Ok(found) => {
                    let table = self@.tables[document.0];
                    &&& self@.tables.dom().contains(document.0)
                    &&& found.page_count == table.entries.len()
                    &&& found.page_sizes@ == sizes_of(measured@)
                    &&& found.first_page_size == (if sizes_of(measured@).len() > 0 {
                        sizes_of(measured@)[0]
                    } else {
                        PageSize { width: 1_000, height: 1_000 }
                    })
                    &&& !found.page_sizes_sampled
                    &&& found.metadata_text@ == Seq::<char>::empty()
                    &&& found.source_digest == (match table.source {
                        SourceValue::Directory(_) => Some(
                            crate::images::table::digest_value(
                                table.entries,
                                table.entries.len() as int,
                            ),
                        ),
                        SourceValue::Archive(_, _) => None,
                    })
                },
                Err(error) => !self@.tables.dom().contains(document.0) && error@
                    == PdfFault::Render("unknown document"@),
            },
    {
        let table = match self.table(document) {
            Some(table) => table,
            None => {
                return Err(PdfError::Render(owned("unknown document")));
            },
        };
        let page_sizes = fill_sizes(measured);
        let first_page_size = if page_sizes.len() > 0 {
            page_sizes[0]
        } else {
            PageSize { width: 1_000, height: 1_000 }
        };
        let metadata_text = String::new();
        assert(metadata_text@ =~= Seq::<char>::empty());
        Ok(
            DocumentMetadata {
                page_count: table.len(),
                first_page_size,
                page_sizes,
                page_sizes_sampled: false,
                metadata_text,
                source_digest: table.source_digest(),
            },
        )
    }

    /// Where a page is read from, so that it can be measured.
    pub fn page_at(&self, document: BackendDocumentId, page: usize) -> (location: Result<
        PageLocation,
        PdfError,
    >)
        ensures
            match page_fault(self@, document, page) {
                Some(fault) => match location {
                    Ok(_) => false,
                    Err(error) => error@ == fault,
                },
                None => match location {
                    Ok(found) => found@ == place_of(
                        self@.tables[document.0].source,
                        self@.tables[document.0].entries[page as int].name,
                    ),
                    Err(_) => false,
                },
            },
    {
        match self.table(document) {
            Some(table) => match table.locate(page) {
                Some(location) => Ok(location),
                None => Err(PdfError::PageOutOfRange { page, count: table.len() }),
            },
            None => Err(PdfError::Render(owned("unknown document"))),
        }
    }

    /// The size of a page, from what was read of it.
    pub fn page_size(
        &self,
        document: BackendDocumentId,
        page: usize,
        bytes: Result<Vec<u8>, ImageFailure>,
    ) -> (size: Result<PageSize, PdfError>)
        ensures
            match page_fault(self@, document, page) {
                Some(fault) => match size {
                    Ok(_) => false,
                    Err(error) => error@ == fault,
                },
                None => {
                    let place = place_of(
                        self@.tables[document.0].source,
                        self@.tables[document.0].entries[page as int].name,
                    );
                    match bytes {
                        Err(failure) => match size {
                            Ok(_) => false,
                            Err(error) => error@ == page_failure(failure@),
                        },
                        Ok(read) => match (header_of(read@, place_hint(place)), size) {
                            (Ok((width, height)), Ok(found)) => found == (PageSize {
                                width: (width * 1_000) as u64,
                                height: (height * 1_000) as u64,
                            }),
                            (Err(fault), Err(error)) => error@ == page_failure(
                                about(place_label(place), fault),
                            ),
                            _ => false,
                        },
                    }
                },
            },
    {
        let location = match self.page_at(document, page) {
            Ok(location) => location,
            Err(error) => {
                return Err(error);
            },
        };
        match dimensions_at(&location, bytes) {
            Ok((width, height)) => Ok(
                PageSize { width: width as u64 * 1_000, height: height as u64 * 1_000 },
            ),
            Err(failure) => Err(failure.into_pdf_error()),
        }
    }

    /// Decides what a page needs before it can be drawn: nothing where it was
    /// decoded before, unless it is not wanted any more, its bytes.
    pub fn prepare(&mut self, request: &RenderRequest, cancelled: bool) -> (prepared: Result<
        Prepared,
        PdfError,
    >)
        requires
            old(self).well_formed(),
            old(self)@.cache.tick < u64::MAX,
        ensures
            final(self).well_formed(),
            final(self)@.tables == old(self)@.tables,
            final(self)@.next_id == old(self)@.next_id,
            match image_fault(old(self)@, *request) {
                Some(fault) => {
                    &&& final(self)@.cache == old(self)@.cache
                    &&& match prepared {
                        Ok(_) => false,
                        Err(error) => error@ == fault,
                    }
                },
                None => {
                    let key = key_of(old(self)@, *request);
                    let kept = old(self)@.cache.entries;
                    &&& final(self)@.cache == asked(old(self)@.cache, key)
                    &&& if holds(kept, key) {
                        match prepared {
                            Ok(Prepared::Ready(picture)) => {
                                &&& (*picture)@ == kept[key_index(kept, key, 0)].image
                                &&& whole((*picture)@)
                                &&& decodable(picture.width, picture.height)
                            },
                            _ => false,
                        }
                    } else if cancelled {
                        match prepared {
                            Ok(_) => false,
                            Err(error) => error@ == PdfFault::Cancelled,
                        }
                    } else {
                        match prepared {
                            Ok(Prepared::Read { location, key: given }) => given == key
                                && location@ == place_of(
                                old(self)@.tables[request.document.0].source,
                                old(self)@.tables[request.document.0].entries[request.page as int].name,
                            ),
                            _ => false,
                        }
                    }
                },
            },
    {
        if let Err(error) = request.validate() {
            return Err(error);
        }
        let page: usize = request.page;
        let (location, key) = match self.table(request.document) {
            Some(table) => {
                let count: usize = table.len();
                match table.locate(page) {
                    Some(location) => {
                        let entries = table.entries();
                        let entry = &entries[page];
                        assert(table@.entries[page as int] == entry@);
                        let key = DecodedKey {
                            document: request.document.0,
                            page,
                            len: entry.len,
                            modified: entry.modified,
                        };
                        (location, key)
                    },
                    None => {
                        return Err(PdfError::PageOutOfRange { page, count });
                    },
                }
            },
            None => {
                return Err(PdfError::Render(owned("unknown document")));
            },
        };
        proof {
            lemma_asked(self@.cache, key);
        }
        match self.cache.get(&key) {
            Some(picture) => Ok(Prepared::Ready(picture)),
            None => {
                if cancelled {
                    return Err(PdfError::Cancelled);
                }
                Ok(Prepared::Read { location, key })
            },
        }
    }

    /// Decodes a page from its bytes, and keeps it.
    pub fn take_in(
        &mut self,
        key: DecodedKey,
        location: &PageLocation,
        bytes: Result<Vec<u8>, ImageFailure>,
    ) -> (picture: Result<Arc<Picture>, PdfError>)
        requires
            old(self).well_formed(),
            old(self)@.cache.tick < u64::MAX,
        ensures
            final(self).well_formed(),
            final(self)@.tables == old(self)@.tables,
            final(self)@.next_id == old(self)@.next_id,
            match picture {
                Ok(found) => {
                    &&& match bytes {
                        Ok(read) => decoding(
                            place_label(location@),
                            header_of(read@, place_hint(location@)),
                            decoded_of(read@, place_hint(location@)),
                        ) == Ok::<PictureValue, Failure>((*found)@),
                        Err(_) => false,
                    }
                    &&& whole((*found)@)
                    &&& decodable(found.width, found.height)
                    &&& holds(final(self)@.cache.entries, key)
                    &&& final(self)@.cache == added(old(self)@.cache, key, (*found)@)
                },
                Err(error) => {
                    &&& final(self)@ == old(self)@
                    &&& match bytes {
                        Ok(read) => match decoding(
                            place_label(location@),
                            header_of(read@, place_hint(location@)),
                            decoded_of(read@, place_hint(location@)),
                        ) {
                            Ok(_) => false,
                            Err(failure) => error@ == page_failure(failure),
                        },
                        Err(failure) => error@ == page_failure(failure@),
                    }
                },
            },
    {
        let picture = match decode_at(location, bytes) {
            Ok(picture) => picture,
            Err(failure) => {
                return Err(failure.into_pdf_error());
            },
        };
        proof {
            lemma_added(self@.cache, key, picture@);
        }
        let image = Arc::new(picture);
        self.cache.insert(key, share(&image));
        Ok(image)
    }
}

/// Draws a page from its picture, unless it is not wanted any more.
pub fn draw(picture: &Picture, request: &RenderRequest, cancelled: bool, target: &mut [u8]) -> (drawn:
    Result<(), PdfError>)
    requires
        whole(picture@),
        picture.width > 0,
        picture.height > 0,
        picture.width * request.height * 16 <= isize::MAX,
        request.width * request.height * 4 <= isize::MAX,
    ensures
        match drawn {
            Ok(()) => {
                &&& !cancelled
                &&& request.width * request.height * 4 <= old(target)@.len()
                &&& final(target)@ == frame_of(
                    picture@,
                    request.region,
                    request.width,
                    request.height,
                ) + old(target)@.skip(request.width * request.height * 4)
            },
            Err(error) => {
                &&& final(target)@ == old(target)@
                &&& if cancelled {
                    error@ == PdfFault::Cancelled
                } else {
                    &&& old(target)@.len() < request.width * request.height * 4
                    &&& error@ == page_failure(
                        Failure::Undecodable(
                            "<frame>"@,
                            "target holds "@ + decimal_text(old(target)@.len()) + " bytes, needs "@
                                + decimal_text((request.width * request.height * 4) as nat),
                        ),
                    )
                }
            },
        },
{
    if cancelled {
        return Err(PdfError::Cancelled);
    }
    match scale_into(picture, request.region, request.width, request.height, target) {
        Ok(()) => Ok(()),
        Err(failure) => Err(failure.into_pdf_error()),
    }
}

proof fn lemma_shapes(
    measured: Seq<Option<(u32, u32)>>,
    done: Seq<PageSize>,
    plain: PageSize,
    i: int,
)
    requires
        0 <= i < measured.len(),
        done.len() <= measured.len(),
    ensures
        ({
            let all = shapes(measured, done, plain);
            &&& all.len() == measured.len()
            &&& i < done.len() ==> all[i] == done[i]
            &&& i >= done.len() ==> all[i] == (match picture_size(measured[i]) {
                Some(size) => size,
                None => if i > 0 {
                    all[0]
                } else {
                    plain
                },
            })
        }),
    decreases measured.len() - done.len(),
{
    if done.len() < measured.len() {
        let next = done.push(
            match picture_size(measured[done.len() as int]) {
                Some(size) => size,
                None => if done.len() > 0 {
                    done[0]
                } else {
                    plain
                },
            },
        );
        lemma_shapes(measured, next, plain, i);
        lemma_shapes(measured, next, plain, 0);
    }
}

/// A page has the shape of its picture, a thousand to the pixel each way; one that
/// could not be measured has that of the first, and the first a plain one.
pub proof fn law_pages_have_the_shapes_of_their_pictures(
    measured: Seq<Option<(u32, u32)>>,
    plain: PageSize,
    i: int,
)
    requires
        0 <= i < measured.len(),
    ensures
        ({
            let all = shapes(measured, Seq::empty(), plain);
            &&& all.len() == measured.len()
            &&& match measured[i] {
                Some((width, height)) => all[i].width == 1_000 * width && all[i].height == 1_000
                    * height,
                None => all[i] == (if i == 0 {
                    plain
                } else {
                    all[0]
                }),
            }
        }),
{
    lemma_shapes(measured, Seq::empty(), plain, i);
}

/// A picture that was kept is not taken for another: that of another document or
/// page, or one that has another length or time of change by now.
pub proof fn law_a_changed_picture_is_decoded_anew(
    one: OpenImages,
    first: RenderRequest,
    two: OpenImages,
    second: RenderRequest,
)
    requires
        key_of(one, first) == key_of(two, second),
    ensures
        first.document.0 == second.document.0,
        first.page == second.page,
        one.tables[first.document.0].entries[first.page as int].len
            == two.tables[second.document.0].entries[second.page as int].len,
        one.tables[first.document.0].entries[first.page as int].modified
            == two.tables[second.document.0].entries[second.page as int].modified,
{
}

/// A page can be asked for exactly where its document is open and has it.
pub proof fn law_pages_of_open_documents_are_drawn(
    open: OpenImages,
    document: BackendDocumentId,
    page: usize,
)
    ensures
        page_fault(open, document, page) is None <==> open.tables.dom().contains(document.0) && page
            < open.tables[document.0].entries.len(),
{
}

} // verus!
