//! What is done with PDF documents beside drawing them, and what a drawn page
//! is asked for and given as.

use crate::images::table::MAX_TRACKED_PAGE_SIZES;
use crate::pdf::capabilities::{DocumentEvidence, FormType};
use crate::pdfoutline::Outline;
use crate::text::{decimal_text, owned, push_decimal, push_str};
use std::sync::atomic::AtomicBool;
use vstd::prelude::*;

pub mod capabilities;
pub mod fixture;
pub mod overlays;
pub mod paths;
pub mod pdfium;
pub mod router;
pub mod search;
pub mod synth;
pub mod synthread;

verus! {

/// Why a document could not be opened, or a page not drawn.
#[derive(Debug, Clone, PartialEq, Eq)]
pub enum PdfError {
    Unavailable(String),
    Open { path: String, reason: String },
    PageOutOfRange { page: usize, count: usize },
    Render(String),
    Cancelled,
    Invalid(String),
    Unsupported(&'static str),
}

/// A drawing error, as a value.
pub enum PdfFault {
    Unavailable(Seq<char>),
    Open(Seq<char>, Seq<char>),
    PageOutOfRange(nat, nat),
    Render(Seq<char>),
    Cancelled,
    Invalid(Seq<char>),
    Unsupported(Seq<char>),
}

impl View for PdfError {
    type V = PdfFault;

    open spec fn view(&self) -> PdfFault {
        match self {
            PdfError::Unavailable(reason) => PdfFault::Unavailable(reason@),
            PdfError::Open { path, reason } => PdfFault::Open(path@, reason@),
            PdfError::PageOutOfRange { page, count } => PdfFault::PageOutOfRange(
                *page as nat,
                *count as nat,
            ),
            PdfError::Render(reason) => PdfFault::Render(reason@),
            PdfError::Cancelled => PdfFault::Cancelled,
            PdfError::Invalid(reason) => PdfFault::Invalid(reason@),
            PdfError::Unsupported(what) => PdfFault::Unsupported(what@),
        }
    }
}

/// How a drawing error is worded.
pub open spec fn fault_text(fault: PdfFault) -> Seq<char> {
    match fault {
        PdfFault::Unavailable(reason) => "the PDF backend is unavailable: "@ + reason,
        PdfFault::Open(path, reason) => "cannot open "@ + path + ": "@ + reason,
        PdfFault::PageOutOfRange(page, count) => "page "@ + decimal_text(page)
            + " is out of range ("@ + decimal_text(count) + " pages)"@,
        PdfFault::Render(reason) => "render failed: "@ + reason,
        PdfFault::Cancelled => "render was cancelled"@,
        PdfFault::Invalid(reason) => "invalid request: "@ + reason,
        PdfFault::Unsupported(what) => "this backend cannot "@ + what,
    }
}

fn worded(start: &str, rest: &str) -> (text: String)
    ensures
        text@ == start@ + rest@,
{
    let mut text = owned(start);
    push_str(&mut text, rest);
    text
}

impl PdfError {
    /// The error in words.
    pub fn message(&self) -> (text: String)
        ensures
            text@ == fault_text(self@),
    {
        match self {
            PdfError::Unavailable(reason) => worded(
                "the PDF backend is unavailable: ",
                reason.as_str(),
            ),
            PdfError::Open { path, reason } => {
                let mut text = worded("cannot open ", path.as_str());
                push_str(&mut text, ": ");
                push_str(&mut text, reason.as_str());
                text
            },
            PdfError::PageOutOfRange { page, count } => {
                let mut text = owned("page ");
                push_decimal(&mut text, *page as u64);
                push_str(&mut text, " is out of range (");
                push_decimal(&mut text, *count as u64);
                push_str(&mut text, " pages)");
                text
            },
            PdfError::Render(reason) => worded("render failed: ", reason.as_str()),
            PdfError::Cancelled => owned("render was cancelled"),
            PdfError::Invalid(reason) => worded("invalid request: ", reason.as_str()),
            PdfError::Unsupported(what) => worded("this backend cannot ", what),
        }
    }
}

/// What a worker says before it gives up because it has no drawing library.
pub open spec fn missing_library_text(reason: Seq<char>) -> Seq<char> {
    "pulpit cannot render: libpdfium was not found.\n"@ + "\n"@
        + "PDFium is loaded at run time, so this is an installation problem, not\n"@
        + "a build one. Fixes, in order of preference:\n"@ + "\n"@
        + "  Nix / NixOS    use the packaged build, which points the binary at a\n"@
        + "                 pinned PDFium:   nix run <flake> -- deck.pdf\n"@
        + "  Debian / RPM   install the pulpit package, which carries the pinned\n"@
        + "                 library in <prefix>/lib/pulpit\n"@
        + "  From source    ./scripts/fetch-pdfium.sh   (pinned, hash-verified)\n"@
        + "  Anywhere       PULPIT_PDFIUM_PATH=/dir/with/libpdfium pulpit deck.pdf\n"@ + "\n"@
        + "Tried: "@ + reason
}

/// What a worker says before it gives up because it has no drawing library.
/// The list of places that were tried is the most useful part of it.
pub fn missing_pdfium_message(reason: &str) -> (text: String)
    ensures
        text@ == missing_library_text(reason@),
{
    let mut text = owned("pulpit cannot render: libpdfium was not found.\n");
    push_str(&mut text, "\n");
    push_str(&mut text, "PDFium is loaded at run time, so this is an installation problem, not\n");
    push_str(&mut text, "a build one. Fixes, in order of preference:\n");
    push_str(&mut text, "\n");
    push_str(&mut text, "  Nix / NixOS    use the packaged build, which points the binary at a\n");
    push_str(&mut text, "                 pinned PDFium:   nix run <flake> -- deck.pdf\n");
    push_str(&mut text, "  Debian / RPM   install the pulpit package, which carries the pinned\n");
    push_str(&mut text, "                 library in <prefix>/lib/pulpit\n");
    push_str(&mut text, "  From source    ./scripts/fetch-pdfium.sh   (pinned, hash-verified)\n");
    push_str(
        &mut text,
        "  Anywhere       PULPIT_PDFIUM_PATH=/dir/with/libpdfium pulpit deck.pdf\n",
    );
    push_str(&mut text, "\n");
    push_str(&mut text, "Tried: ");
    push_str(&mut text, reason);
    text
}

/// A document that a backend holds open.
#[derive(Debug, Clone, Copy, PartialEq, Eq, Hash, Structural)]
pub struct BackendDocumentId(pub u64);

/// A part of a page, in millionths of its width and height from the top left.
#[derive(Debug, Clone, Copy, PartialEq, Eq, Structural)]
pub struct Region {
    pub x: u32,
    pub y: u32,
    pub width: u32,
    pub height: u32,
}

/// The region that is the whole page.
pub open spec fn full_region() -> Region {
    Region { x: 0, y: 0, width: 1_000_000, height: 1_000_000 }
}

/// Does a region have a size, and lie on the page?
pub open spec fn on_page(region: Region) -> bool {
    &&& region.width > 0
    &&& region.height > 0
    &&& region.x + region.width <= 1_000_000
    &&& region.y + region.height <= 1_000_000
}

impl Region {
    /// A part of a page.
    pub fn new(x: u32, y: u32, width: u32, height: u32) -> (region: Region)
        ensures
            region == (Region { x, y, width, height }),
    {
        Region { x, y, width, height }
    }

    /// The whole page.
    pub fn full() -> (region: Region)
        ensures
            region == full_region(),
    {
        Region { x: 0, y: 0, width: 1_000_000, height: 1_000_000 }
    }

    /// Is this the whole page?
    pub fn is_full(&self) -> (full: bool)
        ensures
            full == (*self == full_region()),
    {
        self.x == 0 && self.y == 0 && self.width == 1_000_000 && self.height == 1_000_000
    }

    /// Does the region have a size, and lie on the page?
    pub fn is_valid(&self) -> (valid: bool)
        ensures
            valid == on_page(*self),
    {
        self.width > 0 && self.height > 0 && self.x <= 1_000_000 && self.width <= 1_000_000
            - self.x && self.y <= 1_000_000 && self.height <= 1_000_000 - self.y
    }
}

/// The size of a page, in thousandths of a point; for a picture, of a pixel.
#[derive(Debug, Clone, Copy, PartialEq, Eq, Structural)]
pub struct PageSize {
    pub width: u64,
    pub height: u64,
}

/// Where a link leads.
#[derive(Debug, Clone, PartialEq, Eq)]
pub enum LinkTarget {
    Page { page: usize, zoom: Option<Region> },
    Uri(String),
}

/// A link on a page.
#[derive(Debug, Clone, PartialEq, Eq)]
pub struct PageLink {
    pub rect: Region,
    pub target: LinkTarget,
}

/// What is asked for when a page is to be drawn, in pixels.
#[derive(Debug, Clone, Copy, PartialEq, Eq, Structural)]
pub struct RenderRequest {
    pub document: BackendDocumentId,
    pub page: usize,
    /// The part of the page that is drawn.
    pub region: Region,
    pub width: u32,
    pub height: u32,
    /// Are the page's own annotations drawn into the frame? Not for a
    /// presentation, where somebody's notes do not belong on the projector.
    pub with_annotations: bool,
}

/// The largest side that a frame may have.
pub const MAX_DIMENSION: u32 = 16_384;

/// What is wrong with a request, if anything.
pub open spec fn request_fault(request: RenderRequest) -> Option<PdfFault> {
    if request.width == 0 || request.height == 0 {
        Some(PdfFault::Invalid("zero-sized render"@))
    } else if request.width > MAX_DIMENSION || request.height > MAX_DIMENSION {
        Some(
            PdfFault::Invalid(
                "render "@ + decimal_text(request.width as nat) + "×"@ + decimal_text(
                    request.height as nat,
                ) + " exceeds the 16384px limit"@,
            ),
        )
    } else if !on_page(request.region) {
        Some(PdfFault::Invalid("region outside the page"@))
    } else {
        None
    }
}

impl RenderRequest {
    /// How many pixels the frame has.
    pub fn pixel_count(&self) -> (count: u64)
        ensures
            count == self.width * self.height,
    {
        assert(self.width * self.height <= 0xffff_ffff * 0xffff_ffff) by (nonlinear_arith)
            requires
                self.width <= 0xffff_ffff,
                self.height <= 0xffff_ffff,
        ;
        self.width as u64 * self.height as u64
    }

    /// How many bytes the frame takes.
    pub fn rgba_bytes(&self) -> (bytes: u64)
        requires
            self.width * self.height * 4 <= u64::MAX,
        ensures
            bytes == self.width * self.height * 4,
    {
        self.pixel_count() * 4
    }

    /// Refuses what cannot be drawn, before any memory is asked for.
    pub fn validate(&self) -> (checked: Result<(), PdfError>)
        ensures
            match checked {
                Ok(()) => request_fault(*self) is None,
                Err(error) => request_fault(*self) == Some(error@),
            },
    {
        if self.width == 0 || self.height == 0 {
            return Err(PdfError::Invalid(owned("zero-sized render")));
        }
        if self.width > MAX_DIMENSION || self.height > MAX_DIMENSION {
            let mut reason = owned("render ");
            push_decimal(&mut reason, self.width as u64);
            push_str(&mut reason, "×");
            push_decimal(&mut reason, self.height as u64);
            push_str(&mut reason, " exceeds the 16384px limit");
            return Err(PdfError::Invalid(reason));
        }
        if !self.region.is_valid() {
            return Err(PdfError::Invalid(owned("region outside the page")));
        }
        Ok(())
    }
}

/// A drawn page: tightly packed RGBA.
#[derive(Debug, Clone, PartialEq, Eq)]
pub struct RenderedPage {
    pub width: u32,
    pub height: u32,
    pub pixels: Vec<u8>,
}

impl RenderedPage {
    /// How many bytes the page takes.
    pub fn byte_len(&self) -> (length: usize)
        ensures
            length == self.pixels@.len(),
    {
        self.pixels.len()
    }

    /// Are there as many bytes as the size asks for?
    pub fn is_consistent(&self) -> (consistent: bool)
        ensures
            consistent == (self.pixels@.len() == self.width * self.height * 4),
    {
        holds_pixels(self.pixels.len(), self.width, self.height)
    }
}

/// Are these as many bytes as a picture of this size takes?
pub(crate) fn holds_pixels(length: usize, width: u32, height: u32) -> (exact: bool)
    ensures
        exact == (length == width * height * 4),
{
    assert(width * height <= 0xffff_ffff * 0xffff_ffff) by (nonlinear_arith)
        requires
            width <= 0xffff_ffff,
            height <= 0xffff_ffff,
    ;
    let needed: u128 = width as u128 * height as u128 * 4;
    length as u128 == needed
}

/// What there is to know of a document at once.
#[derive(Debug, Clone, PartialEq, Eq)]
pub struct DocumentMetadata {
    pub page_count: usize,
    pub first_page_size: PageSize,
    /// The sizes of the first pages, which are all pages unless there are more
    /// than are kept.
    pub page_sizes: Vec<PageSize>,
    /// Were only the first pages measured?
    pub page_sizes_sampled: bool,
    pub metadata_text: String,
    /// The digest of a folder's listing; nothing for a file.
    pub source_digest: Option<u64>,
}

/// The sizes of pages `i` and on, after those that are known. A page that
/// cannot be measured takes the size of the first; where that one cannot be
/// measured, nothing is known at all.
pub open spec fn filled_sizes(
    measured: spec_fn(int) -> Option<PageSize>,
    known: Seq<PageSize>,
    count: int,
) -> Seq<PageSize>
    decreases count - known.len(),
{
    if known.len() >= count {
        known
    } else {
        match measured(known.len() as int) {
            Some(size) => filled_sizes(measured, known.push(size), count),
            None => if known.len() > 0 {
                filled_sizes(measured, known.push(known[0]), count)
            } else {
                Seq::empty()
            },
        }
    }
}

/// How many of a document's pages are measured.
pub open spec fn tracked_pages(page_count: nat) -> int {
    if page_count < MAX_TRACKED_PAGE_SIZES {
        page_count as int
    } else {
        MAX_TRACKED_PAGE_SIZES as int
    }
}

/// Something that pages are measured by.
pub trait MeasuresPages {
    /// The size of a page, where it can be measured.
    open spec fn measured(&self, document: BackendDocumentId, page: int) -> Option<PageSize> {
        arbitrary()
    }

    fn page_size(&self, document: BackendDocumentId, page: usize) -> (size: Result<
        PageSize,
        PdfError,
    >)
        ensures
            match size {
                Ok(found) => self.measured(document, page as int) == Some(found),
                Err(_) => self.measured(document, page as int) is None,
            },
    ;
}

/// Writes bytes over the start of others.
fn copy_to_start(bytes: &[u8], target: &mut [u8])
    requires
        bytes@.len() <= old(target)@.len(),
    ensures
        final(target)@ == bytes@ + old(target)@.skip(bytes@.len() as int),
{
    let ghost before = target@;
    let mut i: usize = 0;
    while i < bytes.len()
        invariant
            i <= bytes@.len() <= before.len(),
            target@ == bytes@.take(i as int) + before.skip(i as int),
        decreases bytes@.len() - i,
    {
        target[i] = bytes[i];
        i += 1;
        assert(target@ =~= bytes@.take(i as int) + before.skip(i as int));
    }
    assert(bytes@.take(i as int) =~= bytes@);
}

/// Something that documents are opened with and pages drawn by.
pub trait PdfBackend: MeasuresPages {
    /// The name of the backend.
    fn name(&self) -> &'static str;

    /// What the backend is, for diagnostics.
    fn version(&self) -> (version: String)
        default_ensures
            version@ == "unknown"@,
    {
        owned("unknown")
    }

    fn open(&mut self, source: &str) -> Result<BackendDocumentId, PdfError>
        requires
            old(self).has_room(),
    ;

    /// Is there an identity left for one more document?
    open spec fn has_room(&self) -> bool {
        true
    }

    fn close(&mut self, document: BackendDocumentId);

    fn metadata(&self, document: BackendDocumentId) -> Result<DocumentMetadata, PdfError>;

    /// How many pages a document has.
    fn page_count(&self, document: BackendDocumentId) -> (count: Result<usize, PdfError>)
        default_ensures
            match count {
                Ok(pages) => exists|metadata: DocumentMetadata|
                    #![trigger metadata.page_count]
                    metadata.page_count == pages && call_ensures(
                        Self::metadata,
                        (self, document),
                        Ok(metadata),
                    ),
                Err(error) => call_ensures(Self::metadata, (self, document), Err(error)),
            },
    {
        match self.metadata(document) {
            Ok(metadata) => Ok(metadata.page_count),
            Err(error) => Err(error),
        }
    }

    /// May these be the pixels of a page that was asked for?
    open spec fn draws(&self, request: RenderRequest, pixels: Seq<u8>) -> bool {
        true
    }

    /// May a request for a page fail in this way?
    open spec fn fails(&self, request: RenderRequest, fault: PdfFault) -> bool {
        true
    }

    /// Draws a page: four bytes for each pixel that was asked for.
    fn render<C: CancelSignal>(&self, request: &RenderRequest, cancel: &C) -> (drawn: Result<
        RenderedPage,
        PdfError,
    >)
        ensures
            match drawn {
                Ok(page) => {
                    &&& page.pixels@.len() == request.width * request.height * 4
                    &&& self.draws(*request, page.pixels@)
                },
                Err(error) => self.fails(*request, error@),
            },
    ;

    /// Draws a page at the start of `target`, which has room for it. A backend
    /// that can draw there at once does without the frame that is copied here.
    fn render_into<C: CancelSignal>(
        &self,
        request: &RenderRequest,
        target: &mut [u8],
        cancel: &C,
    ) -> (done: Result<(), PdfError>)
        requires
            old(target)@.len() >= request.width * request.height * 4,
        ensures
            match done {
                Ok(()) => {
                    let frame = request.width * request.height * 4;
                    &&& final(target)@.len() == old(target)@.len()
                    &&& self.draws(*request, final(target)@.take(frame))
                    &&& final(target)@.skip(frame) == old(target)@.skip(frame)
                },
                Err(error) => self.fails(*request, error@),
            },
        default_ensures
            done is Err ==> final(target)@ == old(target)@,
    {
        match self.render(request, cancel) {
            Ok(page) => {
                let ghost before = target@;
                copy_to_start(page.pixels.as_slice(), target);
                proof {
                    let frame = request.width * request.height * 4;
                    assert(target@.take(frame) =~= page.pixels@);
                    assert(target@.skip(frame) =~= before.skip(frame));
                }
                Ok(())
            },
            Err(error) => Err(error),
        }
    }

    /// The links on a page. A backend that knows of none says so rather than
    /// failing.
    fn links(&self, _document: BackendDocumentId, _page: usize) -> (links: Result<
        Vec<PageLink>,
        PdfError,
    >)
        default_ensures
            links is Ok && links->Ok_0@.len() == 0,
    {
        Ok(Vec::new())
    }

    /// The bytes of an embedded file.
    fn attachment(&self, _document: BackendDocumentId, _name: &str) -> (bytes: Result<
        Vec<u8>,
        PdfError,
    >)
        default_ensures
            match bytes {
                Ok(_) => false,
                Err(error) => error@ == PdfFault::Invalid("attachments unsupported"@),
            },
    {
        Err(PdfError::Invalid(owned("attachments unsupported")))
    }

    /// The names of the embedded files.
    fn attachment_names(&self, _document: BackendDocumentId) -> (names: Result<
        Vec<String>,
        PdfError,
    >)
        default_ensures
            names is Ok && names->Ok_0@.len() == 0,
    {
        Ok(Vec::new())
    }

    /// The bookmarks. A document without any, and a backend that cannot read
    /// them, have none to show.
    fn outline(&self, _document: BackendDocumentId) -> (outline: Result<Outline, PdfError>)
        default_ensures
            outline is Ok && outline->Ok_0.entries@.len() == 0,
    {
        Ok(Outline { entries: Vec::new() })
    }

    /// Writes a copy of a document with marks on its pages. A backend that cannot
    /// says so.
    fn export_annotated(&self, _source: &str, _destination: &str, _pages: &[PageStamp]) -> (exported:
        Result<(), PdfError>)
        default_ensures
            match exported {
                Ok(()) => false,
                Err(error) => error@ == PdfFault::Unsupported("write an annotated PDF"@),
            },
    {
        Err(PdfError::Unsupported("write an annotated PDF"))
    }

    /// Evidence of what will not be shown. A backend that cannot look has none.
    fn evidence(&self, _document: BackendDocumentId) -> (evidence: Result<
        DocumentEvidence,
        PdfError,
    >)
        default_ensures
            match evidence {
                Ok(found) => {
                    &&& found.form_type == FormType::NoForm
                    &&& found.document_javascript@.len() == 0
                    &&& found.restriction is None
                    &&& found.pages@.len() == 0
                    &&& found.transition_styles@.len() == 0
                },
                Err(_) => false,
            },
    {
        Ok(DocumentEvidence::default())
    }
}

/// Measures the pages of a document, as far as sizes are kept, and says
/// whether there are more.
pub fn collect_page_sizes<B: MeasuresPages>(
    backend: &B,
    document: BackendDocumentId,
    page_count: usize,
) -> (collected: (Vec<PageSize>, bool))
    ensures
        collected.0@ == filled_sizes(
            |page: int| backend.measured(document, page),
            Seq::empty(),
            tracked_pages(page_count as nat),
        ),
        collected.1 == (page_count > MAX_TRACKED_PAGE_SIZES && collected.0@.len() > 0),
{
    let limit: usize = if page_count < MAX_TRACKED_PAGE_SIZES {
        page_count
    } else {
        MAX_TRACKED_PAGE_SIZES
    };
    let ghost measured = |page: int| backend.measured(document, page);
    let mut sizes: Vec<PageSize> = Vec::new();
    let mut page: usize = 0;
    while page < limit
        invariant
            page <= limit,
            limit == tracked_pages(page_count as nat),
            measured == (|p: int| backend.measured(document, p)),
            sizes@.len() == page,
            filled_sizes(measured, sizes@, limit as int) == filled_sizes(
                measured,
                Seq::empty(),
                limit as int,
            ),
        decreases limit - page,
    {
        match backend.page_size(document, page) {
            Ok(size) => {
                sizes.push(size);
            },
            Err(_) => {
                if sizes.len() == 0 {
                    return (Vec::new(), false);
                }
                let first = sizes[0];
                sizes.push(first);
            },
        }
        page += 1;
    }
    (sizes, page_count > limit)
}

/// A picture that is stamped onto a page.
#[derive(Debug, Clone, PartialEq, Eq)]
pub struct StampImage {
    /// Where its top left corner is, in millionths of the region.
    pub x: i64,
    pub y: i64,
    /// How much of the region's width it spans, in millionths.
    pub width: i64,
    pub pixel_width: u32,
    pub pixel_height: u32,
    /// Tightly packed RGBA.
    pub rgba: Vec<u8>,
}

/// The largest picture that is stamped.
pub const MAX_STAMP_PIXELS: u64 = 16_777_216;

/// The most pictures that one page is stamped with.
pub const MAX_STAMP_IMAGES: usize = 256;

/// Is a picture of a size that is stamped, with the bytes that this takes?
pub open spec fn stampable(image: StampImage) -> bool {
    &&& image.pixel_width > 0
    &&& image.pixel_height > 0
    &&& image.pixel_width * image.pixel_height <= MAX_STAMP_PIXELS
    &&& image.rgba@.len() == image.pixel_width * image.pixel_height * 4
}

impl StampImage {
    /// Is the picture of a size that is stamped, with the bytes that this takes?
    pub fn is_consistent(&self) -> (consistent: bool)
        ensures
            consistent == stampable(*self),
    {
        assert(self.pixel_width * self.pixel_height <= 0xffff_ffff * 0xffff_ffff)
            by (nonlinear_arith)
            requires
                self.pixel_width <= 0xffff_ffff,
                self.pixel_height <= 0xffff_ffff,
        ;
        self.pixel_width > 0 && self.pixel_height > 0 && self.pixel_width as u64
            * self.pixel_height as u64 <= MAX_STAMP_PIXELS && holds_pixels(
            self.rgba.len(),
            self.pixel_width,
            self.pixel_height,
        )
    }
}

/// The marks of one page, ready to be stamped.
#[derive(Debug, Clone, PartialEq, Eq)]
pub struct PageStamp {
    pub page: usize,
    /// The part of the page that the marks were made over.
    pub region: Region,
    /// How many strokes there are.
    pub strokes: usize,
    pub images: Vec<StampImage>,
}

/// What keeps a stamp from being used, if anything: `most` is the largest
/// number of strokes.
pub open spec fn stamp_fault(stamp: PageStamp, most: nat) -> Option<PdfFault> {
    if !on_page(stamp.region) {
        Some(PdfFault::Invalid("stamp region outside the page"@))
    } else if stamp.strokes > most || stamp.images@.len() > MAX_STAMP_IMAGES {
        Some(
            PdfFault::Invalid(
                "page "@ + decimal_text(stamp.page as nat)
                    + " carries more marks than an export accepts"@,
            ),
        )
    } else if exists|i: int| 0 <= i < stamp.images@.len() && !stampable(#[trigger] stamp.images@[i]) {
        Some(
            PdfFault::Invalid(
                "page "@ + decimal_text(stamp.page as nat) + " carries a malformed picture"@,
            ),
        )
    } else {
        None
    }
}

impl PageStamp {
    /// Refuses marks that an export does not take.
    pub fn validate(&self, most_strokes: usize) -> (checked: Result<(), PdfError>)
        ensures
            match checked {
                Ok(()) => stamp_fault(*self, most_strokes as nat) is None,
                Err(error) => stamp_fault(*self, most_strokes as nat) == Some(error@),
            },
    {
        if !self.region.is_valid() {
            return Err(PdfError::Invalid(owned("stamp region outside the page")));
        }
        if self.strokes > most_strokes || self.images.len() > MAX_STAMP_IMAGES {
            let mut reason = owned("page ");
            push_decimal(&mut reason, self.page as u64);
            push_str(&mut reason, " carries more marks than an export accepts");
            return Err(PdfError::Invalid(reason));
        }
        let mut i: usize = 0;
        while i < self.images.len()
            invariant
                i <= self.images@.len(),
                self.images@.len() <= MAX_STAMP_IMAGES,
                self.strokes <= most_strokes,
                on_page(self.region),
                forall|j: int| 0 <= j < i ==> stampable(#[trigger] self.images@[j]),
            decreases self.images@.len() - i,
        {
            if !self.images[i].is_consistent() {
                let mut reason = owned("page ");
                push_decimal(&mut reason, self.page as u64);
                push_str(&mut reason, " carries a malformed picture");
                return Err(PdfError::Invalid(reason));
            }
            i += 1;
        }
        Ok(())
    }
}

/// Whether work is still wanted. A backend asks regularly, so that work that is
/// not gives way at once.
pub trait CancelSignal {
    fn is_cancelled(&self) -> bool;
}

/// A signal that never cancels.
#[derive(Debug)]
pub struct NeverCancel;

impl CancelSignal for NeverCancel {
    fn is_cancelled(&self) -> (cancelled: bool)
        ensures
            !cancelled,
    {
        false
    }
}

impl CancelSignal for AtomicBool {
    fn is_cancelled(&self) -> bool {
        self.load(std::sync::atomic::Ordering::Relaxed)
    }
}

proof fn lemma_filled(
    measured: spec_fn(int) -> Option<PageSize>,
    known: Seq<PageSize>,
    count: int,
    i: int,
)
    requires
        0 <= i < count,
        known.len() <= count,
        known.len() > 0 || measured(0) is Some,
    ensures
        ({
            let sizes = filled_sizes(measured, known, count);
            let first = if known.len() > 0 {
                known[0]
            } else {
                measured(0)->0
            };
            &&& sizes.len() == count
            &&& i < known.len() ==> sizes[i] == known[i]
            &&& i >= known.len() ==> sizes[i] == (match measured(i) {
                Some(size) => size,
                None => first,
            })
        }),
    decreases count - known.len(),
{
    if known.len() < count {
        let next = known.push(
            match measured(known.len() as int) {
                Some(size) => size,
                None => known[0],
            },
        );
        lemma_filled(measured, next, count, i);
    }
}

/// Every page has the size that was measured for it, and one that could not be
/// measured has that of the first. Where the first could not be measured, nothing
/// is told.
pub proof fn law_pages_have_their_sizes(
    measured: spec_fn(int) -> Option<PageSize>,
    count: int,
    i: int,
)
    requires
        0 <= i < count,
    ensures
        ({
            let sizes = filled_sizes(measured, Seq::empty(), count);
            match measured(0) {
                None => sizes.len() == 0,
                Some(first) => {
                    &&& sizes.len() == count
                    &&& measured(i) is Some ==> Some(sizes[i]) == measured(i)
                    &&& measured(i) is None ==> sizes[i] == first
                },
            }
        }),
{
    if measured(0) is Some {
        lemma_filled(measured, Seq::empty(), count, i);
    }
}

/// All pages of a document are measured, as far as sizes are kept.
pub proof fn law_pages_are_measured_as_far_as_sizes_are_kept(page_count: nat)
    ensures
        0 <= tracked_pages(page_count) <= page_count,
        tracked_pages(page_count) <= MAX_TRACKED_PAGE_SIZES,
        tracked_pages(page_count) == page_count || tracked_pages(page_count)
            == MAX_TRACKED_PAGE_SIZES,
{
}

/// A stamp is used exactly where it lies on the page, has no more strokes and no more
/// pictures than are taken, and each picture has the bytes of its pixels.
pub proof fn law_sound_stamps_are_used(stamp: PageStamp, most: nat)
    ensures
        stamp_fault(stamp, most) is None <==> on_page(stamp.region) && stamp.strokes <= most
            && stamp.images@.len() <= MAX_STAMP_IMAGES && forall|i: int|
            0 <= i < stamp.images@.len() ==> stampable(#[trigger] stamp.images@[i]),
{
}

/// A request is taken exactly where it has a size within the limit and its region has
/// one too and ends on the page.
pub proof fn law_sound_requests_are_taken(request: RenderRequest)
    ensures
        request_fault(request) is None <==> {
            &&& 1 <= request.width <= MAX_DIMENSION
            &&& 1 <= request.height <= MAX_DIMENSION
            &&& request.region.width >= 1 && request.region.height >= 1
            &&& request.region.x + request.region.width <= full_region().width
            &&& request.region.y + request.region.height <= full_region().height
        },
        on_page(full_region()),
{
}

} // verus!
