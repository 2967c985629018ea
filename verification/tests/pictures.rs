//! Pictures: decoded, kept, scaled, and shown as the pages of a document.

use pulpit_render::images::archive::{ArchiveKind, ListedEntry};
use pulpit_render::images::backend::{draw, fill_sizes, plan_open, ImageBackend, Prepared};
use pulpit_render::images::cache::{DecodedCache, DecodedKey};
use pulpit_render::images::decode::{
    decode_bytes, dimensions_of, within_input_bounds, ImageFailure, Picture,
};
use pulpit_render::images::document::{plan_reading, unsupported, DocumentError, ImageDocument};
use pulpit_render::images::measure::{measure_pages, Measurements};
use pulpit_render::images::scale::{crop, crop_view, scale_into, CropBox};
use pulpit_render::images::table::{
    list_source, FileFacts, ListedFile, Listing, PageLocation, PageSource, PageTable,
};
use pulpit_render::pdf::{BackendDocumentId, PageSize, PdfError, Region, RenderRequest};
use std::io::Cursor;
use std::sync::Arc;

fn solid(width: u32, height: u32, colour: [u8; 4]) -> Picture {
    Picture {
        width,
        height,
        pixels: colour.repeat((width * height) as usize),
    }
}

fn image(width: u32, height: u32) -> Arc<Picture> {
    Arc::new(solid(width, height, [10, 20, 30, 255]))
}

fn put_pixel(picture: &mut Picture, x: u32, y: u32, colour: [u8; 4]) {
    let at = ((y * picture.width + x) * 4) as usize;
    picture.pixels[at..at + 4].copy_from_slice(&colour);
}

fn png(width: u32, height: u32, colour: [u8; 4]) -> Vec<u8> {
    let mut bytes = Cursor::new(Vec::new());
    image::RgbaImage::from_pixel(width, height, image::Rgba(colour))
        .write_to(&mut bytes, image::ImageFormat::Png)
        .unwrap();
    bytes.into_inner()
}

fn key(page: usize) -> DecodedKey {
    DecodedKey {
        document: 1,
        page,
        len: 100,
        modified: None,
    }
}

#[test]
fn a_decoded_image_is_answered_from_the_cache_rather_than_decoded_again() {
    let mut cache = DecodedCache::new(1024 * 1024);
    cache.insert(key(0), image(4, 4));
    assert!(cache.get(&key(0)).is_some());
    assert_eq!(cache.bytes_used(), 4 * 4 * 4);
}

#[test]
fn a_file_overwritten_in_place_is_not_answered_from_its_old_pixels() {
    let mut cache = DecodedCache::new(1024 * 1024);
    cache.insert(key(0), image(4, 4));
    let rewritten = DecodedKey {
        modified: Some(0),
        ..key(0)
    };
    assert!(cache.get(&rewritten).is_none());
}

#[test]
fn the_least_recently_used_image_is_the_one_that_goes() {
    let mut cache = DecodedCache::new(4 * 4 * 4 * 2);
    cache.insert(key(0), image(4, 4));
    cache.insert(key(1), image(4, 4));
    assert!(cache.get(&key(0)).is_some(), "page 0 touched most recently");
    cache.insert(key(2), image(4, 4));
    assert!(cache.get(&key(1)).is_none(), "page 1 was the coldest");
    assert!(cache.get(&key(0)).is_some());
    assert!(cache.get(&key(2)).is_some());
}

#[test]
fn closing_a_document_releases_its_pixels() {
    let mut cache = DecodedCache::new(1024 * 1024);
    cache.insert(key(0), image(8, 8));
    cache.forget_document(1);
    assert!(cache.is_empty());
    assert_eq!(cache.bytes_used(), 0);
}

#[test]
fn the_input_bound_refuses_a_decompression_bomb_before_any_pixels() {
    assert!(within_input_bounds(4000, 3000));
    assert!(!within_input_bounds(64_000, 64_000));
    assert!(
        !within_input_bounds(16_000, 16_000),
        "inside the per-side limit and still a gigabyte of pixels"
    );
    assert!(!within_input_bounds(0, 10));
}

#[test]
fn a_full_region_scales_the_whole_image() {
    let source = solid(4, 4, [1, 2, 3, 255]);
    let mut target = vec![0u8; 2 * 2 * 4];
    scale_into(&source, Region::full(), 2, 2, &mut target).unwrap();
    assert_eq!(&target[..4], &[1, 2, 3, 255]);
}

/// A whole-page render at the page's own size is the no-crop, no-resample
/// path. Every pixel, not just the first, must still be the byte-for-byte
/// source.
#[test]
fn a_full_region_at_native_size_copies_the_source_buffer_exactly() {
    let mut source = solid(3, 2, [0, 0, 0, 0]);
    put_pixel(&mut source, 0, 0, [1, 2, 3, 255]);
    put_pixel(&mut source, 2, 1, [9, 8, 7, 255]);
    let mut target = vec![0xAAu8; 3 * 2 * 4];
    scale_into(&source, Region::full(), 3, 2, &mut target).unwrap();
    assert_eq!(target, source.pixels);
}

#[test]
fn a_crop_takes_the_part_of_the_image_the_region_names() {
    let mut source = solid(4, 4, [0, 0, 0, 255]);
    put_pixel(&mut source, 2, 2, [9, 9, 9, 255]);
    let mut target = vec![0u8; 4];
    scale_into(
        &source,
        Region::new(500_000, 500_000, 250_000, 250_000),
        1,
        1,
        &mut target,
    )
    .unwrap();
    assert_eq!(target, [9, 9, 9, 255]);
}

#[test]
fn a_target_too_small_for_the_frame_is_refused_rather_than_overrun() {
    let source = solid(4, 4, [1, 2, 3, 255]);
    let mut target = vec![0u8; 4];
    assert!(scale_into(&source, Region::full(), 2, 2, &mut target).is_err());
}

/// The crop is what is scaled: what lies beside it does not bleed in.
#[test]
fn only_the_part_that_was_asked_for_is_scaled() {
    let mut source = solid(4, 4, [0, 0, 0, 255]);
    for y in 0..2 {
        for x in 0..2 {
            put_pixel(&mut source, x, y, [200, 100, 50, 255]);
        }
    }
    let mut target = vec![0u8; 8 * 8 * 4];
    scale_into(
        &source,
        Region::new(0, 0, 500_000, 500_000),
        8,
        8,
        &mut target,
    )
    .unwrap();
    assert!(target.chunks(4).all(|pixel| pixel == [200, 100, 50, 255]));
}

#[test]
fn a_region_names_whole_pixels() {
    let part = crop_view(10, 20, Region::new(100_000, 250_000, 500_000, 500_000));
    assert_eq!(
        part,
        CropBox {
            x: 1,
            y: 5,
            width: 5,
            height: 10,
        }
    );
    let mut source = solid(10, 20, [0, 0, 0, 255]);
    put_pixel(&mut source, 1, 5, [7, 7, 7, 255]);
    let cut = crop(&source, part);
    assert_eq!((cut.width, cut.height), (5, 10));
    assert_eq!(&cut.pixels[..4], &[7, 7, 7, 255]);
}

#[test]
fn a_picture_is_read_from_its_bytes() {
    let bytes = png(5, 3, [9, 8, 7, 255]);
    assert_eq!(dimensions_of(&bytes, "a.png"), Ok((5, 3)));
    let picture = decode_bytes(&bytes, "a.png").unwrap();
    assert_eq!(picture, solid(5, 3, [9, 8, 7, 255]));
    assert!(matches!(
        decode_bytes(b"not a picture", "b.png"),
        Err(ImageFailure::Undecodable { path, .. }) if path == "b.png"
    ));
}

// --- Documents ------------------------------------------------------------

/// Pictures by name, and what else stands beside them.
struct Shelf {
    files: Vec<(&'static str, Vec<u8>)>,
}

impl Shelf {
    fn listed(&self) -> Listing {
        Listing::Files(
            self.files
                .iter()
                .map(|(name, bytes)| ListedFile {
                    name: name.as_bytes().to_vec(),
                    facts: Some(FileFacts {
                        is_dir: false,
                        len: bytes.len() as u64,
                        modified: Some(1),
                    }),
                })
                .collect(),
        )
    }

    fn entries(&self) -> Listing {
        Listing::Entries(
            self.files
                .iter()
                .map(|(name, bytes)| ListedEntry {
                    is_file: true,
                    name: Some(name.as_bytes().to_vec()),
                    size: bytes.len() as u64,
                })
                .collect(),
        )
    }

    fn read(&self, location: &PageLocation) -> Result<Vec<u8>, ImageFailure> {
        let wanted = match location {
            PageLocation::File(path) => path.strip_prefix(b"/p/".as_slice()).unwrap().to_vec(),
            PageLocation::ArchiveEntry { name, .. } => name.clone(),
        };
        self.files
            .iter()
            .find(|(name, _)| name.as_bytes() == wanted)
            .map(|(_, bytes)| bytes.clone())
            .ok_or(ImageFailure::Cancelled)
    }

    fn measured(&self, table: &PageTable) -> Vec<Option<(u32, u32)>> {
        let mut measurements = Measurements::new();
        for (name, bytes) in &self.files {
            measurements.record(table.path(), name.as_bytes(), bytes);
        }
        measure_pages(table, &measurements)
    }
}

fn directory() -> PageSource {
    PageSource::Directory(b"/p".to_vec())
}

fn archive(name: &str, kind: ArchiveKind) -> PageSource {
    PageSource::Archive {
        path: name.as_bytes().to_vec(),
        kind,
    }
}

fn request(document: BackendDocumentId, page: usize) -> RenderRequest {
    RenderRequest {
        document,
        page,
        region: Region::full(),
        width: 8,
        height: 8,
        with_annotations: false,
    }
}

/// Renders a page as the worker does: prepare, read where there is need, draw.
fn render(
    backend: &mut ImageBackend,
    shelf: &Shelf,
    request: &RenderRequest,
) -> Result<Vec<u8>, PdfError> {
    let picture = match backend.prepare(request, false)? {
        Prepared::Ready(picture) => picture,
        Prepared::Read { location, key } => {
            let bytes = shelf.read(&location);
            backend.take_in(key, &location, bytes)?
        }
    };
    let mut target = vec![0u8; (request.width * request.height * 4) as usize];
    draw(&picture, request, false, &mut target)?;
    Ok(target)
}

#[test]
fn a_directory_of_images_is_a_document_whose_pages_are_its_files() {
    let shelf = Shelf {
        files: vec![
            ("img2.png", png(40, 20, [1, 2, 3, 255])),
            ("img10.png", png(10, 10, [4, 5, 6, 255])),
        ],
    };
    let mut backend = ImageBackend::new();
    let document = backend.open(directory(), shelf.listed()).unwrap();
    let measured = shelf.measured(backend.table(document).unwrap());
    let metadata = backend.metadata(document, &measured).unwrap();

    assert_eq!(metadata.page_count, 2);
    assert_eq!(metadata.first_page_size.width, 40_000);
    assert_eq!(metadata.page_sizes.len(), 2);
    assert_eq!(metadata.page_sizes[1].width, 10_000);
    assert!(!metadata.page_sizes_sampled);
    assert!(metadata.metadata_text.is_empty());
    assert!(metadata.source_digest.is_some());
}

#[test]
fn opening_a_file_opens_the_directory_it_is_in() {
    let shelf = Shelf {
        files: vec![
            ("a.png", png(4, 4, [0, 0, 0, 255])),
            ("b.png", png(4, 4, [0, 0, 0, 255])),
        ],
    };
    let mut backend = ImageBackend::new();
    let resolved = plan_open(b"/p/b.png", false).unwrap();
    assert_eq!(resolved.source, directory());
    let document = backend.open(resolved.source, shelf.listed()).unwrap();
    let measured = shelf.measured(backend.table(document).unwrap());
    assert_eq!(backend.metadata(document, &measured).unwrap().page_count, 2);
}

#[test]
fn a_page_renders_the_picture_that_is_at_that_index() {
    let shelf = Shelf {
        files: vec![
            ("a.png", png(4, 4, [10, 20, 30, 255])),
            ("b.png", png(4, 4, [40, 50, 60, 255])),
        ],
    };
    let mut backend = ImageBackend::new();
    let document = backend.open(directory(), shelf.listed()).unwrap();
    let page = render(&mut backend, &shelf, &request(document, 1)).unwrap();
    assert_eq!(page.len(), 8 * 8 * 4);
    assert_eq!(&page[..4], &[40, 50, 60, 255]);
}

/// A listed file that will not decode stays in the table, keeps its index,
/// fails its own render, and leaves its neighbours renderable.
#[test]
fn a_corrupt_file_among_good_ones_is_still_a_page() {
    let shelf = Shelf {
        files: vec![
            ("a.png", png(4, 4, [10, 20, 30, 255])),
            ("b.png", b"this is not a png".to_vec()),
            ("c.png", png(4, 4, [70, 80, 90, 255])),
        ],
    };
    let mut backend = ImageBackend::new();
    let document = backend.open(directory(), shelf.listed()).unwrap();
    let measured = shelf.measured(backend.table(document).unwrap());
    let metadata = backend.metadata(document, &measured).unwrap();
    assert_eq!(metadata.page_count, 3, "still counted");

    let broken = render(&mut backend, &shelf, &request(document, 1));
    assert!(
        matches!(broken, Err(PdfError::Render(_))),
        "it fails its render rather than drawing a placeholder"
    );

    let neighbour = render(&mut backend, &shelf, &request(document, 2)).unwrap();
    assert_eq!(
        &neighbour[..4],
        &[70, 80, 90, 255],
        "still positioned, so its neighbours are where they were"
    );
}

#[test]
fn an_empty_directory_opens_with_no_pages() {
    let mut backend = ImageBackend::new();
    let document = backend
        .open(directory(), Listing::Files(Vec::new()))
        .unwrap();
    assert_eq!(backend.metadata(document, &[]).unwrap().page_count, 0);
}

#[test]
fn one_decode_serves_every_frame_that_wants_the_page() {
    let shelf = Shelf {
        files: vec![("a.png", png(64, 64, [1, 1, 1, 255]))],
    };
    let mut backend = ImageBackend::new();
    let document = backend.open(directory(), shelf.listed()).unwrap();
    let mut reads = 0;
    for size in [8u32, 16, 32] {
        let mut request = request(document, 0);
        request.width = size;
        request.height = size;
        if let Prepared::Read { .. } = backend.prepare(&request, false).unwrap() {
            reads += 1;
        }
        render(&mut backend, &shelf, &request).unwrap();
    }
    assert_eq!(reads, 1, "decoded once, scaled three times");
}

#[test]
fn closing_a_document_releases_its_decoded_pixels() {
    let shelf = Shelf {
        files: vec![("a.png", png(32, 32, [1, 1, 1, 255]))],
    };
    let mut backend = ImageBackend::new();
    let document = backend.open(directory(), shelf.listed()).unwrap();
    render(&mut backend, &shelf, &request(document, 0)).unwrap();
    backend.close(document);
    assert!(backend.table(document).is_none());
    assert!(backend.prepare(&request(document, 0), false).is_err());
}

/// Two differently-shaped pages, one per chapter folder, plus things that are
/// not pages.
fn comic() -> Shelf {
    Shelf {
        files: vec![
            ("ch-1/page-10.png", png(30, 20, [90, 90, 90, 255])),
            ("ch-1/page-02.png", png(20, 30, [20, 20, 20, 255])),
            ("ComicInfo.xml", b"<ComicInfo/>".to_vec()),
        ],
    }
}

/// An archive is presented exactly as a directory — sorted entries, one image
/// per page — and the order is the sorted full path.
#[test]
fn a_comic_archive_is_a_document_whose_pages_are_its_entries() {
    for (name, kind) in [
        ("comic.cbz", ArchiveKind::Zip),
        ("comic.cbt", ArchiveKind::Tar),
    ] {
        let shelf = comic();
        let mut backend = ImageBackend::new();
        let resolved = plan_open(name.as_bytes(), false).unwrap();
        assert_eq!(resolved.source, archive(name, kind));
        let document = backend.open(resolved.source, shelf.entries()).unwrap();
        let measured = shelf.measured(backend.table(document).unwrap());
        let metadata = backend.metadata(document, &measured).unwrap();

        assert_eq!(metadata.page_count, 2, "{name}: the XML is not a page");
        // page-02 before page-10: natural sort over the full path.
        assert_eq!(metadata.page_sizes[0].width, 20_000, "{name}");
        assert_eq!(metadata.page_sizes[1].width, 30_000, "{name}");
        assert!(!metadata.page_sizes_sampled, "{name}");
        assert!(metadata.metadata_text.is_empty(), "{name}");
        assert_eq!(
            metadata.source_digest, None,
            "{name}: one file, so there is nothing to agree about"
        );

        let frame = render(&mut backend, &shelf, &request(document, 1)).unwrap();
        assert_eq!(&frame[..4], &[90, 90, 90, 255], "{name}");
    }
}

/// Refused by name, and not as a damaged file.
#[test]
fn a_rar_comic_is_refused_by_name_rather_than_as_a_broken_archive() {
    let error = plan_open(b"comic.cbr", false).unwrap_err();
    let text = error.message();
    assert!(text.contains("RAR"), "{text}");
    assert!(
        !text.to_lowercase().contains("corrupt") && !text.to_lowercase().contains("damaged"),
        "{text}"
    );
}

#[test]
fn a_page_that_will_not_decode_stays_in_an_archive_table_too() {
    let good = png(8, 8, [7, 7, 7, 255]);
    let shelf = Shelf {
        files: vec![
            ("page-01.png", good.clone()),
            ("page-02.png", b"not a png at all".to_vec()),
            ("page-03.png", good),
        ],
    };
    let mut backend = ImageBackend::new();
    let document = backend
        .open(archive("comic.cbz", ArchiveKind::Zip), shelf.entries())
        .unwrap();
    let measured = shelf.measured(backend.table(document).unwrap());
    assert_eq!(
        backend.metadata(document, &measured).unwrap().page_count,
        3,
        "still counted, so its neighbours keep their indices"
    );
    assert!(render(&mut backend, &shelf, &request(document, 1)).is_err());
    assert_eq!(
        &render(&mut backend, &shelf, &request(document, 2)).unwrap()[..4],
        &[7, 7, 7, 255]
    );
}

// --- The reader -----------------------------------------------------------

const PLAIN: PageSize = PageSize {
    width: 612_000,
    height: 792_000,
};

fn reader_shelf() -> Shelf {
    Shelf {
        files: vec![
            ("a.png", png(20, 10, [7, 8, 9, 255])),
            ("b.png", png(10, 20, [1, 2, 3, 255])),
        ],
    }
}

fn read_folder(shelf: &Shelf) -> ImageDocument {
    let table = list_source(directory(), shelf.listed()).unwrap();
    let measured = shelf.measured(&table);
    ImageDocument::open(table, &measured, PLAIN)
}

fn render_page(document: &mut ImageDocument, shelf: &Shelf, page: usize) -> Vec<u8> {
    let picture = match document.prepare(page).unwrap() {
        Prepared::Ready(picture) => picture,
        Prepared::Read { location, key } => {
            let bytes = shelf.read(&location);
            document.take_in(key, &location, bytes).unwrap()
        }
    };
    let mut rgba = vec![0u8; 4 * 4 * 4];
    scale_into(&picture, Region::full(), 4, 4, &mut rgba).unwrap();
    rgba
}

#[test]
fn a_folder_opens_as_a_document_the_reader_can_turn_the_pages_of() {
    let document = read_folder(&reader_shelf());
    assert_eq!(document.page_count(), 2);
    assert_eq!(document.page_geometry(0).unwrap().width, 20_000);
    assert_eq!(document.page_geometry(1).unwrap().width, 10_000);
    assert_eq!(document.path(), b"/p");
}

#[test]
fn a_page_renders() {
    let shelf = reader_shelf();
    let mut document = read_folder(&shelf);
    let rgba = render_page(&mut document, &shelf, 1);
    assert_eq!(&rgba[..4], &[1, 2, 3, 255]);
}

#[test]
fn opening_an_image_file_opens_the_folder_around_it() {
    let resolved = plan_reading(b"/p/b.png", false).unwrap();
    assert_eq!(resolved.source, directory());
    assert_eq!(read_folder(&reader_shelf()).page_count(), 2);
}

/// A comic archive reaches the reader the same way a folder does, and answers
/// the same way.
#[test]
fn a_comic_archive_opens_in_the_reader_and_turns_its_pages() {
    let shelf = Shelf {
        files: vec![
            ("ch-1/page-02.png", png(20, 30, [4, 5, 6, 255])),
            ("ch-1/page-10.png", png(30, 20, [8, 9, 10, 255])),
        ],
    };
    let resolved = plan_reading(b"/c/comic.cbz", false).unwrap();
    let table = list_source(resolved.source, shelf.entries()).unwrap();
    let measured = shelf.measured(&table);
    let mut document = ImageDocument::open(table, &measured, PLAIN);
    assert_eq!(document.page_count(), 2);
    assert_eq!(document.path(), b"/c/comic.cbz");
    // page-02 before page-10, by natural sort over the full entry path.
    assert_eq!(document.page_geometry(0).unwrap().width, 20_000);
    assert_eq!(document.page_geometry(1).unwrap().width, 30_000);
    let rgba = render_page(&mut document, &shelf, 1);
    assert_eq!(&rgba[..4], &[8, 9, 10, 255]);
    assert!(matches!(
        unsupported("search its text"),
        DocumentError::Unsupported(_)
    ));
}

/// A format that is not read is refused by name here too, and the message
/// reaches the presenter as written.
#[test]
fn a_format_pulpit_does_not_read_is_refused_by_name_in_the_reader_too() {
    for (name, expected) in [
        ("comic.cbr", "RAR"),
        ("talk.ps", "PostScript"),
        ("book.epub", "EPUB"),
    ] {
        let Err(error) = plan_reading(name.as_bytes(), false) else {
            panic!("{name} is refused, not opened");
        };
        let DocumentError::UnsupportedFormat(said) = error else {
            panic!("{name} is refused as a format");
        };
        assert!(said.contains(expected), "{said}");
        assert!(
            !said.contains("this document cannot"),
            "a refusal is a whole sentence, not a verb phrase — {said}"
        );
    }
}

#[test]
fn a_page_past_the_end_is_named_with_the_count() {
    let document = read_folder(&reader_shelf());
    assert_eq!(
        document.page_geometry(2),
        Err(DocumentError::NoSuchPage { page: 2, count: 2 })
    );
}

#[test]
fn pages_that_were_not_measured_take_a_size_from_those_that_were() {
    let sizes = fill_sizes(&[Some((30, 40)), None]);
    assert_eq!(sizes.len(), 2);
    assert_eq!(sizes[0].width, 30_000);
    assert_eq!(sizes[1], sizes[0]);
    assert!(fill_sizes(&[None, Some((30, 40))]).is_empty());
}

#[test]
fn one_page_can_be_measured_by_itself() {
    let shelf = reader_shelf();
    let mut backend = ImageBackend::new();
    let document = backend.open(directory(), shelf.listed()).unwrap();
    let location = backend.page_at(document, 1).unwrap();
    let size = backend
        .page_size(document, 1, shelf.read(&location))
        .unwrap();
    assert_eq!(
        size,
        PageSize {
            width: 10_000,
            height: 20_000,
        }
    );
    assert_eq!(
        backend.page_at(document, 2),
        Err(PdfError::PageOutOfRange { page: 2, count: 2 })
    );
    assert!(backend
        .page_size(document, 0, Ok(b"not a picture".to_vec()))
        .is_err());
}
