//! Backends, requests and the routing between them.

use pulpit_render::images::backend::{draw, ImageBackend, Prepared};
use pulpit_render::images::table::{
    FileFacts, ListedFile, Listing, PageSource, MAX_TRACKED_PAGE_SIZES,
};
use pulpit_render::pdf::capabilities::{analyse, ActionKind, AnnotationSubtype, FindingKind, FormType};
use pulpit_render::pdf::fixture::FixtureBackend;
use pulpit_render::pdf::pdfium::{
    annotation_subtype, attachment_name, binding_failure, bookmark_target, check_attachment,
    check_document, check_page, check_target, convention_of, decode_utf16le, form_type, gather,
    library_candidates, link_action, link_target, metadata_text, no_attachment, page_placement,
    pdf_separators, render_flags, render_step, script_names, take_attachment, worth_reading,
    worth_zooming, Destination, LinkAction, PathConvention, Placement, RenderStep, FPDF_ANNOT, FPDF_RENDER_DONE,
    FPDF_RENDER_TOBECONTINUED, FPDF_REVERSE_BYTE_ORDER, MAX_ATTACHMENT_FILE_BYTES,
};
use pulpit_render::pdf::router::{rewritten, versions, OpenPlan, Route, Router};
use pulpit_render::pdf::search::{PageKey, PageText, PageTextCache, TextMatch};
use pulpit_render::pdf::synth::{write_pdf, write_pdf_with_attachment};
use pulpit_render::pdf::{
    collect_page_sizes, BackendDocumentId, LinkTarget, MeasuresPages, NeverCancel, PageStamp,
    PdfBackend, PdfError, Region, RenderRequest, StampImage,
};
use std::sync::atomic::{AtomicBool, Ordering};

fn frame(document: BackendDocumentId, page: usize) -> RenderRequest {
    RenderRequest {
        document,
        page,
        region: Region::full(),
        width: 320,
        height: 180,
        with_annotations: false,
    }
}

// --- The fixture backend ---------------------------------------------------

#[test]
fn renders_consistent_frames() {
    let mut backend = FixtureBackend::new();
    let document = backend.open("fixture:pages=12").unwrap();
    assert_eq!(backend.page_count(document).unwrap(), 12);

    let page = backend.render(&frame(document, 3), &NeverCancel).unwrap();
    assert!(page.is_consistent());
    assert_eq!(page.byte_len(), 320 * 180 * 4);

    let again = backend.render(&frame(document, 3), &NeverCancel).unwrap();
    assert_eq!(page, again, "rendering is deterministic");
    let other = backend.render(&frame(document, 4), &NeverCancel).unwrap();
    assert_ne!(page, other, "pages are visually distinguishable");
}

#[test]
fn out_of_range_pages_are_refused() {
    let mut backend = FixtureBackend::new();
    let document = backend.open("fixture:pages=3").unwrap();
    assert!(matches!(
        backend.render(&frame(document, 9), &NeverCancel),
        Err(PdfError::PageOutOfRange { .. })
    ));
}

#[test]
fn cancellation_is_prompt() {
    let mut backend = FixtureBackend::new();
    let document = backend.open("fixture:pages=3").unwrap();
    let cancel = AtomicBool::new(false);
    cancel.store(true, Ordering::Relaxed);
    assert!(matches!(
        backend.render(&frame(document, 0), &cancel),
        Err(PdfError::Cancelled)
    ));
}

#[test]
fn the_metadata_contract_survives_the_round_trip() {
    let mut backend = FixtureBackend::new();
    let document = backend
        .open("fixture:pages=8&mapping=pulpit:mapping=alternating")
        .unwrap();
    let metadata = backend.metadata(document).unwrap();
    assert_eq!(metadata.metadata_text, "pulpit:mapping=alternating");
}

#[test]
fn a_mixed_deck_reports_a_size_for_every_page() {
    let mut backend = FixtureBackend::new();
    let document = backend.open("fixture:pages=4&mixed").unwrap();
    let metadata = backend.metadata(document).unwrap();
    assert_eq!(metadata.page_sizes.len(), 4);
    assert!(!metadata.page_sizes_sampled);
    assert_eq!(metadata.page_sizes[0], metadata.first_page_size);
    assert_ne!(metadata.page_sizes[1], metadata.first_page_size);
}

#[test]
fn the_outline_a_backend_cannot_read_is_empty_rather_than_an_error() {
    let mut backend = FixtureBackend::new();
    let plain = backend.open("fixture:pages=4").unwrap();
    assert!(backend.outline(plain).unwrap().entries.is_empty());

    let annotated = backend.open("fixture:pages=4&outline").unwrap();
    let outline = backend.outline(annotated).unwrap();
    let below: usize = outline
        .entries
        .iter()
        .map(|entry| entry.children.len())
        .sum();
    assert_eq!(outline.entries.len() + below, 3);
    assert_eq!(below, 1);
}

#[test]
fn evidence_is_only_reported_for_a_deck_that_declares_features() {
    let mut backend = FixtureBackend::new();
    let plain = backend.open("fixture:pages=4").unwrap();
    assert!(analyse(&backend.evidence(plain).unwrap()).is_empty());

    let rich = backend.open("fixture:pages=4&features").unwrap();
    let capabilities = analyse(&backend.evidence(rich).unwrap());
    for kind in [
        FindingKind::FormFields,
        FindingKind::DocumentJavaScript,
        FindingKind::PageTransition,
        FindingKind::UnplayableMedia,
        FindingKind::UnsupportedAction,
    ] {
        assert!(capabilities.has(kind), "{kind:?} should be reported");
    }
}

#[test]
fn an_unreadable_document_reports_instead_of_panicking() {
    let mut backend = FixtureBackend::new();
    assert!(backend.open("fixture:unreadable").is_err());
}

// --- Requests and measurements ---------------------------------------------

#[test]
fn requests_are_validated_before_any_allocation() {
    let base = RenderRequest {
        document: BackendDocumentId(1),
        page: 0,
        region: Region::full(),
        width: 1920,
        height: 1080,
        with_annotations: false,
    };
    assert!(base.validate().is_ok());
    assert_eq!(base.rgba_bytes(), 1920 * 1080 * 4);

    assert!(RenderRequest { width: 0, ..base }.validate().is_err());
    assert!(RenderRequest {
        width: 40_000,
        ..base
    }
    .validate()
    .is_err());
    assert!(RenderRequest {
        region: Region::new(500_000, 0, 900_000, 1_000_000),
        ..base
    }
    .validate()
    .is_err());
}

#[test]
fn page_sizes_are_measured_exactly_up_to_the_bound_and_then_sampled() {
    let mut backend = FixtureBackend::new();
    let document = backend
        .open(&format!(
            "fixture:pages={}&mixed",
            MAX_TRACKED_PAGE_SIZES + 10
        ))
        .unwrap();
    let (sizes, sampled) = collect_page_sizes(&backend, document, MAX_TRACKED_PAGE_SIZES + 10);
    assert_eq!(sizes.len(), MAX_TRACKED_PAGE_SIZES);
    assert!(sampled, "a deck longer than the bound says it was sampled");

    let short = backend.open("fixture:pages=3&mixed").unwrap();
    let (sizes, sampled) = collect_page_sizes(&backend, short, 3);
    assert_eq!(sizes.len(), 3);
    assert!(!sampled);
}

#[test]
fn a_document_whose_first_page_cannot_be_measured_reports_no_sizes() {
    let mut backend = FixtureBackend::new();
    let document = backend.open("fixture:pages=2").unwrap();
    // Claiming more pages than the document has makes every measurement
    // fail, which is the shape of a backend that cannot answer at all.
    let (sizes, sampled) = collect_page_sizes(&backend, BackendDocumentId(999), 4);
    assert!(sizes.is_empty());
    assert!(!sampled);
    assert!(!collect_page_sizes(&backend, document, 2).0.is_empty());
}

#[test]
fn a_4k_rgba_frame_costs_what_the_spec_says() {
    let request = RenderRequest {
        document: BackendDocumentId(1),
        page: 0,
        region: Region::full(),
        width: 3840,
        height: 2160,
        with_annotations: false,
    };
    assert_eq!(request.rgba_bytes(), 33_177_600);
}

#[test]
fn every_backend_error_is_a_sentence() {
    assert_eq!(
        PdfError::PageOutOfRange { page: 9, count: 3 }.message(),
        "page 9 is out of range (3 pages)"
    );
    assert!(PdfError::Unavailable("no library".to_string())
        .message()
        .contains("no library"));
    assert!(!PdfError::Cancelled.message().is_empty());
}

#[test]
fn a_stamp_is_checked_before_it_is_drawn() {
    let image = StampImage {
        x: 0,
        y: 0,
        width: 100_000,
        pixel_width: 2,
        pixel_height: 2,
        rgba: vec![0; 16],
    };
    assert!(image.is_consistent());
    let stamp = PageStamp {
        page: 0,
        region: Region::full(),
        strokes: 3,
        images: vec![image.clone()],
    };
    assert!(stamp.validate(3).is_ok());
    assert!(stamp.validate(2).is_err());
    let short = StampImage {
        rgba: vec![0; 15],
        ..image
    };
    assert!(!short.is_consistent());
}

#[test]
fn a_closed_document_is_gone() {
    let mut backend = FixtureBackend::new();
    let first = backend.open("fixture:pages=2").unwrap();
    let second = backend.open("fixture:pages=5").unwrap();
    assert_ne!(first, second);
    backend.close(first);
    assert!(backend.metadata(first).is_err());
    assert!(backend.page_size(first, 0).is_err());
    assert_eq!(backend.metadata(second).unwrap().page_count, 5);
}

// --- The router --------------------------------------------------------------

/// A worker as the router sees it: pictures at `/p`, decks by their name.
struct Worker {
    router: Router,
    images: ImageBackend,
    decks: FixtureBackend,
    binds: usize,
    can_bind: bool,
}

impl Worker {
    fn new(can_bind: bool) -> Self {
        Worker {
            router: Router::new(),
            images: ImageBackend::new(),
            decks: FixtureBackend::new(),
            binds: 0,
            can_bind,
        }
    }

    fn open(&mut self, source: &str, pictures: &[&str]) -> Result<BackendDocumentId, PdfError> {
        let plan = self.router.plan(source.as_bytes(), !pictures.is_empty())?;
        let document = self.router.reserve();
        let route = match plan {
            OpenPlan::Images => {
                let files = pictures
                    .iter()
                    .map(|name| ListedFile {
                        name: name.as_bytes().to_vec(),
                        facts: Some(FileFacts {
                            is_dir: false,
                            len: 1,
                            modified: None,
                        }),
                    })
                    .collect();
                Route::Images(self.images.open(
                    PageSource::Directory(source.as_bytes().to_vec()),
                    Listing::Files(files),
                )?)
            }
            OpenPlan::Pdf { bind } => {
                if bind {
                    if !self.can_bind {
                        return Err(PdfError::Unavailable("no libpdfium here".to_string()));
                    }
                    self.binds += 1;
                    self.router.pdf_was_bound();
                }
                Route::Pdf(self.decks.open(source)?)
            }
        };
        self.router.enter(document, route);
        Ok(document)
    }

    fn page_count(&self, document: BackendDocumentId) -> Result<usize, PdfError> {
        match self.router.resolve(document)? {
            Route::Images(inner) => {
                let count = self.images.table(inner).map_or(0, |table| table.len());
                Ok(count)
            }
            Route::Pdf(inner) => Ok(self.decks.metadata(inner)?.page_count),
        }
    }
}

/// Binding is attempted on the first PDF open, not at startup, so a worker
/// that only ever sees pictures never needs a PDF library.
#[test]
fn a_worker_that_only_opens_images_never_binds_a_pdf_backend() {
    let mut worker = Worker::new(true);
    let document = worker.open("/p", &["a.png"]).unwrap();
    assert_eq!(worker.page_count(document).unwrap(), 1);
    assert_eq!(worker.binds, 0);
    assert!(!worker.router.pdf_is_bound());
}

#[test]
fn a_pdf_open_binds_the_pdf_backend_once() {
    let mut worker = Worker::new(true);
    worker.open("fixture:pages=3", &[]).unwrap();
    worker.open("fixture:pages=4", &[]).unwrap();
    assert_eq!(worker.binds, 1, "bound once, reused after");
    assert!(worker.router.pdf_is_bound());
}

/// A reload holds two documents at once, and they need not be the same kind.
#[test]
fn one_worker_holds_a_deck_and_a_folder_at_the_same_time() {
    let mut worker = Worker::new(true);
    let deck = worker.open("fixture:pages=7", &[]).unwrap();
    let folder = worker.open("/p", &["a.png", "b.png"]).unwrap();
    assert_ne!(deck, folder, "the router hands out its own ids");
    assert_eq!(worker.page_count(deck).unwrap(), 7);
    assert_eq!(worker.page_count(folder).unwrap(), 2);

    // And each renders through its own backend.
    let request = |document, page| RenderRequest {
        document,
        page,
        region: Region::full(),
        width: 8,
        height: 8,
        with_annotations: false,
    };
    let Ok(Route::Pdf(inner)) = worker.router.resolve(deck) else {
        panic!("a deck goes to the PDF backend");
    };
    let asked = rewritten(&request(deck, 6), inner);
    assert!(worker.decks.render(&asked, &NeverCancel).is_ok());

    let Ok(Route::Images(inner)) = worker.router.resolve(folder) else {
        panic!("a folder goes to the image backend");
    };
    let asked = rewritten(&request(folder, 1), inner);
    let Prepared::Read { location, key } = worker.images.prepare(&asked, false).unwrap() else {
        panic!("nothing was decoded yet");
    };
    let mut png = std::io::Cursor::new(Vec::new());
    image::RgbaImage::from_pixel(8, 8, image::Rgba([1, 2, 3, 255]))
        .write_to(&mut png, image::ImageFormat::Png)
        .unwrap();
    let picture = worker
        .images
        .take_in(key, &location, Ok(png.into_inner()))
        .unwrap();
    let mut pixels = vec![0u8; 8 * 8 * 4];
    draw(&picture, &asked, false, &mut pixels).unwrap();
    assert_eq!(&pixels[..4], &[1, 2, 3, 255]);

    assert!(matches!(
        worker.router.close(folder),
        Some(Route::Images(_))
    ));
    assert!(worker.page_count(folder).is_err());
    assert_eq!(worker.page_count(deck).unwrap(), 7, "unaffected");
}

/// A comic format that is refused is refused before a PDF library is asked.
#[test]
fn a_comic_format_pulpit_refuses_never_reaches_the_pdf_backend() {
    let mut worker = Worker::new(true);
    for name in ["/comics/book.cbr", "/comics/book.cb7"] {
        let error = worker.open(name, &[]).unwrap_err().message();
        assert!(error.contains(".cbz"), "{name}: {error}");
        assert!(
            !error.to_lowercase().contains("corrupt") && !error.to_lowercase().contains("damaged"),
            "{name}: {error}"
        );
    }
    assert_eq!(
        worker.binds, 0,
        "and it does not even ask for a PDF library first"
    );
}

#[test]
fn a_pdf_open_that_cannot_bind_fails_that_open_and_nothing_else() {
    let mut worker = Worker::new(false);
    assert!(worker.open("/decks/talk.pdf", &[]).is_err());
    let folder = worker.open("/p", &["a.png"]).unwrap();
    assert_eq!(worker.page_count(folder).unwrap(), 1);
}

#[test]
fn the_versions_of_both_backends_are_told() {
    let both = versions("images 1", Some("pdf 2"));
    assert!(both.contains("images 1") && both.contains("pdf 2"));
    assert!(versions("images 1", None).contains("images 1"));
}

// --- The PDF library -----------------------------------------------------------

/// A path is rewritten into the host's spelling, so a relative asset path has
/// to be put back into the document's own.
#[test]
fn a_relative_asset_path_survives_every_platform_rewrite() {
    let wanted = "media-assets/bouncing.gif";
    assert_eq!(pdf_separators(wanted, PathConvention::Posix), wanted);
    assert_eq!(
        pdf_separators("media-assets:bouncing.gif", PathConvention::Apple),
        wanted
    );
    assert_eq!(
        pdf_separators("media-assets\\bouncing.gif", PathConvention::Windows),
        wanted
    );
}

#[test]
fn a_nested_path_converts_at_every_separator() {
    assert_eq!(
        pdf_separators("a:b:c:clip.mp4", PathConvention::Apple),
        "a/b/c/clip.mp4"
    );
    assert_eq!(
        pdf_separators("a\\b\\c\\clip.mp4", PathConvention::Windows),
        "a/b/c/clip.mp4"
    );
}

#[test]
fn a_path_needing_no_rewrite_is_left_alone() {
    // A deck with a single-component asset name, and the platform whose
    // convention already is the PDF's.
    assert_eq!(
        pdf_separators("clip.mp4", PathConvention::Apple),
        "clip.mp4"
    );
    assert_eq!(
        pdf_separators("media/clip.mp4", PathConvention::Posix),
        "media/clip.mp4"
    );
}

#[test]
fn the_host_convention_matches_the_platform_being_built_for() {
    assert_eq!(convention_of("macos"), PathConvention::Apple);
    assert_eq!(convention_of("windows"), PathConvention::Windows);
    assert_eq!(convention_of("linux"), PathConvention::Posix);
}

#[test]
fn the_render_asks_pdfium_for_rgba_directly() {
    assert_eq!(FPDF_REVERSE_BYTE_ORDER, 0x10);
    assert_eq!(render_flags(false), FPDF_REVERSE_BYTE_ORDER);
    assert_eq!(render_flags(true), FPDF_REVERSE_BYTE_ORDER | FPDF_ANNOT);
}

#[test]
fn a_render_goes_on_until_it_is_done_or_cancelled() {
    assert_eq!(
        render_step(FPDF_RENDER_TOBECONTINUED, false),
        RenderStep::Continue
    );
    assert_eq!(
        render_step(FPDF_RENDER_TOBECONTINUED, true),
        RenderStep::Failed(PdfError::Cancelled)
    );
    assert_eq!(render_step(FPDF_RENDER_DONE, false), RenderStep::Done);
    assert!(matches!(
        render_step(3, false),
        RenderStep::Failed(PdfError::Render(_))
    ));
}

#[test]
fn the_library_is_looked_for_where_it_was_named_first() {
    let places = library_candidates(Some(b"/opt/lib".to_vec()), Some(b"/app/bin/pulpit".to_vec()));
    assert!(!places.is_empty());
    assert!(places[0].starts_with(b"/opt/lib"));
    let error = binding_failure(&["one".to_string(), "two".to_string()]);
    let PdfError::Unavailable(reason) = error else {
        panic!("a library that is not there is unavailable");
    };
    assert!(reason.contains("one") && reason.contains("two"));
}

#[test]
fn codes_of_the_library_are_named() {
    assert_eq!(form_type(0), FormType::NoForm);
    assert_eq!(form_type(1), FormType::AcroForm);
    assert_eq!(form_type(2), FormType::Xfa);
    assert_eq!(annotation_subtype(2), AnnotationSubtype::Link);
    assert_eq!(annotation_subtype(9_999), AnnotationSubtype::Other);
    assert_eq!(link_action(false, None), ActionKind::NoAction);
    assert_eq!(link_action(true, None), ActionKind::GoTo);
}

#[test]
fn text_of_the_library_is_utf16() {
    assert_eq!(
        decode_utf16le(&[b'a', 0, 0x3D, 0xD8, 0x00, 0xDE, 0, 0]).as_deref(),
        Some("a\u{1F600}")
    );
    assert_eq!(decode_utf16le(&[0, 0]).as_deref(), Some(""));
    let read = [Some(vec![b'k', 0, 0, 0]), None, Some(vec![b'v', 0, 0, 0])];
    assert!(metadata_text(&read).contains('k'));
    assert_eq!(script_names(&read[..1], 1), ["k"]);
}

#[test]
fn a_launch_is_a_link_to_a_file_and_nothing_is_run() {
    let target = link_target(
        None,
        Some(LinkAction::Launch(b"media:clip.mp4".to_vec())),
        PathConvention::Apple,
    );
    assert_eq!(
        target,
        Some(LinkTarget::Uri("run:media/clip.mp4".to_string()))
    );
    let direct = link_target(
        Some(Destination {
            page: 4,
            zoom: None,
        }),
        None,
        PathConvention::Posix,
    );
    assert_eq!(direct, Some(LinkTarget::Page { page: 4, zoom: None }));
    assert_eq!(link_target(None, None, PathConvention::Posix), None);
}

#[test]
fn only_a_part_of_a_page_is_worth_zooming_to() {
    assert_eq!(worth_zooming(Region::full()), None);
    let part = Region::new(100_000, 100_000, 250_000, 250_000);
    assert_eq!(worth_zooming(part), Some(part));
}

#[test]
fn targets_and_attachments_are_checked_first() {
    let request = frame(BackendDocumentId(1), 0);
    assert_eq!(check_target(&request, 320 * 180 * 4), Ok(320 * 180 * 4));
    assert!(check_target(&request, 320 * 180 * 4 - 1).is_err());
    assert!(check_attachment("clip.mp4", true, 10).is_ok());
    assert!(check_attachment("clip.mp4", false, 10).is_err());
    assert!(check_attachment("clip.mp4", true, MAX_ATTACHMENT_FILE_BYTES + 1).is_err());
}

#[test]
fn hits_are_gathered_up_to_a_bound() {
    let mut hits = vec![1, 2];
    assert!(!gather(&mut hits, vec![3], 5));
    assert!(gather(&mut hits, vec![4, 5, 6], 5));
    assert_eq!(hits, [1, 2, 3, 4, 5]);
}

// --- Searching --------------------------------------------------------------------

#[test]
fn rust_character_offsets_are_mapped_back_to_pdfium_utf16_offsets() {
    let page = PageText::from_text("a😀b".to_string());
    assert_eq!(page.offsets(), [0, 1, 3, 4]);
    assert_eq!(
        page.utf16_range(TextMatch { offset: 1, len: 1 }),
        Some((1, 2))
    );
    assert_eq!(page.utf16_range(TextMatch { offset: 3, len: 1 }), None);
}

#[test]
fn the_text_of_a_page_is_kept_until_the_document_goes() {
    let mut cache = PageTextCache::default();
    let key = PageKey {
        document: 1,
        page: 2,
    };
    assert!(cache.get(key).is_none());
    cache.insert(key, PageText::from_text("words".to_string()));
    assert_eq!(cache.get(key).unwrap().offsets().len(), 6);
    cache.forget_document(1);
    assert!(cache.get(key).is_none());
}

// --- Made-up documents ----------------------------------------------------------------

#[test]
fn produces_a_plausible_pdf() {
    let bytes = write_pdf(3, Some("pulpit:mapping=slides-only"));
    assert!(bytes.starts_with(b"%PDF-1.7"));
    assert!(bytes.ends_with(b"%%EOF\n"));
    assert_eq!(
        bytes.windows(9).filter(|w| *w == b"/Type /Pa").count(),
        4,
        "one page tree plus three pages"
    );
}

#[test]
fn an_attachment_is_carried_in_the_file() {
    let bytes = write_pdf_with_attachment(1, None, Some(("clip.txt", "contents here")));
    let text = String::from_utf8_lossy(&bytes);
    assert!(text.contains("clip.txt"));
    assert!(text.contains("contents here"));
}

#[test]
fn a_document_without_pages_is_refused() {
    assert!(check_document("deck.pdf", None, 3).is_ok());
    assert_eq!(
        check_document("deck.pdf", None, 0),
        Err(PdfError::Open {
            path: "deck.pdf".to_string(),
            reason: "document has no pages".to_string(),
        })
    );
    assert_eq!(
        check_document("deck.pdf", Some(3), 0),
        Err(PdfError::Open {
            path: "deck.pdf".to_string(),
            reason: "PDFium error 3".to_string(),
        })
    );
    assert_eq!(
        check_page(3, 3),
        Err(PdfError::PageOutOfRange { page: 3, count: 3 })
    );
    assert!(check_page(2, 3).is_ok());
}

#[test]
fn attachments_are_told_apart_exactly() {
    assert_eq!(
        attachment_name(&[b' ', 0, b'a', 0, 0, 0]).as_deref(),
        Some(" a")
    );
    assert_eq!(attachment_name(&[0, 0]), None);
    assert!(worth_reading(4, 8) && !worth_reading(2, 8) && !worth_reading(9, 8));
    assert_eq!(
        take_attachment("clip", true, vec![1, 2, 3], 2),
        Ok(vec![1, 2])
    );
    assert_eq!(
        take_attachment("clip", false, vec![1, 2, 3], 2),
        Err(PdfError::Invalid(
            "attachment `clip` could not be read".to_string()
        ))
    );
    assert_eq!(
        no_attachment("clip").message(),
        PdfError::Invalid("the document has no attachment named `clip`".to_string()).message()
    );
}

#[test]
fn only_a_destination_of_a_bookmark_is_followed() {
    let to_four = Some(LinkTarget::Page {
        page: 4,
        zoom: None,
    });
    assert_eq!(bookmark_target(Some(4), None), to_four);
    assert_eq!(bookmark_target(None, Some((1, Some(4)))), to_four);
    assert_eq!(bookmark_target(None, Some((4, Some(4)))), None);
    assert_eq!(bookmark_target(Some(-1), None), None);
}

#[test]
fn the_part_that_is_asked_for_fills_the_frame() {
    assert_eq!(
        page_placement(Region::full(), 320, 180),
        Placement {
            start_x: 0,
            start_y: 0,
            width: 320,
            height: 180,
        }
    );
    assert_eq!(
        page_placement(Region::new(500_000, 250_000, 500_000, 250_000), 320, 180),
        Placement {
            start_x: -320,
            start_y: -180,
            width: 640,
            height: 720,
        }
    );
}

#[test]
fn a_backend_that_cannot_export_says_so() {
    let backend = FixtureBackend::new();
    assert_eq!(
        backend.export_annotated("deck.pdf", "copy.pdf", &[]),
        Err(PdfError::Unsupported("write an annotated PDF"))
    );
}
