//! Bookmarks appended to a document.

use pulpit_render::pdfoutline::{
    with_outline, with_outline_and_id, Outline, OutlineEntry, OutlineTarget, OutlineWriteError,
};
use pulpit_render::pdfread::dictionary::entry as value_of;
use pulpit_render::pdftext::decode_text_string;
use pulpit_render::pdfwrite::PdfObject;
use pulpit_render::sign::document::{parse_object_dictionary, read_layout};

/// Builds a PDF with a cross-reference table.
fn build(objects: &[&str], trailer: &str) -> Vec<u8> {
    let mut bytes = b"%PDF-1.7\n".to_vec();
    let size = objects.len() + 1;
    let mut section = format!("xref\n0 {size}\n0000000000 65535 f \n");
    for (index, object) in objects.iter().enumerate() {
        section.push_str(&format!("{:010} 00000 n \n", bytes.len()));
        bytes.extend_from_slice(format!("{} 0 obj\n{object}\nendobj\n", index + 1).as_bytes());
    }
    let xref_at = bytes.len();
    section.push_str(&format!(
        "trailer\n<< /Size {size} /Root 1 0 R {trailer} >>\nstartxref\n{xref_at}\n%%EOF\n"
    ));
    bytes.extend_from_slice(section.as_bytes());
    bytes
}

const PAGE: &str = "<< /Type /Page /Parent 2 0 R /MediaBox [0 0 612 792] >>";

fn three_pages() -> Vec<u8> {
    build(
        &[
            "<< /Type /Catalog /Pages 2 0 R >>",
            "<< /Type /Pages /Kids [3 0 R 4 0 R 5 0 R] /Count 3 >>",
            PAGE,
            PAGE,
            PAGE,
        ],
        "",
    )
}

fn entry(title: &str, page: usize, depth: usize, children: Vec<OutlineEntry>) -> OutlineEntry {
    OutlineEntry {
        title: title.to_string(),
        target: OutlineTarget::Page(page),
        depth,
        children,
    }
}

type Entries = Vec<(String, PdfObject)>;

/// The dictionary of an object.
fn object(bytes: &[u8], number: u32) -> Entries {
    let layout = read_layout(bytes).expect("a layout");
    parse_object_dictionary(bytes, &layout, number).expect("a dictionary")
}

fn catalog(bytes: &[u8]) -> Entries {
    let layout = read_layout(bytes).expect("a layout");
    object(bytes, layout.catalog.expect("a catalog"))
}

fn number_of(entries: &Entries, key: &str) -> u32 {
    match value_of(entries, key) {
        Some(PdfObject::IndirectRef { obj_num, .. }) => *obj_num,
        other => panic!("expected a reference under {key}, got {other:?}"),
    }
}

/// The dictionary a reference names.
fn follow(bytes: &[u8], entries: &Entries, key: &str) -> Entries {
    object(bytes, number_of(entries, key))
}

fn title_of(entries: &Entries) -> String {
    match value_of(entries, "Title") {
        Some(PdfObject::RawString(title) | PdfObject::HexString(title)) => {
            decode_text_string(title)
        }
        other => panic!("a /Title is a string, got {other:?}"),
    }
}

#[test]
fn the_written_tree_walks_back_in_order_with_its_links_intact() {
    let bytes = three_pages();
    let outline = Outline {
        entries: vec![
            entry(
                "Méthode",
                0,
                0,
                vec![
                    entry("Setup", 1, 1, Vec::new()),
                    entry("Results", 2, 1, Vec::new()),
                ],
            ),
            entry("Conclusion", 2, 0, Vec::new()),
        ],
    };
    let updated = with_outline(&bytes, &outline).expect("append");
    assert!(
        updated.starts_with(&bytes),
        "an incremental update leaves every original byte in place"
    );

    let outlines = follow(&updated, &catalog(&updated), "Outlines");
    assert_eq!(
        value_of(&outlines, "Type"),
        Some(&PdfObject::Name("Outlines".to_string()))
    );
    assert_eq!(value_of(&outlines, "Count"), Some(&PdfObject::Integer(4)));

    // Walk First/Next through the top level.
    let first = follow(&updated, &outlines, "First");
    assert_eq!(
        title_of(&first),
        "Méthode",
        "a non-ASCII title survives as UTF-16BE"
    );
    assert_eq!(value_of(&first, "Count"), Some(&PdfObject::Integer(2)));

    let second = follow(&updated, &first, "Next");
    assert_eq!(title_of(&second), "Conclusion");
    assert!(
        value_of(&second, "Next").is_none(),
        "the last sibling has no /Next"
    );

    // The child level: parents point up, destinations point at real page
    // objects.
    let first_number = number_of(&outlines, "First");
    let child = follow(&updated, &first, "First");
    assert_eq!(
        number_of(&child, "Parent"),
        first_number,
        "a child's /Parent is its own parent item"
    );
    let Some(PdfObject::Array(dest)) = value_of(&child, "Dest") else {
        panic!("a /Dest is an array");
    };
    assert_eq!(
        dest.first(),
        Some(&PdfObject::IndirectRef {
            obj_num: 4,
            gen_num: 0
        }),
        "Setup points at page two, which the fixture numbers 4"
    );
    assert_eq!(dest.get(1), Some(&PdfObject::Name("XYZ".to_string())));
}

#[test]
fn an_empty_outline_writes_an_empty_root() {
    let bytes = three_pages();
    let updated = with_outline(
        &bytes,
        &Outline {
            entries: Vec::new(),
        },
    )
    .expect("append");
    let outlines = follow(&updated, &catalog(&updated), "Outlines");
    assert!(value_of(&outlines, "First").is_none());
    assert!(value_of(&outlines, "Count").is_none());
}

#[test]
fn a_uri_bookmark_carries_an_action_and_a_dangling_page_no_destination() {
    let bytes = three_pages();
    let outline = Outline {
        entries: vec![
            OutlineEntry {
                title: "Homepage".to_string(),
                target: OutlineTarget::Uri("https://example.org".to_string()),
                depth: 0,
                children: Vec::new(),
            },
            entry("Gone", 9, 0, Vec::new()),
        ],
    };
    let updated = with_outline(&bytes, &outline).expect("append");
    let outlines = follow(&updated, &catalog(&updated), "Outlines");
    let first = follow(&updated, &outlines, "First");
    let Some(PdfObject::Dictionary(action)) = value_of(&first, "A") else {
        panic!("an /A is a dictionary");
    };
    assert_eq!(
        value_of(action, "S"),
        Some(&PdfObject::Name("URI".to_string()))
    );
    let second = follow(&updated, &first, "Next");
    assert!(value_of(&second, "Dest").is_none(), "page 9 does not exist");
    assert!(
        value_of(&second, "Title").is_some(),
        "the title still survives"
    );
}

#[test]
fn an_encrypted_document_is_refused_whole() {
    let bytes = build(
        &[
            "<< /Type /Catalog /Pages 2 0 R >>",
            "<< /Type /Pages /Kids [] /Count 0 >>",
            "<< /Filter /Standard >>",
        ],
        "/Encrypt 3 0 R",
    );
    assert!(matches!(
        with_outline(
            &bytes,
            &Outline {
                entries: Vec::new()
            }
        ),
        Err(OutlineWriteError::Encrypted)
    ));
}

#[test]
fn the_same_inputs_write_the_same_bytes() {
    let bytes = three_pages();
    let outline = Outline {
        entries: vec![entry("Introduction", 0, 0, Vec::new())],
    };
    assert_eq!(
        with_outline(&bytes, &outline).expect("first"),
        with_outline(&bytes, &outline).expect("second")
    );
}

#[test]
fn the_identifier_is_written_as_given() {
    let bytes = build(
        &[
            "<< /Type /Catalog /Pages 2 0 R >>",
            "<< /Type /Pages /Kids [3 0 R] /Count 1 >>",
            PAGE,
        ],
        "/ID [<0102> <0304>]",
    );
    let outline = Outline {
        entries: vec![entry("One", 0, 0, Vec::new())],
    };
    let updated = with_outline_and_id(&bytes, &outline, &[0xAB, 0xCD]).expect("append");
    let text = String::from_utf8_lossy(&updated[bytes.len()..]).into_owned();
    assert!(text.contains("<0102>"), "{text}");
    assert!(text.contains("<ABCD>"), "{text}");
}

#[test]
fn what_is_not_a_pdf_cannot_be_given_bookmarks() {
    let error = with_outline(
        b"not a pdf",
        &Outline {
            entries: Vec::new(),
        },
    )
    .unwrap_err();
    assert!(!error.message().is_empty());
}
