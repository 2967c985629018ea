//! Documents whose cross-reference section is a stream: their rows are read, and
//! they are extended and signed as others are.

use flate2::write::ZlibEncoder;
use pulpit_render::pdfoutline::{with_outline, Outline, OutlineEntry, OutlineTarget};
use pulpit_render::pdfread::dictionary::entry as value_of;
use pulpit_render::pdfread::filter::decode;
use pulpit_render::pdfread::xref::{read_chain, read_section};
use pulpit_render::pdfwrite::{find_startxref_offset, IncrementalWriter, PdfObject, XRefKind};
use pulpit_render::sign::document::{
    find_catalog_ref, find_generation, parse_object_dictionary, read_layout,
};
use pulpit_render::sign::generate::{generate_self_signed_pkcs12, NewCredentialIdentity};
use pulpit_render::sign::plan::{plan_revision, PreflightOk};
use pulpit_render::sign::request::SignRequest;
use pulpit_render::sign::revision::sign_document;
use pulpit_render::sign::{load_pkcs12, Credential};
use std::io::Write;

#[derive(Clone, Copy, Debug, PartialEq)]
enum Packing {
    Plain,
    Deflated,
    Predicted,
}

fn deflated(bytes: &[u8]) -> Vec<u8> {
    let mut encoder = ZlibEncoder::new(Vec::new(), flate2::Compression::default());
    encoder.write_all(bytes).unwrap();
    encoder.finish().unwrap()
}

/// Rows of four bytes, each written as what it has more than the one above it.
fn predicted(rows: &[[u8; 4]]) -> Vec<u8> {
    let mut above = [0u8; 4];
    let mut out = Vec::new();
    for row in rows {
        out.push(2);
        for column in 0..4 {
            out.push(row[column].wrapping_sub(above[column]));
        }
        above = *row;
    }
    out
}

/// A document of one page, and where its section stands.
fn stream_document(packing: Packing) -> (Vec<u8>, u64) {
    let mut bytes = b"%PDF-1.7\n".to_vec();
    let mut rows: Vec<[u8; 4]> = vec![[0, 0, 0, 255]];
    let row = |at: usize| [1, (at / 256) as u8, (at % 256) as u8, 0];
    for (index, object) in [
        "<< /Type /Catalog /Pages 2 0 R >>",
        "<< /Type /Pages /Kids [3 0 R] /Count 1 >>",
        "<< /Type /Page /Parent 2 0 R /MediaBox [0 0 612 792] >>",
    ]
    .iter()
    .enumerate()
    {
        rows.push(row(bytes.len()));
        bytes.extend_from_slice(format!("{} 0 obj\n{object}\nendobj\n", index + 1).as_bytes());
    }
    let at = bytes.len();
    rows.push(row(at));
    let (content, filter) = match packing {
        Packing::Plain => (rows.concat(), ""),
        Packing::Deflated => (deflated(&rows.concat()), "/Filter /FlateDecode "),
        Packing::Predicted => (
            deflated(&predicted(&rows)),
            "/Filter [/FlateDecode] /DecodeParms [<< /Predictor 12 /Columns 4 >>] ",
        ),
    };
    bytes.extend_from_slice(
        format!(
            "4 0 obj\n<< /Type /XRef /Size 5 /W [1 2 1] /Root 1 0 R {filter}/Length {} >>\nstream\n",
            content.len()
        )
        .as_bytes(),
    );
    bytes.extend_from_slice(&content);
    bytes.extend_from_slice(format!("\nendstream\nendobj\nstartxref\n{at}\n%%EOF\n").as_bytes());
    (bytes, at as u64)
}

const PACKINGS: [Packing; 3] = [Packing::Plain, Packing::Deflated, Packing::Predicted];

#[test]
fn the_rows_of_a_stream_are_read_however_it_is_packed() {
    for packing in PACKINGS {
        let (bytes, at) = stream_document(packing);
        let section = read_section(&bytes, at).expect("a section");
        assert_eq!(section.kind, XRefKind::Stream);
        let numbers: Vec<u32> = section.offsets.iter().map(|place| place.0).collect();
        assert_eq!(numbers, [1, 2, 3, 4], "{packing:?}");
        for (number, offset) in section.offsets {
            let header = format!("{number} 0 obj\n");
            assert!(
                bytes[offset as usize..].starts_with(header.as_bytes()),
                "{packing:?}"
            );
        }
    }
}

#[test]
fn an_index_numbers_the_rows_by_its_runs() {
    let mut bytes = b"%PDF-1.7\n".to_vec();
    let at = bytes.len();
    bytes.extend_from_slice(
        b"9 0 obj\n<< /Type /XRef /Size 10 /W [0 2 0] /Index [4 1 7 2] /Root 4 0 R /Length 6 >>\nstream\r\n",
    );
    bytes.extend_from_slice(&[0, 50, 0, 60, 0, 70]);
    bytes.extend_from_slice(format!("\nendstream\nendobj\nstartxref\n{at}\n%%EOF\n").as_bytes());
    let section = read_section(&bytes, at as u64).expect("a section");
    assert_eq!(
        section.offsets,
        [(4, 50), (7, 60), (8, 70)],
        "a type of no width stands for an object in use"
    );
}

#[test]
fn what_is_packed_is_unpacked() {
    let text = b"one two three".to_vec();
    assert_eq!(decode(&[], &text), Some(text.clone()));
    let flate = || ("Filter".to_string(), PdfObject::Name("FlateDecode".to_string()));
    assert_eq!(decode(&[flate()], &deflated(&text)), Some(text.clone()));
    assert_eq!(
        decode(
            &[("Filter".to_string(), PdfObject::Name("DCTDecode".to_string()))],
            &text
        ),
        None
    );
    let parameters = |predictor: i64| {
        (
            "DecodeParms".to_string(),
            PdfObject::Dictionary(vec![
                ("Predictor".to_string(), PdfObject::Integer(predictor)),
                ("Columns".to_string(), PdfObject::Integer(3)),
            ]),
        )
    };
    // The row itself, to the left, above, both by half, and the nearest.
    let rows = [
        0, 10, 20, 30, //
        1, 1, 1, 1, //
        2, 5, 5, 5, //
        3, 1, 1, 1, //
        4, 1, 1, 1,
    ];
    assert_eq!(
        decode(&[flate(), parameters(15)], &deflated(&rows)),
        Some(vec![10, 20, 30, 1, 2, 3, 6, 7, 8, 4, 6, 8, 5, 7, 9])
    );
}

/// A second in nanoseconds.
const SECOND: i128 = 1_000_000_000;

fn credential() -> Credential {
    let identity = NewCredentialIdentity {
        common_name: "Ada Lovelace".to_string(),
        organization: None,
        email: None,
        not_before: 1_700_000_000 * SECOND,
        not_after: 1_900_000_000 * SECOND,
    };
    let generated = generate_self_signed_pkcs12(&identity, "a passphrase").unwrap();
    load_pkcs12(&generated.bytes, "a passphrase").unwrap()
}

/// Signs a document, and returns it with what its byte range leaves out.
fn signed(source: &[u8]) -> (Vec<u8>, usize, usize) {
    let layout = read_layout(source).expect("a layout");
    let request = SignRequest {
        signing_time: 1_724_191_200,
        ..SignRequest::default()
    };
    let preflight = Ok(PreflightOk {
        target_field: String::new(),
        seed_value_ignored: false,
    });
    let plan = plan_revision(source, &layout, 0, preflight, &request.field).expect("a plan");
    let candidate =
        sign_document(source, &layout, &request, &plan, &credential()).expect("a signature");
    assert!(candidate.bytes.starts_with(source));
    let ranges: Vec<Vec<usize>> = candidate
        .bytes
        .windows(12)
        .enumerate()
        .filter(|(_, window)| *window == b"/ByteRange [")
        .map(|(at, _)| {
            let rest = &candidate.bytes[at + 12..];
            let end = rest.iter().position(|byte| *byte == b']').unwrap();
            String::from_utf8_lossy(&rest[..end])
                .split_whitespace()
                .map(|number| number.parse().unwrap())
                .collect()
        })
        .filter(|range: &Vec<usize>| range[2] + range[3] == candidate.bytes.len())
        .collect();
    assert_eq!(ranges.len(), 1);
    let range = &ranges[0];
    assert_eq!(range[0], 0);
    assert_eq!(candidate.bytes[range[1]], b'<');
    assert_eq!(candidate.bytes[range[2] - 1], b'>');
    let hex = &candidate.bytes[range[1] + 1..range[2] - 1];
    assert_eq!(hex.len() % 2, 0);
    assert!(hex::decode(hex).unwrap().starts_with(&[0x30]));
    (candidate.bytes, range[1], range[2])
}

#[test]
fn a_document_with_a_stream_is_signed() {
    for packing in PACKINGS {
        let (source, at) = stream_document(packing);
        let (bytes, _, _) = signed(&source);
        let again = IncrementalWriter::open(&bytes).expect("the update opens");
        assert_eq!(again.xref_kind(), XRefKind::Stream);
        assert_eq!(again.trailer().prev, Some(at));
        let chain = read_chain(&bytes, again.prev_startxref()).expect("a chain");
        assert_eq!(chain.len(), 2);
        let layout = read_layout(&bytes).unwrap();
        let number = find_catalog_ref(&layout).unwrap();
        assert_eq!(number, 1);
        let catalog = parse_object_dictionary(&bytes, &layout, number).unwrap();
        let Some(PdfObject::IndirectRef { obj_num, .. }) = value_of(&catalog, "AcroForm") else {
            panic!("no form in {catalog:?}");
        };
        let form = parse_object_dictionary(&bytes, &layout, *obj_num).unwrap();
        assert_eq!(value_of(&form, "SigFlags"), Some(&PdfObject::Integer(3)));
    }
}

#[test]
fn bookmarks_are_added_to_a_document_with_a_stream() {
    let (source, at) = stream_document(Packing::Predicted);
    let outline = Outline {
        entries: vec![OutlineEntry {
            title: "One".to_string(),
            target: OutlineTarget::Page(0),
            depth: 0,
            children: Vec::new(),
        }],
    };
    let updated = with_outline(&source, &outline).unwrap();
    assert!(updated.starts_with(&source));
    let again = IncrementalWriter::open(&updated).unwrap();
    assert_eq!(again.xref_kind(), XRefKind::Stream);
    assert_eq!(again.trailer().prev, Some(at));
    let layout = read_layout(&updated).unwrap();
    let catalog = parse_object_dictionary(&updated, &layout, 1).unwrap();
    let Some(PdfObject::IndirectRef { obj_num, .. }) = value_of(&catalog, "Outlines") else {
        panic!("no bookmarks in {catalog:?}");
    };
    let root = parse_object_dictionary(&updated, &layout, *obj_num).unwrap();
    assert_eq!(value_of(&root, "Count"), Some(&PdfObject::Integer(1)));
}

/// A document of one page with a table, whose catalog has this generation and
/// these entries besides.
fn table_document(generation: u16, more: &str) -> Vec<u8> {
    let mut bytes = b"%PDF-1.7\n".to_vec();
    let mut section = "xref\n0 4\n0000000000 65535 f \n".to_string();
    for (index, (generation, object)) in [
        (
            generation,
            format!("<< /Type /Catalog /Pages 2 0 R {more}>>"),
        ),
        (0, "<< /Type /Pages /Kids [3 0 R] /Count 1 >>".to_string()),
        (
            0,
            "<< /Type /Page /Parent 2 0 R /MediaBox [0 0 612 792] >>".to_string(),
        ),
    ]
    .iter()
    .enumerate()
    {
        section.push_str(&format!("{:010} {generation:05} n \n", bytes.len()));
        bytes.extend_from_slice(
            format!("{} {generation} obj\n{object}\nendobj\n", index + 1).as_bytes(),
        );
    }
    let at = bytes.len();
    section.push_str(&format!(
        "trailer\n<< /Size 4 /Root 1 {generation} R >>\nstartxref\n{at}\n%%EOF\n"
    ));
    bytes.extend_from_slice(section.as_bytes());
    bytes
}

#[test]
fn a_catalog_keeps_its_generation() {
    let source = table_document(5, "");
    assert_eq!(find_generation(&source, &read_layout(&source).unwrap(), 1), 5);
    let (bytes, _, _) = signed(&source);
    let update = &bytes[source.len()..];
    assert!(update.windows(8).any(|window| window == b"1 5 obj\n"));
    assert!(!update.windows(8).any(|window| window == b"1 0 obj\n"));
    let layout = read_layout(&bytes).unwrap();
    assert_eq!(find_generation(&bytes, &layout, 1), 5);
    assert_eq!(
        IncrementalWriter::open(&bytes).unwrap().trailer().root,
        Some((1, 5))
    );

    let outlined = with_outline(&source, &Outline { entries: Vec::new() }).unwrap();
    let update = &outlined[source.len()..];
    assert!(update.windows(8).any(|window| window == b"1 5 obj\n"));
}

#[test]
fn only_the_place_of_the_signature_is_filled_in() {
    let note = "/Note << /ByteRange [0 1 2 3] /Contents <00> >> ";
    let source = table_document(0, note);
    let (bytes, from, _) = signed(&source);
    assert!(from > source.len());
    let layout = read_layout(&bytes).unwrap();
    let catalog = parse_object_dictionary(&bytes, &layout, 1).unwrap();
    let Some(PdfObject::Dictionary(note)) = value_of(&catalog, "Note") else {
        panic!("no note in {catalog:?}");
    };
    assert_eq!(
        value_of(note, "Contents"),
        Some(&PdfObject::HexString(vec![0]))
    );
    assert_eq!(
        value_of(note, "ByteRange"),
        Some(&PdfObject::Array(vec![
            PdfObject::Integer(0),
            PdfObject::Integer(1),
            PdfObject::Integer(2),
            PdfObject::Integer(3),
        ]))
    );
}

#[test]
fn what_the_newest_section_calls_free_is_gone() {
    let mut bytes = table_document(0, "");
    let before = find_startxref_offset(&bytes).unwrap();
    let at = bytes.len();
    bytes.extend_from_slice(
        format!(
            "xref\n3 1\n0000000000 00001 f \ntrailer\n<< /Size 4 /Root 1 0 R /Prev {before} >>\n\
             startxref\n{at}\n%%EOF\n"
        )
        .as_bytes(),
    );
    let layout = read_layout(&bytes).unwrap();
    let numbers: Vec<u32> = layout.objects.iter().map(|place| place.0).collect();
    assert_eq!(numbers, [1, 2]);
    assert!(parse_object_dictionary(&bytes, &layout, 2).is_ok());
    assert!(parse_object_dictionary(&bytes, &layout, 3).is_err());
}

#[test]
fn an_object_that_moved_into_another_is_not_read_from_its_old_place() {
    let (mut bytes, before) = stream_document(Packing::Plain);
    let at = bytes.len();
    bytes.extend_from_slice(
        format!(
            "5 0 obj\n<< /Type /XRef /Size 6 /W [1 2 1] /Index [1 1] /Root 1 0 R /Prev {before} \
             /Length 4 >>\nstream\n"
        )
        .as_bytes(),
    );
    bytes.extend_from_slice(&[2, 0, 9, 0]);
    bytes.extend_from_slice(format!("\nendstream\nendobj\nstartxref\n{at}\n%%EOF\n").as_bytes());
    let layout = read_layout(&bytes).unwrap();
    assert!(parse_object_dictionary(&bytes, &layout, 1).is_err());
    assert!(parse_object_dictionary(&bytes, &layout, 2).is_ok());
    assert!(with_outline(&bytes, &Outline { entries: Vec::new() }).is_err());
}
