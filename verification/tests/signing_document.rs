//! Signing a document.

use pulpit_render::pdfread::dictionary::{entry, set_entry};
use pulpit_render::pdfread::value::MAX_VALUE_DEPTH;
use pulpit_render::pdfwrite::tokenizer::tokenize;
use pulpit_render::pdfwrite::PdfObject;
use pulpit_render::sign::dates::{civil_from_days, pdf_date};
use pulpit_render::sign::document::{decode_pdf_string, parse_value};
use pulpit_render::sign::gate::{
    verification_gate, SignatureCoverage, SignatureStatus, SignatureVerification,
};
use pulpit_render::sign::refusal::SignApplyError;

#[test]
fn pdf_date_matches_the_spec_form() {
    assert_eq!(pdf_date(1_724_191_200), "D:20240820220000+00'00'");
    assert_eq!(pdf_date(0), "D:19700101000000+00'00'");
    // A leap day, which is where a hand-rolled calendar goes wrong.
    assert_eq!(pdf_date(1_709_164_800), "D:20240229000000+00'00'");
}

#[test]
fn parsing_a_dictionary_keeps_references_apart_from_numbers() {
    let source =
        b"7 0 obj\n<< /Type /Page /Parent 2 0 R /Count 3 /Rect [0 0 612 792] >>\nendobj";
    let tokens = tokenize(source);
    let start = tokens.iter().position(|t| t == b"obj").unwrap() + 1;
    let (object, _) = parse_value(&tokens, start, 0).unwrap();
    let PdfObject::Dictionary(entries) = object else {
        panic!("expected a dictionary");
    };
    assert!(matches!(
        entry(&entries, "Parent"),
        Some(PdfObject::IndirectRef { obj_num: 2, .. })
    ));
    assert!(matches!(
        entry(&entries, "Count"),
        Some(PdfObject::Integer(3))
    ));
    assert!(matches!(entry(&entries, "Rect"), Some(PdfObject::Array(a)) if a.len() == 4));
}

#[test]
fn setting_a_key_that_exists_keeps_its_position() {
    let mut entries = vec![
        ("Type".to_string(), PdfObject::Name("Catalog".into())),
        ("Pages".to_string(), PdfObject::Integer(1)),
    ];
    set_entry(&mut entries, "Type", PdfObject::Name("Other".into()));
    set_entry(&mut entries, "AcroForm", PdfObject::Integer(9));
    assert_eq!(entries[0].0, "Type");
    assert_eq!(entries.len(), 3);
    assert_eq!(entries[2].0, "AcroForm");
}

#[test]
fn a_shorter_output_is_refused_by_the_gate() {
    let error = verification_gate(b"0123456789", b"01234", Ok(Vec::new()), 0, "Signature1").unwrap_err();
    assert!(matches!(
        error,
        SignApplyError::PostSignVerificationFailed { .. }
    ));
}

#[test]
fn changed_leading_bytes_are_refused_by_the_gate() {
    let error = verification_gate(
        b"0123456789",
        b"012456789abc",
        Ok(Vec::new()),
        0,
        "Signature1",
    )
    .unwrap_err();
    assert!(matches!(
        error,
        SignApplyError::PostSignVerificationFailed { .. }
    ));
}

/// Deeply nested arrays should error cleanly, not overflow stack.
#[test]
fn deeply_nested_array_errors_cleanly() {
    // Construct tokens representing deeply nested arrays: [[[[[...
    let mut tokens = vec![];
    for _ in 0..MAX_VALUE_DEPTH + 10 {
        tokens.push(b"[".to_vec());
    }
    tokens.push(b"42".to_vec());
    for _ in 0..MAX_VALUE_DEPTH + 10 {
        tokens.push(b"]".to_vec());
    }

    let result = parse_value(&tokens, 0, 0);
    assert!(
        result.is_err(),
        "deeply nested value should error, not overflow"
    );
    match result {
        Err(SignApplyError::Unsupported(msg)) if msg.contains("nesting too deep") => {
            // Expected
        }
        other => panic!("expected nesting depth error, got {:?}", other),
    }
}

/// Non-ASCII string bytes should survive parse/re-emit round trip.
/// Tests that `(Café)` with raw byte 0xE9 is preserved, not converted to replacement char.
#[test]
fn non_ascii_string_bytes_preserved_in_parse() {
    // Create tokens for a literal string containing non-ASCII bytes.
    // Représent (Café) where é is 0xE9 (PDFDocEncoding).
    let cafe_bytes = b"(Caf\xE9)".to_vec();
    let tokens = vec![cafe_bytes];

    let (object, _) = parse_value(&tokens, 0, 0).expect("parse should succeed");
    match object {
        PdfObject::RawString(bytes) => {
            // The string content (without the parentheses) should be [C, a, f, 0xE9]
            assert_eq!(bytes, b"Caf\xE9", "non-ASCII bytes must be preserved");
        }
        other => panic!("expected PdfObject::String, got {:?}", other),
    }
}

/// A field's `/T` is document bytes, so it parses to `RawString`. Both
/// `find_field_object` and `existing_field_names` must match that variant
/// and decode it.
#[test]
fn a_field_name_parses_to_the_variant_its_consumers_match() {
    let tokens: Vec<Vec<u8>> = [
        &b"<<"[..],
        &b"/T"[..],
        &b"(Caf\xE9 Sig)"[..],
        &b"/FT"[..],
        &b"/Sig"[..],
        &b">>"[..],
    ]
    .iter()
    .map(|t| t.to_vec())
    .collect();

    let (object, _) = parse_value(&tokens, 0, 0).expect("the dictionary parses");
    let PdfObject::Dictionary(entries) = object else {
        panic!("expected a dictionary");
    };
    match entry(&entries, "T") {
        Some(PdfObject::RawString(name)) => {
            assert_eq!(
                decode_pdf_string(name).expect("decodes"),
                "Café Sig",
                "the consumers decode this, so it must round-trip"
            );
        }
        other => panic!("/T must parse to RawString, got {other:?}"),
    }
}

/// Fields with non-ASCII names should be locatable.
/// Tests that PDF text string encoding (PDFDocEncoding) is properly decoded.
#[test]
fn pdf_docencoding_string_decoding() {
    // PDF text strings are PDFDocEncoded (or UTF-16BE with FEFF prefix).
    // é in PDFDocEncoding is 0xE9, but in UTF-8 it's 0xC3 0xA9.
    // The decoder must convert PDFDocEncoding bytes to a Rust String
    // so it can be compared against user input (which is UTF-8).

    // PDFDocEncoding: "Café" where é is 0xE9
    let pdf_bytes = b"Caf\xE9".to_vec();
    let decoded = decode_pdf_string(&pdf_bytes).expect("should decode PDFDocEncoding");
    assert_eq!(
        decoded, "Café",
        "PDFDocEncoding 0xE9 should decode to UTF-8 é"
    );

    // UTF-16BE variant: same string with BOM prefix
    let utf16_bytes = b"\xFE\xFF\x00C\x00a\x00f\x00\xE9".to_vec();
    let decoded_utf16 = decode_pdf_string(&utf16_bytes).expect("should decode UTF-16BE");
    assert_eq!(
        decoded_utf16, "Café",
        "UTF-16BE FEFF variant should also decode to Café"
    );

    // ASCII (subset of PDFDocEncoding) should work as-is
    let ascii_bytes = b"Signature1".to_vec();
    let decoded_ascii = decode_pdf_string(&ascii_bytes).expect("should decode ASCII");
    assert_eq!(
        decoded_ascii, "Signature1",
        "ASCII text should decode unchanged"
    );
}

/// Deeply nested dictionaries should also error cleanly.
#[test]
fn deeply_nested_dictionary_errors_cleanly() {
    // Construct tokens representing deeply nested dicts: <<</A<<
    let mut tokens = vec![];
    for _ in 0..MAX_VALUE_DEPTH + 10 {
        tokens.push(b"<<".to_vec());
        tokens.push(b"/A".to_vec());
    }
    tokens.push(b"1".to_vec()); // inner value
    for _ in 0..MAX_VALUE_DEPTH + 10 {
        tokens.push(b">>".to_vec());
    }

    let result = parse_value(&tokens, 0, 0);
    assert!(
        result.is_err(),
        "deeply nested dictionary should error, not overflow"
    );
    match result {
        Err(SignApplyError::Unsupported(msg)) if msg.contains("nesting too deep") => {
            // Expected
        }
        other => panic!("expected nesting depth error, got {:?}", other),
    }
}

fn checked(field: &str, coverage: SignatureCoverage) -> SignatureVerification {
    SignatureVerification::Checked(SignatureStatus {
        field_name: field.to_string(),
        intact: true,
        valid: true,
        coverage,
    })
}

#[test]
fn the_gate_opens_for_a_new_signature_over_the_whole_file() {
    let count = verification_gate(
        b"0123456789",
        b"0123456789abc",
        Ok(vec![
            checked("Signature1", SignatureCoverage::EntireRevision),
            checked("Signature2", SignatureCoverage::EntireFile),
        ]),
        1,
        "Signature2",
    );
    assert_eq!(count, Ok(2));
}

#[test]
fn the_gate_stays_shut_where_the_new_signature_leaves_bytes_out() {
    let error = verification_gate(
        b"0123456789",
        b"0123456789abc",
        Ok(vec![checked("Signature1", SignatureCoverage::EntireRevision)]),
        0,
        "Signature1",
    )
    .unwrap_err();
    assert!(matches!(
        error,
        SignApplyError::PostSignVerificationFailed { .. }
    ));
}

#[test]
fn days_become_dates() {
    assert_eq!(civil_from_days(0), (1970, 1, 1));
    assert_eq!(civil_from_days(19_782), (2024, 2, 29));
    assert_eq!(civil_from_days(-1), (1969, 12, 31));
}
