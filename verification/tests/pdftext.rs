//! Text strings of a PDF.

use pulpit_render::pdftext::{decode_text_string, decode_text_string_token, unescape_literal};

#[test]
fn ascii_is_unchanged() {
    assert_eq!(decode_text_string(b"Signature1"), "Signature1");
    assert_eq!(
        decode_text_string_token(b"(Signature1)").as_deref(),
        Some("Signature1")
    );
}

/// The case the real Acrobat form is made of: a UTF-16BE `/T`, written as
/// a literal string whose non-printable bytes are octal escapes.
#[test]
fn a_utf16be_literal_decodes_to_the_name_acrobat_shows() {
    // FE FF then "Président-rapporteur" in UTF-16BE.
    let mut body = vec![0xFEu8, 0xFF];
    for unit in "Président-rapporteur".encode_utf16() {
        body.extend_from_slice(&unit.to_be_bytes());
    }
    let mut token = vec![b'('];
    for byte in &body {
        match byte {
            b'(' | b')' | b'\\' => {
                token.push(b'\\');
                token.push(*byte);
            }
            0x20..=0x7E => token.push(*byte),
            other => token.extend_from_slice(format!("\\{other:03o}").as_bytes()),
        }
    }
    token.push(b')');

    assert_eq!(
        decode_text_string_token(&token).as_deref(),
        Some("Président-rapporteur")
    );
}

#[test]
fn a_utf16be_hex_string_decodes_the_same_way() {
    let mut hex = String::from("<FEFF");
    for unit in "Président".encode_utf16() {
        hex.push_str(&format!("{unit:04X}"));
    }
    hex.push('>');
    assert_eq!(
        decode_text_string_token(hex.as_bytes()).as_deref(),
        Some("Président")
    );
}

#[test]
fn pdfdocencoding_differs_from_latin1_where_the_table_says_so() {
    // é is one byte in PDFDocEncoding and agrees with Latin-1.
    assert_eq!(decode_text_string(b"Caf\xE9"), "Café");
    // 0xA0 is the euro sign, not a no-break space.
    assert_eq!(decode_text_string(b"\xA0"), "€");
    // 0x90 is a right single quotation mark, not a Latin-1 control byte.
    assert_eq!(decode_text_string(b"L\x90an"), "L’an");
    // Undefined codes decode to the replacement character.
    assert_eq!(decode_text_string(b"\x9F"), "\u{FFFD}");
    assert_eq!(decode_text_string(b"\xAD"), "\u{FFFD}");
}

#[test]
fn literal_escapes_are_resolved_before_the_encoding_is_judged() {
    // The BOM written as octal escapes must still be recognised.
    assert_eq!(
        decode_text_string_token(b"(\\376\\377\\000A)").as_deref(),
        Some("A")
    );
    assert_eq!(
        decode_text_string_token(b"(a\\nb)").as_deref(),
        Some("a\nb")
    );
    assert_eq!(
        decode_text_string_token(b"(a\\(b\\))").as_deref(),
        Some("a(b)")
    );
    // A backslash before an end-of-line marker joins the two lines.
    assert_eq!(decode_text_string_token(b"(a\\\nb)").as_deref(), Some("ab"));
    // Balanced inner parentheses need no escape.
    assert_eq!(
        decode_text_string_token(b"(a(b)c)").as_deref(),
        Some("a(b)c")
    );
}

/// Leniency: an ill-formed UTF-16BE string must produce a name, never a
/// panic, because the caller still has to report and compare it.
#[test]
fn ill_formed_utf16be_yields_replacement_characters() {
    // A lone high surrogate.
    assert_eq!(decode_text_string(b"\xFE\xFF\xD8\x3D"), "\u{FFFD}");
    // A trailing odd byte.
    assert_eq!(decode_text_string(b"\xFE\xFF\x00A\x00"), "A\u{FFFD}");
    // A surrogate pair is one character, not two replacements.
    assert_eq!(decode_text_string(b"\xFE\xFF\xD8\x3D\xDE\x00"), "\u{1F600}");
}

#[test]
fn a_dictionary_opener_is_not_a_string() {
    assert_eq!(decode_text_string_token(b"<<"), None);
    assert_eq!(decode_text_string_token(b"/Name"), None);
    assert_eq!(decode_text_string_token(b"12"), None);
}

#[test]
fn an_octal_escape_takes_at_most_three_digits() {
    assert_eq!(unescape_literal(b"\\1014"), b"A4");
    assert_eq!(unescape_literal(b"\\7x"), b"\x07x");
}
