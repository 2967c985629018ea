//! What is written is read back.

use pulpit_render::pdfread::value::read_value;
use pulpit_render::pdfread::xref::read_section;
use pulpit_render::pdftext::decode_text_string_token;
use pulpit_render::pdfwrite::tokenizer::tokenize;
use pulpit_render::pdfwrite::{IncrementalWriter, PdfObject, Real, XRefKind};

fn text(value: &str) -> String {
    value.to_string()
}

fn read_back(value: PdfObject) -> PdfObject {
    let mut bytes = value.to_bytes();
    bytes.extend_from_slice(b"\nendobj\n");
    let tokens = tokenize(&bytes);
    let (read, next) = read_value(&tokens, 0, 0).expect("the value was not read");
    assert_eq!(next, tokens.len());
    read
}

fn with_table() -> Vec<u8> {
    let mut bytes = b"%PDF-1.7\n1 0 obj\n<</Type /Catalog>>\nendobj\n".to_vec();
    let at = bytes.len();
    bytes.extend_from_slice(
        format!(
            "xref\n0 2\n0000000000 65535 f \n0000000009 00000 n \n\
             trailer\n<< /Size 2 /Root 1 0 R /Info 7 0 R /ID [<0A0B> <0C0D>] >>\n\
             startxref\n{at}\n%%EOF\n"
        )
        .as_bytes(),
    );
    bytes
}

fn with_stream() -> Vec<u8> {
    let mut bytes = b"%PDF-1.7\n1 0 obj\n<</Type /Catalog>>\nendobj\n".to_vec();
    let at = bytes.len();
    bytes.extend_from_slice(
        b"2 0 obj\n<</Type /XRef /Size 3 /W [1 4 2] /Root 1 0 R /Length 21>>\nstream\n",
    );
    bytes.extend_from_slice(&[0u8; 21]);
    bytes.extend_from_slice(format!("\nendstream\nendobj\nstartxref\n{at}\n%%EOF\n").as_bytes());
    bytes
}

#[test]
fn single_values_are_read_back() {
    assert_eq!(read_back(PdfObject::Null), PdfObject::Null);
    assert_eq!(
        read_back(PdfObject::Boolean(false)),
        PdfObject::Boolean(false)
    );
    assert_eq!(
        read_back(PdfObject::Integer(i64::MIN)),
        PdfObject::Integer(i64::MIN)
    );
    assert_eq!(
        read_back(PdfObject::Name(text("Catalog"))),
        PdfObject::Name(text("Catalog"))
    );
    assert_eq!(
        read_back(PdfObject::HexString(vec![0, 255, 60, 62])),
        PdfObject::HexString(vec![0, 255, 60, 62])
    );
    let half = Real {
        negative: true,
        millionths: 12_500_000,
    };
    assert_eq!(read_back(PdfObject::Real(half)), PdfObject::Real(half));
}

#[test]
fn what_a_reader_cannot_tell_apart_comes_back_in_one_form() {
    let whole = Real {
        negative: true,
        millionths: 3_000_000,
    };
    assert_eq!(read_back(PdfObject::Real(whole)), PdfObject::Integer(-3));
    assert_eq!(
        read_back(PdfObject::String(b"a (b) \\ c".to_vec())),
        PdfObject::RawString(b"a (b) \\ c".to_vec())
    );
    assert_eq!(
        read_back(PdfObject::RawString(vec![1, 2])),
        PdfObject::HexString(vec![1, 2])
    );
    assert_eq!(
        read_back(PdfObject::String("\u{e9}".as_bytes().to_vec())),
        PdfObject::HexString(vec![0xFE, 0xFF, 0x00, 0xE9])
    );
    assert_eq!(
        read_back(PdfObject::Name(text("a b"))),
        PdfObject::Name(text("a#20b"))
    );
}

#[test]
fn numbers_are_read_in_every_form() {
    let read = |token: &str| match read_value(&[token.as_bytes().to_vec()], 0, 0) {
        Ok((PdfObject::Real(real), _)) => Some((real.negative, real.millionths)),
        Ok((PdfObject::Integer(whole), _)) => {
            Some((whole < 0, whole.unsigned_abs() as u128 * 1_000_000))
        }
        _ => None,
    };
    assert_eq!(read("1.5e3"), Some((false, 1_500_000_000)));
    assert_eq!(read("-25E-1"), Some((true, 2_500_000)));
    assert_eq!(read("+.5e+1"), Some((false, 5_000_000)));
    assert_eq!(read("2.e0"), Some((false, 2_000_000)));
    assert_eq!(read("1e-9"), Some((false, 0)));
    assert_eq!(
        read("99999999999999999999"),
        Some((false, 99_999_999_999_999_999_999_000_000)),
        "a whole number that is too long for an integer"
    );
    for odd in ["e5", ".", "1e", "1e+", "1.2.3", "--1"] {
        assert_eq!(read(odd), None, "{odd}");
    }
}

#[test]
fn nested_values_are_read_back() {
    let value = || {
        PdfObject::Dictionary(vec![
            (
                text("Kids"),
                PdfObject::Array(vec![
                    PdfObject::Integer(5),
                    PdfObject::IndirectRef {
                        obj_num: 3,
                        gen_num: 0,
                    },
                    PdfObject::Integer(7),
                    PdfObject::Integer(8),
                ]),
            ),
            (text("Empty"), PdfObject::Dictionary(Vec::new())),
            (text("ID"), PdfObject::HexString(vec![0xAB])),
        ])
    };
    assert_eq!(read_back(value()), value());
}

#[test]
fn text_is_read_back() {
    for sample in ["", "plain", "a (b) \\ c\n", "M\u{fc}ller", "\u{1F600} \u{4e2d}"] {
        let written = PdfObject::String(sample.as_bytes().to_vec()).to_bytes();
        assert_eq!(decode_text_string_token(&written), Some(text(sample)));
    }
    let control = PdfObject::String(vec![0x18]).to_bytes();
    assert_eq!(
        decode_text_string_token(&control),
        Some(text("\u{02D8}")),
        "PDF gives this control character to an accent"
    );
}

#[test]
fn an_update_with_a_table_is_read_back() {
    let original = with_table();
    let writer = IncrementalWriter::open(&original).expect("the file opens");
    let before = writer.prev_startxref();
    let mut output = Vec::new();
    writer
        .append_objects(
            &mut output,
            &[
                (4, 0, PdfObject::Integer(1)),
                (5, 0, PdfObject::Integer(2)),
                (9, 1, PdfObject::Null),
            ],
            &[0xEE, 0xFF],
        )
        .expect("the objects are appended");
    let again = IncrementalWriter::open(&output).expect("the update opens");
    assert_eq!(again.xref_kind(), XRefKind::Table);
    assert_eq!(again.trailer().root, Some((1, 0)));
    assert_eq!(again.trailer().info, Some((7, 0)));
    assert_eq!(again.trailer().size, 10);
    assert_eq!(again.trailer().prev, Some(before));
    assert_eq!(
        again.trailer().id,
        Some(vec![vec![0x0A, 0x0B], vec![0xEE, 0xFF]])
    );
    let section = read_section(&output, again.prev_startxref()).expect("the section is read");
    let numbers: Vec<u32> = section.offsets.iter().map(|place| place.0).collect();
    assert_eq!(numbers, vec![4, 5, 9]);
    for (number, offset) in section.offsets {
        let object = tokenize(&output[offset as usize..]);
        assert_eq!(object[0], number.to_string().into_bytes());
        assert_eq!(object[2], b"obj".to_vec());
    }
}

#[test]
fn an_update_with_a_stream_is_read_back() {
    let original = with_stream();
    let writer = IncrementalWriter::open(&original).expect("the file opens");
    assert_eq!(writer.xref_kind(), XRefKind::Stream);
    let before = writer.prev_startxref();
    let mut output = Vec::new();
    writer
        .append_objects(&mut output, &[(3, 0, PdfObject::Integer(1))], &[])
        .expect("the object is appended");
    let again = IncrementalWriter::open(&output).expect("the update opens");
    assert_eq!(again.xref_kind(), XRefKind::Stream);
    assert_eq!(again.trailer().root, Some((1, 0)));
    assert_eq!(again.trailer().info, None);
    assert_eq!(again.trailer().id, None);
    assert_eq!(again.trailer().size, 5);
    assert_eq!(again.trailer().prev, Some(before));
    assert_eq!(again.next_object_number(), 5);
}
