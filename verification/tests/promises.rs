//! What holds of the library as a whole, on concrete values.

use cbc::cipher::block_padding::Pkcs7;
use cbc::cipher::{BlockModeEncrypt, KeyIvInit};
use pkcs12::kdf::{derive_key_utf8, Pkcs12KeyType};
use pkcs5::der::Encode;
use pulpit_render::images::archive::{list_archive, read_entry, ListedEntry};
use pulpit_render::images::cache::{DecodedCache, DecodedKey};
use pulpit_render::images::decode::Picture;
use pulpit_render::images::order::natural_cmp;
use pulpit_render::images::zipped::{find_in_zip, list_zip, measure_zip};
use pulpit_render::pdf::capabilities::{
    analyse, scan_transition_styles, AnnotationEvidence, AnnotationSubtype, DocumentEvidence,
    FindingKind, FormType, PageEvidence, RestrictionEvidence, MAX_FINDINGS_PER_KIND,
};
use pulpit_render::pdf::fixture::FixtureBackend;
use pulpit_render::pdf::synth::{write_pdf, write_pdf_with_attachment};
use pulpit_render::pdf::{
    BackendDocumentId, NeverCancel, PdfBackend, PdfError, Region, RenderRequest,
};
use pulpit_render::pdfoutline::{with_outline, Outline, OutlineEntry, OutlineTarget};
use pulpit_render::pdfread::dictionary::entry as value_of;
use pulpit_render::pdfread::xref::read_section;
use pulpit_render::pdfwrite::{IncrementalWriter, PdfObject, XRefKind};
use pulpit_render::sign::cms_builder::{
    assemble, balanced_primes, build_signed_attributes, sign_tbs, SigningProfile,
};
use pulpit_render::sign::credential::from_parts;
use pulpit_render::sign::document::{
    decode_pdf_string, find_catalog_ref, parse_object_dictionary, read_layout,
};
use pulpit_render::sign::generate::{
    generate_self_signed_pkcs12, keys_are_short, CredentialGenerationError, NewCredentialIdentity,
};
use pulpit_render::sign::pkcs12::{has_sealed_zero_cost, has_zero_cost};
use pulpit_render::sign::sealed::{find_sealed, unseal};
use pulpit_render::sign::{load_pkcs12, Credential, SigningError, SigningMechanism};
use rsa::pkcs8::EncodePrivateKey;
use rsa::traits::PrivateKeyParts;
use std::io::{Cursor, Write};
use std::sync::atomic::AtomicBool;
use std::sync::Arc;

// --- Texts and names -------------------------------------------------------

#[test]
fn a_text_string_is_decoded_whatever_it_holds() {
    assert_eq!(
        decode_pdf_string(b"\xFE\xFF\xD8\x3D\xDE\x00").unwrap(),
        "\u{1F600}",
        "two halves make one character"
    );
    assert_eq!(decode_pdf_string(b"\xA0").unwrap(), "\u{20AC}");
    assert_eq!(decode_pdf_string(b"plain").unwrap(), "plain");
}

#[test]
fn a_style_is_named_by_its_whole_name() {
    assert!(scan_transition_styles(b"/Trans << /S /Boxed >>").is_empty());
    assert_eq!(scan_transition_styles(b"/Trans << /S /Box >>"), ["Box"]);
    assert!(scan_transition_styles(b"/Transform << /S /Box >>").is_empty());
}

#[test]
fn the_natural_order_is_an_order() {
    let names = ["2", "10", "a", "A", "a1", "a01", "é2", "É10", "\u{661}", "\u{130}x"];
    for first in names {
        for second in names {
            let there = natural_cmp(first, second);
            let back = natural_cmp(second, first);
            assert_eq!(there, back.reverse(), "{first} and {second}");
            for third in names {
                let on = natural_cmp(second, third);
                if there == on {
                    assert_eq!(natural_cmp(first, third), there);
                }
            }
        }
    }
}

// --- Comic archives over their bytes ---------------------------------------

fn png(width: u32, height: u32) -> Vec<u8> {
    let mut bytes = Cursor::new(Vec::new());
    image::RgbaImage::from_pixel(width, height, image::Rgba([3, 4, 5, 255]))
        .write_to(&mut bytes, image::ImageFormat::Png)
        .unwrap();
    bytes.into_inner()
}

fn comic() -> Vec<u8> {
    let mut writer = zip::ZipWriter::new(Cursor::new(Vec::new()));
    let options: zip::write::FileOptions<'_, ()> =
        zip::write::FileOptions::default().compression_method(zip::CompressionMethod::Deflated);
    writer.add_directory("pages", options).unwrap();
    for (name, bytes) in [
        ("pages/10.png", png(5, 7)),
        ("pages/2.png", png(12, 8)),
        ("pages/3.png", b"no picture".to_vec()),
        ("notes.txt", b"notes".to_vec()),
    ] {
        writer.start_file(name, options).unwrap();
        writer.write_all(&bytes).unwrap();
    }
    writer.finish().unwrap().into_inner()
}

#[test]
fn a_comic_in_memory_lists_its_pages_in_order() {
    let listed = list_zip(comic()).unwrap();
    assert_eq!(listed.len(), 5);
    assert_eq!(
        listed[1],
        ListedEntry {
            is_file: true,
            name: Some(b"pages/10.png".to_vec()),
            size: png(5, 7).len() as u64,
        }
    );
    assert!(!listed[0].is_file);
    let pages: Vec<Vec<u8>> = list_archive(b"comic.cbz", &listed)
        .unwrap()
        .into_iter()
        .map(|page| page.name)
        .collect();
    assert_eq!(
        pages,
        [
            b"pages/2.png".to_vec(),
            b"pages/3.png".to_vec(),
            b"pages/10.png".to_vec()
        ]
    );
    assert!(list_zip(b"not an archive".to_vec()).is_err());
}

#[test]
fn an_entry_of_a_comic_in_memory_is_read() {
    assert_eq!(
        find_in_zip(comic(), "pages/2.png").unwrap(),
        Some(png(12, 8))
    );
    assert_eq!(find_in_zip(comic(), "pages/4.png").unwrap(), None);
    let found = find_in_zip(comic(), "notes.txt");
    assert_eq!(read_entry(b"c.cbz", b"notes.txt", found).unwrap(), b"notes");
    assert!(find_in_zip(Vec::new(), "pages/2.png").is_err());
}

#[test]
fn the_pictures_of_a_comic_in_memory_are_measured() {
    let measured = measure_zip(b"comic.cbz", comic());
    assert_eq!(measured.size(b"pages/2.png"), Some((12, 8)));
    assert_eq!(measured.size(b"pages/10.png"), Some((5, 7)));
    assert_eq!(measured.size(b"pages/3.png"), None, "no picture after all");
    assert_eq!(measured.size(b"notes.txt"), None);
    assert_eq!(
        measure_zip(b"comic.cbz", Vec::new()).size(b"pages/2.png"),
        None
    );
}

// --- Decoded pictures ------------------------------------------------------

fn key(page: usize) -> DecodedKey {
    DecodedKey {
        document: 1,
        page,
        len: 10,
        modified: None,
    }
}

fn picture(side: u32) -> Arc<Picture> {
    Arc::new(Picture {
        width: side,
        height: side,
        pixels: vec![9; (side * side * 4) as usize],
    })
}

#[test]
fn a_cache_holds_its_budget_through_any_steps() {
    let budget = 4 * 100 * 3;
    let mut cache = DecodedCache::new(budget);
    for step in 0..200usize {
        let page = step * 7 % 5;
        match step % 4 {
            0 | 1 => {
                let side = 5 + (step % 11) as u32;
                cache.insert(key(page), picture(side));
                let found = cache.get(&key(page)).expect("what was put in last");
                assert_eq!(found.width, side);
            }
            2 => {
                let _ = cache.get(&key(page));
            }
            _ => {
                if step % 40 == 3 {
                    cache.forget_document(key(0).document);
                    assert!(cache.is_empty());
                }
            }
        }
        assert!(cache.bytes_used() <= budget || cache.len() == 1, "step {step}");
    }
}

#[test]
fn as_many_pictures_stay_as_the_budget_allows_and_the_last_used_do() {
    let mut cache = DecodedCache::new(3 * 64);
    for page in 0..3 {
        cache.insert(key(page), picture(4));
    }
    assert!(cache.get(&key(0)).is_some());
    cache.insert(key(3), picture(4));
    assert_eq!(cache.len(), 3);
    assert_eq!(cache.bytes_used(), 3 * 64);
    assert!(cache.get(&key(1)).is_none(), "used longest ago");
    for page in [0, 2, 3] {
        assert!(cache.get(&key(page)).is_some());
    }
    cache.insert(key(3), picture(2));
    assert_eq!(cache.len(), 3, "the same page is kept once");
    assert_eq!(cache.bytes_used(), 2 * 64 + 16);
}

// --- What a document holds -------------------------------------------------

#[test]
fn every_kind_is_reported_exactly_where_it_is_shown() {
    let kinds = [
        FindingKind::UnplayableMedia,
        FindingKind::FormFields,
        FindingKind::DocumentJavaScript,
        FindingKind::AnnotationJavaScript,
        FindingKind::PageTransition,
        FindingKind::UnsupportedAction,
        FindingKind::Restricted,
        FindingKind::Xfa,
    ];
    let on_page = |annotation: AnnotationEvidence| DocumentEvidence {
        pages: (0..MAX_FINDINGS_PER_KIND + 3)
            .map(|page| PageEvidence {
                page,
                annotations: vec![annotation.clone()],
                transition: None,
            })
            .collect(),
        ..Default::default()
    };
    let cases: [(DocumentEvidence, Option<FindingKind>); 6] = [
        (DocumentEvidence::default(), None),
        (
            on_page(AnnotationEvidence {
                subtype: AnnotationSubtype::Sound,
                ..Default::default()
            }),
            Some(FindingKind::UnplayableMedia),
        ),
        (
            on_page(AnnotationEvidence {
                subtype: AnnotationSubtype::Widget,
                ..Default::default()
            }),
            Some(FindingKind::FormFields),
        ),
        (
            on_page(AnnotationEvidence {
                has_additional_actions: true,
                ..Default::default()
            }),
            Some(FindingKind::AnnotationJavaScript),
        ),
        (
            DocumentEvidence {
                restriction: Some(RestrictionEvidence {
                    security_revision: 0,
                    permissions: 4,
                }),
                ..Default::default()
            },
            None,
        ),
        (
            DocumentEvidence {
                form_type: FormType::Xfa,
                ..Default::default()
            },
            Some(FindingKind::Xfa),
        ),
    ];
    for (evidence, expected) in cases {
        let found = analyse(&evidence);
        for kind in kinds {
            assert_eq!(
                found.findings.iter().any(|finding| finding.kind == kind),
                expected == Some(kind),
                "{kind:?} in {evidence:?}"
            );
        }
    }
}

// --- Documents made to order -----------------------------------------------

#[test]
fn a_made_document_is_read_by_its_table() {
    let bytes = write_pdf_with_attachment(2, Some("keywords"), Some(("a.json", "{}")));
    assert!(bytes.ends_with(b"%%EOF\n"));
    let writer = IncrementalWriter::open(&bytes).unwrap();
    assert_eq!(writer.next_object_number(), 11, "ten objects");
    let text = String::from_utf8_lossy(&bytes).into_owned();
    let place = text.rfind("startxref\n").unwrap() + "startxref\n".len();
    let at: u64 = text[place..].lines().next().unwrap().parse().unwrap();
    let section = read_section(&bytes, at).unwrap();
    assert_eq!(section.kind, XRefKind::Table);
    assert_eq!(section.offsets.len(), 10);
    for (index, (number, offset)) in section.offsets.iter().enumerate() {
        assert_eq!(*number as usize, index + 1);
        let header = format!("{number} 0 obj\n");
        assert!(bytes[*offset as usize..].starts_with(header.as_bytes()));
    }
    let mut table = "xref\n0 11\n0000000000 65535 f \n".to_string();
    for (_, offset) in &section.offsets {
        table.push_str(&format!("{offset:010} 00000 n \n"));
    }
    table.push_str("trailer\n<< /Size 11 /Root 1 0 R /Info 8 0 R >>\n");
    assert!(bytes[at as usize..].starts_with(table.as_bytes()));
    let trailer = section.trailer.as_slice();
    assert_eq!(value_of(trailer, "Size"), Some(&PdfObject::Integer(11)));
    assert_eq!(
        value_of(trailer, "Info"),
        Some(&PdfObject::IndirectRef {
            obj_num: 8,
            gen_num: 0
        })
    );
    let plain = write_pdf(0, None);
    assert_eq!(
        IncrementalWriter::open(&plain).unwrap().next_object_number(),
        6,
        "one page at least"
    );
}

#[test]
fn bookmarks_of_a_made_document_are_read_back() {
    let bytes = write_pdf(3, None);
    let outline = Outline {
        entries: vec![
            OutlineEntry {
                title: "One".to_string(),
                target: OutlineTarget::Page(0),
                depth: 0,
                children: vec![OutlineEntry {
                    title: "Below".to_string(),
                    target: OutlineTarget::Page(1),
                    depth: 1,
                    children: Vec::new(),
                }],
            },
            OutlineEntry {
                title: "Two".to_string(),
                target: OutlineTarget::Page(2),
                depth: 0,
                children: Vec::new(),
            },
        ],
    };
    for (outline, count) in [(outline, Some(3)), (Outline { entries: Vec::new() }, None)] {
        let updated = with_outline(&bytes, &outline).unwrap();
        let layout = read_layout(&updated).unwrap();
        assert!(!layout.encrypted);
        let number = find_catalog_ref(&layout).unwrap();
        assert_eq!(number, 1);
        let catalog = parse_object_dictionary(&updated, &layout, number).unwrap();
        assert_eq!(
            value_of(&catalog, "Outlines"),
            Some(&PdfObject::IndirectRef {
                obj_num: 10,
                gen_num: 0
            })
        );
        let root = parse_object_dictionary(&updated, &layout, 10).unwrap();
        assert_eq!(
            value_of(&root, "Type"),
            Some(&PdfObject::Name("Outlines".to_string()))
        );
        assert_eq!(
            value_of(&root, "Count"),
            count.map(PdfObject::Integer).as_ref()
        );
        assert_eq!(value_of(&root, "First").is_some(), count.is_some());
    }
}

// --- The fixture backend ---------------------------------------------------

fn frame(document: BackendDocumentId, page: usize) -> RenderRequest {
    RenderRequest {
        document,
        page,
        region: Region::full(),
        width: 64,
        height: 36,
        with_annotations: false,
    }
}

#[test]
fn a_page_is_drawn_unless_it_is_no_longer_wanted() {
    let mut backend = FixtureBackend::new();
    let document = backend.open("fixture:pages=2").unwrap();
    let request = frame(document, 1);
    let drawn = backend.draw_unless(&request, false).unwrap();
    assert_eq!(backend.render(&request, &NeverCancel).unwrap(), drawn);
    assert!(matches!(
        backend.draw_unless(&request, true),
        Err(PdfError::Cancelled)
    ));
    assert!(
        matches!(
            backend.draw_unless(&frame(document, 2), true),
            Err(PdfError::PageOutOfRange { page: 2, count: 2 })
        ),
        "a page that is not there is refused first"
    );
    assert_eq!(backend.version(), "synthetic pages, pulpit 0.1.0");
}

#[test]
fn a_page_is_drawn_at_the_start_of_a_target() {
    let mut backend = FixtureBackend::new();
    let document = backend.open("fixture:pages=2").unwrap();
    let request = frame(document, 0);
    let drawn = backend.render(&request, &NeverCancel).unwrap();
    let mut target = vec![7u8; 64 * 36 * 4 + 3];
    backend
        .render_into(&request, &mut target, &NeverCancel)
        .unwrap();
    assert_eq!(&target[..64 * 36 * 4], drawn.pixels.as_slice());
    assert_eq!(&target[64 * 36 * 4..], [7, 7, 7]);
    let before = target.clone();
    assert!(matches!(
        backend.render_into(&frame(document, 1), &mut target, &AtomicBool::new(true)),
        Err(PdfError::Cancelled)
    ));
    assert_eq!(target, before);
}

// --- Credentials -----------------------------------------------------------

const PASSPHRASE: &str = "correct horse battery staple";

/// A second in nanoseconds.
const SECOND: i128 = 1_000_000_000;

fn identity() -> NewCredentialIdentity {
    NewCredentialIdentity {
        common_name: "Ada Lovelace".to_string(),
        organization: None,
        email: None,
        not_before: 1_700_000_000 * SECOND,
        not_after: 1_900_000_000 * SECOND,
    }
}

fn credential() -> Credential {
    let generated = generate_self_signed_pkcs12(&identity(), PASSPHRASE).unwrap();
    load_pkcs12(&generated.bytes, PASSPHRASE).unwrap()
}

#[test]
fn a_new_container_names_its_key() {
    let generated = generate_self_signed_pkcs12(&identity(), PASSPHRASE).unwrap();
    let store = p12_keystore::KeyStore::from_pkcs12(
        &generated.bytes,
        PASSPHRASE,
        p12_keystore::Pkcs12ImportPolicy::Strict,
    )
    .unwrap();
    let (alias, chain) = store.private_key_chain().unwrap();
    assert_eq!(alias, "pulpit-signing-identity");
    assert_eq!(chain.local_key_id().as_ref(), b"pulpit-signing-key");
    assert_eq!(chain.certs().len(), 1);
}

#[test]
fn an_identity_that_cannot_be_encoded_is_refused() {
    let mut odd = identity();
    odd.not_after = 0;
    assert_eq!(
        generate_self_signed_pkcs12(&odd, PASSPHRASE).map(|_| ()),
        Err(CredentialGenerationError::InvalidValidity)
    );
    let mut long = identity();
    long.common_name = "a\\,99999999999999999999=x".to_string();
    assert_eq!(
        generate_self_signed_pkcs12(&long, PASSPHRASE).map(|_| ()),
        Err(CredentialGenerationError::InvalidIdentity(
            "an object identifier in the name is too long".to_string()
        ))
    );
}

#[test]
fn only_what_starts_a_component_is_taken_for_an_identifier() {
    assert!(keys_are_short("CN=12345678901234567890,O=b"));
    assert!(keys_are_short("CN=a\\,12345678901234567890"));
    assert!(keys_are_short("CN=a,4294967295=b"));
    assert!(!keys_are_short("CN=a,4294967296=b"));
    assert!(!keys_are_short("CN=a\\\\\\,4294967296=b"));
    assert!(keys_are_short(&"0".repeat(160)));
    assert!(!keys_are_short(&"0".repeat(161)));
    assert!(keys_are_short("1.2.840.113549.1.9.1=b"));
    let mut named = identity();
    named.common_name = "Ada, 12345678901".to_string();
    assert!(generate_self_signed_pkcs12(&named, PASSPHRASE).is_ok());
}

#[test]
fn a_container_that_asks_for_scrypt_at_no_cost_is_refused_unopened() {
    let mut bytes = vec![0x30, 0x50, 1, 2, 3];
    bytes.extend_from_slice(&[6, 9, 0x2B, 6, 1, 4, 1, 0xDA, 0x47, 4, 0x0B]);
    bytes.extend_from_slice(&[0x30, 0x0D, 4, 2, 0xAA, 0xBB, 2, 1, 0, 2, 1, 8, 2, 1, 1]);
    assert!(has_zero_cost(&bytes));
    assert!(matches!(
        load_pkcs12(&bytes, "any"),
        Err(SigningError::KeyLoadFailed(reason)) if reason == "the container asks for scrypt at no cost"
    ));
    let at = bytes.len() - 7;
    bytes[at] = 16;
    assert!(!has_zero_cost(&bytes));
    assert!(
        matches!(load_pkcs12(&bytes, "any"), Err(SigningError::KeyLoadFailed(_))),
        "it is no container either"
    );
    assert!(!has_zero_cost(&[]));
}

fn element(tag: u8, parts: &[&[u8]]) -> Vec<u8> {
    let content = parts.concat();
    let mut out = vec![tag, 0x82, (content.len() / 256) as u8, (content.len() % 256) as u8];
    out.extend_from_slice(&content);
    out
}

/// Parts sealed under a passphrase in each of the ways that a container knows.
fn sealed_parts(plain: &[u8], passphrase: &str) -> Vec<Vec<u8>> {
    let parameters = pkcs5::pbes2::Parameters::generate_pbkdf2_sha256_aes256cbc(
        1000,
        b"salt and more",
        [7; 16],
    )
    .unwrap();
    let mut parts = vec![element(
        0x30,
        &[
            &element(
                0x30,
                &[
                    &[6, 9, 0x2A, 0x86, 0x48, 0x86, 0xF7, 0x0D, 1, 5, 0x0D],
                    &parameters.to_der().unwrap(),
                ],
            ),
            &element(0x80, &[&parameters.encrypt(passphrase, plain).unwrap()]),
        ],
    )];
    for (last, length) in [(3, 24), (6, 5)] {
        let derive = |purpose, length| {
            derive_key_utf8::<sha1::Sha1>(passphrase, b"abcdefgh", purpose, 3, length).unwrap()
        };
        let key = derive(Pkcs12KeyType::EncryptionKey, length);
        let vector = derive(Pkcs12KeyType::Iv, 8);
        let content = if last == 3 {
            cbc::Encryptor::<des::TdesEde3>::new_from_slices(&key, &vector)
                .unwrap()
                .encrypt_padded_vec::<Pkcs7>(plain)
        } else {
            cbc::Encryptor::<rc2::Rc2>::new_from_slices(&key, &vector)
                .unwrap()
                .encrypt_padded_vec::<Pkcs7>(plain)
        };
        parts.push(element(
            0x30,
            &[
                &element(
                    0x30,
                    &[
                        &[6, 10, 0x2A, 0x86, 0x48, 0x86, 0xF7, 0x0D, 1, 0x0C, 1, last],
                        &element(0x30, &[&[4, 8], b"abcdefgh", &[2, 1, 3]]),
                    ],
                ),
                &element(0x80, &[&content]),
            ],
        ));
    }
    parts
}

#[test]
fn a_sealed_part_is_opened_in_each_way_it_can_be_sealed() {
    for bytes in sealed_parts(b"what is sealed", PASSPHRASE) {
        assert!(find_sealed(&bytes, 0).is_none(), "the part starts further on");
        let part = find_sealed(&bytes, 4).expect("a sealed part");
        assert_eq!(
            unseal(&part, PASSPHRASE).as_deref(),
            Some(b"what is sealed".as_slice()),
            "{:?}",
            part.scheme
        );
        assert_ne!(
            unseal(&part, "another").as_deref(),
            Some(b"what is sealed".as_slice())
        );
    }
}

#[test]
fn scrypt_at_no_cost_is_found_in_a_sealed_part() {
    let mut plain = vec![6, 9, 0x2B, 6, 1, 4, 1, 0xDA, 0x47, 4, 0x0B];
    plain.extend_from_slice(&[0x30, 0x0D, 4, 2, 0xAA, 0xBB, 2, 1, 0, 2, 1, 8, 2, 1, 1]);
    for bytes in sealed_parts(&plain, PASSPHRASE) {
        assert!(!has_zero_cost(&bytes), "it cannot be seen from outside");
        assert!(has_sealed_zero_cost(&bytes, PASSPHRASE));
        assert!(matches!(
            load_pkcs12(&bytes, PASSPHRASE),
            Err(SigningError::KeyLoadFailed(reason)) if reason == "the container asks for scrypt at no cost"
        ));
        assert!(!has_sealed_zero_cost(&bytes, "another"));
        assert!(
            matches!(load_pkcs12(&bytes, "another"), Err(SigningError::KeyLoadFailed(_))),
            "it is no container either"
        );
    }
    for bytes in sealed_parts(b"what is sealed", PASSPHRASE) {
        assert!(!has_sealed_zero_cost(&bytes, PASSPHRASE));
    }
    let generated = generate_self_signed_pkcs12(&identity(), PASSPHRASE).unwrap();
    assert!(!has_sealed_zero_cost(&generated.bytes, PASSPHRASE));
}

#[test]
fn a_certificate_does_not_run_past_the_last_year_that_can_be_written() {
    let mut late = identity();
    late.not_after = 253_402_300_799 * SECOND;
    assert!(generate_self_signed_pkcs12(&late, PASSPHRASE).is_ok());
    for past in [253_402_300_799 * SECOND + 1, i128::MAX] {
        late.not_after = past;
        assert_eq!(
            generate_self_signed_pkcs12(&late, PASSPHRASE).map(|_| ()),
            Err(CredentialGenerationError::Certificate(
                "malformed ASN.1 DER value for GeneralizedTime".to_string()
            ))
        );
    }
    let mut early = identity();
    early.not_before = -1;
    assert_eq!(
        generate_self_signed_pkcs12(&early, PASSPHRASE).map(|_| ()),
        Err(CredentialGenerationError::Certificate(
            "malformed ASN.1 DER value for GeneralizedTime".to_string()
        ))
    );
    let mut short = identity();
    short.not_after = short.not_before + 1;
    assert!(
        generate_self_signed_pkcs12(&short, PASSPHRASE).is_ok(),
        "later is later, by however little"
    );
}

#[test]
fn a_certificate_twice_is_no_certificate_set() {
    let own = credential();
    let der = own.signer_certificate.der.clone();
    let key = p256::ecdsa::SigningKey::random(&mut rand::rngs::OsRng)
        .to_pkcs8_der()
        .unwrap();
    let twice = from_parts(&der, key.as_bytes(), vec![der.clone()]).unwrap();
    let attributes =
        build_signed_attributes(&twice, &[1; 32], SigningProfile::EtsiCadesDetached, None).unwrap();
    let outcome = assemble(
        &twice,
        SigningMechanism::EcdsaP256Sha256,
        true,
        attributes,
        vec![0; 70],
    );
    assert!(
        matches!(&outcome, Err(SigningError::DerEncodingFailed(text)) if text.starts_with("certificate set: ")),
        "{outcome:?}"
    );
}

#[test]
fn an_rsa_key_with_a_tiny_first_prime_is_refused() {
    assert!(balanced_primes(&[vec![1, 2], vec![3, 4, 5]]));
    assert!(!balanced_primes(&[vec![1, 2], vec![3, 4, 5, 6]]));
    assert!(!balanced_primes(&[vec![1, 2]]));

    let fair = rsa::RsaPrivateKey::new(&mut rand::rngs::OsRng, 1024).unwrap();
    let der = credential().signer_certificate.der.clone();
    let signer = from_parts(&der, fair.to_pkcs8_der().unwrap().as_bytes(), Vec::new()).unwrap();
    let signature = sign_tbs(&signer, b"message", SigningMechanism::Rsa2048Sha256).unwrap();
    assert_eq!(signature.len(), 128);

    let q = fair.primes()[1].clone();
    let p = rsa::BigUint::from(11u32);
    let tiny = rsa::RsaPrivateKey::from_p_q(p, q, rsa::BigUint::from(65_537u32)).unwrap();
    let signer = from_parts(&der, tiny.to_pkcs8_der().unwrap().as_bytes(), Vec::new()).unwrap();
    assert_eq!(
        sign_tbs(&signer, b"message", SigningMechanism::Rsa2048Sha256),
        Err(SigningError::SignatureOperationFailed(
            "RSA signature failed: the prime factors of the key differ too much in size"
                .to_string()
        ))
    );
}
