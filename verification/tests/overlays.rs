//! Overlays: what a page's links declare, and how a bundle is staged.

use pulpit_render::pdf::overlays::{
    accept_file, asset_name, declarations_from_links, extract_bundle, manifest_in, mix_token,
    resolve_external,
    safe_relative_path, staging_name, BundleReader, ExtractionError, ExtractionLimits, ReadLink,
    StagedEntry,
};
use pulpit_render::pdf::paths::{contain, starts_with, PathPart};
use std::io::{Cursor, Write};

const MANIFEST_NAME: &str = "bundle.json";

fn anchor() -> PathPart {
    PathPart::Anchor("/".to_string())
}

fn name(text: &str) -> PathPart {
    PathPart::Name(text.to_string())
}

fn root() -> Vec<PathPart> {
    vec![anchor(), name("staged"), name("bundle")]
}

fn below_root(names: &[&str]) -> Vec<PathPart> {
    let mut path = root();
    path.extend(names.iter().map(|part| name(part)));
    path
}

// --- Declarations -----------------------------------------------------------

fn link(uri: &str, media: bool, reading: Result<&'static str, &str>) -> ReadLink<&'static str> {
    ReadLink {
        uri: Some(uri.to_string()),
        media,
        reading: reading.map_err(str::to_string),
    }
}

#[test]
fn a_media_link_becomes_a_declaration_over_its_own_rectangle() {
    let (declarations, diagnostics) = declarations_from_links(vec![link(
        "pulpit://video/clip?autoplay",
        true,
        Ok("video over 0.1, 0.2"),
    )]);
    assert_eq!(declarations, ["video over 0.1, 0.2"]);
    assert!(diagnostics.is_empty());
}

#[test]
fn an_ordinary_link_is_skipped_without_a_diagnostic() {
    let (declarations, diagnostics) = declarations_from_links(vec![
        link("https://example.com", false, Err("not a media link")),
        ReadLink {
            uri: None,
            media: false,
            reading: Err("a link within the document".to_string()),
        },
    ]);
    assert!(declarations.is_empty());
    assert!(
        diagnostics.is_empty(),
        "a deck full of web links is not a deck full of broken media"
    );
}

#[test]
fn a_malformed_media_uri_produces_a_diagnostic_the_author_can_act_on() {
    let (declarations, diagnostics) = declarations_from_links(vec![
        link("pulpit://hologram/x", true, Err("no such kind of media")),
        link(
            "pulpit://video-external/../../etc/passwd",
            true,
            Err("the path escapes the document's directory"),
        ),
    ]);
    assert!(declarations.is_empty());
    assert_eq!(diagnostics.len(), 2);
    assert!(diagnostics[0].contains("pulpit://hologram/x"));
    assert!(diagnostics[1].contains("escapes"));
}

// --- Extraction -------------------------------------------------------------

fn manifest_json() -> String {
    "{\"version\": 1, \"entrypoint\": \"index.html\"}".to_string()
}

/// Builds a ZIP from `(name, contents)` pairs, with no validation of its own:
/// the point of these tests is to hand the extractor archives no honest
/// producer would write.
fn zip_of(entries: &[(&str, &[u8])]) -> Vec<u8> {
    let mut writer = zip::ZipWriter::new(Cursor::new(Vec::new()));
    let options: zip::write::FileOptions<'_, ()> =
        zip::write::FileOptions::default().compression_method(zip::CompressionMethod::Deflated);
    for (name, contents) in entries {
        writer.start_file(*name, options).unwrap();
        writer.write_all(contents).unwrap();
    }
    writer.finish().unwrap().into_inner()
}

/// Everything a bundle stages, or why it is refused.
fn extract(
    archive: Vec<u8>,
    limits: ExtractionLimits,
) -> Result<Vec<StagedEntry>, ExtractionError> {
    let (staged, outcome) = extract_bundle(archive, &root(), limits);
    outcome.map(|()| staged)
}

fn good_bundle() -> Vec<u8> {
    zip_of(&[
        (MANIFEST_NAME, manifest_json().as_bytes()),
        ("index.html", b"<p>hello</p>"),
        ("assets/app.js", b"console.log(1)"),
    ])
}

#[test]
fn a_well_formed_bundle_keeps_its_internal_structure() {
    let staged = extract(good_bundle(), ExtractionLimits::default()).unwrap();
    assert_eq!(staged.len(), 3);
    assert!(
        staged.contains(&StagedEntry::File {
            path: below_root(&["assets", "app.js"]),
            bytes: b"console.log(1)".to_vec(),
        }),
        "relative HTML only resolves if the tree survives extraction"
    );
}

#[test]
fn a_bundle_without_a_manifest_is_not_a_web_bundle() {
    let archive = zip_of(&[("index.html", b"<p>hi</p>")]);
    let staged = extract(archive, ExtractionLimits::default()).unwrap();
    assert!(matches!(
        manifest_in(&staged, &root(), MANIFEST_NAME),
        Err(ExtractionError::Manifest(_))
    ));
}

#[test]
fn a_manifest_is_the_file_right_beneath_the_root() {
    let staged = extract(good_bundle(), ExtractionLimits::default()).unwrap();
    assert_eq!(
        manifest_in(&staged, &root(), MANIFEST_NAME),
        Ok(manifest_json().into_bytes())
    );
    let below = format!("inner/{MANIFEST_NAME}");
    let archive = zip_of(&[(below.as_str(), b"{}")]);
    let staged = extract(archive, ExtractionLimits::default()).unwrap();
    assert!(manifest_in(&staged, &root(), MANIFEST_NAME).is_err());
}

#[test]
fn a_traversing_entry_never_reaches_the_filesystem() {
    for name in ["../escaped.html", "a/../../escaped.html", "./x.html"] {
        let archive = zip_of(&[
            (MANIFEST_NAME, manifest_json().as_bytes()),
            (name, b"pwned"),
        ]);
        assert!(
            matches!(
                extract(archive, ExtractionLimits::default()),
                Err(ExtractionError::UnsafeEntry { .. })
            ),
            "{name} should be refused"
        );
    }
}

#[test]
fn absolute_rooted_and_drive_prefixed_entries_are_refused() {
    for name in ["/etc/passwd", "\\windows\\system32\\x", "C:/windows/x"] {
        let archive = zip_of(&[(MANIFEST_NAME, manifest_json().as_bytes()), (name, b"x")]);
        assert!(
            matches!(
                extract(archive, ExtractionLimits::default()),
                Err(ExtractionError::UnsafeEntry { .. })
            ),
            "{name} should be refused"
        );
    }
}

#[test]
fn windows_device_names_are_refused_on_every_platform() {
    for name in ["CON", "nul.html", "a/LPT9.txt", "com1"] {
        let archive = zip_of(&[(MANIFEST_NAME, manifest_json().as_bytes()), (name, b"x")]);
        assert!(
            matches!(
                extract(archive, ExtractionLimits::default()),
                Err(ExtractionError::UnsafeEntry { .. })
            ),
            "{name} should be refused"
        );
    }
}

#[test]
fn a_symlink_entry_is_never_staged() {
    let mut writer = zip::ZipWriter::new(Cursor::new(Vec::new()));
    let options: zip::write::FileOptions<'_, ()> = zip::write::FileOptions::default();
    writer.start_file(MANIFEST_NAME, options).unwrap();
    writer.write_all(manifest_json().as_bytes()).unwrap();
    writer
        .add_symlink("shortcut", "/etc/passwd", options)
        .unwrap();
    let archive = writer.finish().unwrap().into_inner();
    assert!(matches!(
        extract(archive, ExtractionLimits::default()),
        Err(ExtractionError::UnsafeEntry { .. })
    ));
}

#[test]
fn a_compression_bomb_is_refused_before_it_is_written() {
    // A megabyte of zeroes deflates to almost nothing: exactly the shape of a
    // bomb, and exactly what the ratio limit exists for.
    let archive = zip_of(&[
        (MANIFEST_NAME, manifest_json().as_bytes()),
        ("payload.bin", &vec![0u8; 1 << 20]),
    ]);
    assert!(matches!(
        extract(archive, ExtractionLimits::default()),
        Err(ExtractionError::LimitExceeded("compression ratio"))
    ));
}

/// Builds a two-entry ZIP — the manifest, then `name`/`contents` — whose
/// *headers* claim the second entry is empty, in both the local file header
/// and the central directory record, while the bytes actually written are
/// `contents`.
fn zip_with_lying_size(name: &str, contents: &[u8]) -> Vec<u8> {
    let mut archive = zip_of(&[
        (MANIFEST_NAME, manifest_json().as_bytes()),
        (name, contents),
    ]);
    let true_size = (contents.len() as u32).to_le_bytes();
    let local_offsets = find_all(&archive, b"PK\x03\x04");
    let central_offsets = find_all(&archive, b"PK\x01\x02");
    assert_eq!(local_offsets.len(), 2, "manifest + payload local headers");
    assert_eq!(
        central_offsets.len(),
        2,
        "manifest + payload central records"
    );
    let local = local_offsets[1];
    let central = central_offsets[1];
    // Local file header: 4 (signature) + 2 (version needed) + 2 (flags)
    // + 2 (method) + 2 (time) + 2 (date) + 4 (crc32) + 4 (compressed size)
    // = 22 bytes before the uncompressed-size field.
    let local_size_at = local + 4 + 2 + 2 + 2 + 2 + 2 + 4 + 4;
    // A central directory record has one extra field ("version made by")
    // ahead of "version needed", so its uncompressed-size field sits 2 bytes
    // further in.
    let central_size_at = central + 4 + 2 + 2 + 2 + 2 + 2 + 2 + 4 + 4;
    assert_eq!(
        &archive[local_size_at..local_size_at + 4],
        &true_size[..],
        "test wrote its payload where it expected to find it"
    );
    assert_eq!(
        &archive[central_size_at..central_size_at + 4],
        &true_size[..],
        "test wrote its payload where it expected to find it"
    );
    archive[local_size_at..local_size_at + 4].copy_from_slice(&[0, 0, 0, 0]);
    archive[central_size_at..central_size_at + 4].copy_from_slice(&[0, 0, 0, 0]);
    archive
}

fn find_all(haystack: &[u8], needle: &[u8]) -> Vec<usize> {
    let mut offsets = Vec::new();
    let mut start = 0;
    while let Some(found) = haystack[start..]
        .windows(needle.len())
        .position(|window| window == needle)
    {
        offsets.push(start + found);
        start += found + 1;
    }
    offsets
}

#[test]
fn an_archive_lying_about_zero_bytes_is_still_bounded_by_real_expansion() {
    // Every header on this entry claims 0 bytes; the bytes actually in the
    // archive are well over the expansion bound. The *real* size is what
    // counts.
    let archive = zip_with_lying_size("payload.bin", &vec![7u8; 1 << 20]);
    let limits = ExtractionLimits {
        max_expanded_bytes: 1 << 10,
        max_ratio: u64::MAX,
        ..Default::default()
    };
    assert!(
        matches!(
            extract(archive, limits),
            Err(ExtractionError::LimitExceeded("expanded size"))
        ),
        "a header claiming 0 bytes must not buy unlimited real expansion"
    );
}

#[test]
fn every_size_limit_refuses_rather_than_truncates() {
    let archive = zip_of(&[
        (MANIFEST_NAME, manifest_json().as_bytes()),
        ("big.bin", b"0123456789"),
    ]);
    let tiny = ExtractionLimits {
        max_file_bytes: 4,
        max_ratio: u64::MAX,
        ..Default::default()
    };
    assert!(matches!(
        extract(archive.clone(), tiny),
        Err(ExtractionError::LimitExceeded("per-file size"))
    ));

    let squeezed = ExtractionLimits {
        max_expanded_bytes: 8,
        max_ratio: u64::MAX,
        ..Default::default()
    };
    assert!(matches!(
        extract(archive.clone(), squeezed),
        Err(ExtractionError::LimitExceeded("expanded size"))
    ));

    let narrow = ExtractionLimits {
        max_compressed_bytes: 4,
        ..Default::default()
    };
    assert!(matches!(
        extract(archive, narrow),
        Err(ExtractionError::LimitExceeded("compressed size"))
    ));
}

#[test]
fn too_many_files_are_refused_before_any_are_written() {
    let names: Vec<String> = (0..40).map(|i| format!("f{i}.txt")).collect();
    let manifest = manifest_json();
    let mut entries: Vec<(&str, &[u8])> = vec![(MANIFEST_NAME, manifest.as_bytes())];
    entries.extend(names.iter().map(|name| (name.as_str(), b"x".as_slice())));
    let archive = zip_of(&entries);
    let limits = ExtractionLimits {
        max_files: 10,
        ..Default::default()
    };
    assert!(matches!(
        BundleReader::open(archive, &root(), limits).err(),
        Some(ExtractionError::LimitExceeded("file count"))
    ));
}

#[test]
fn deep_and_long_names_are_refused() {
    let deep = (0..40).map(|_| "d").collect::<Vec<_>>().join("/") + "/x.txt";
    let archive = zip_of(&[
        (MANIFEST_NAME, manifest_json().as_bytes()),
        (deep.as_str(), b"x"),
    ]);
    assert!(matches!(
        extract(archive, ExtractionLimits::default()),
        Err(ExtractionError::LimitExceeded("nesting depth"))
    ));

    let long = "a".repeat(600) + ".txt";
    let archive = zip_of(&[
        (MANIFEST_NAME, manifest_json().as_bytes()),
        (long.as_str(), b"x"),
    ]);
    assert!(matches!(
        extract(archive, ExtractionLimits::default()),
        Err(ExtractionError::LimitExceeded("path length"))
    ));
}

#[test]
fn two_entries_that_land_on_one_path_are_refused() {
    // Distinct ZIP names, one destination: the separator forms differ, so
    // nothing catches this but the containment bookkeeping. Letting the
    // second win would replace a file the manifest was validated against.
    let archive = zip_of(&[
        (MANIFEST_NAME, manifest_json().as_bytes()),
        ("assets/app.js", b"first"),
        ("assets\\app.js", b"second"),
    ]);
    assert!(matches!(
        extract(archive, ExtractionLimits::default()),
        Err(ExtractionError::UnsafeEntry { .. })
    ));
}

#[test]
fn what_is_not_an_archive_is_refused() {
    let error = extract(b"this is not a zip".to_vec(), ExtractionLimits::default()).unwrap_err();
    assert!(matches!(error, ExtractionError::Archive(_)));
    assert!(error.message().contains("not a readable ZIP archive"));
}

// --- External assets -----------------------------------------------------------

fn media() -> Vec<PathPart> {
    vec![anchor(), name("talk")]
}

#[test]
fn an_external_asset_inside_the_document_directory_resolves() {
    let inside = vec![anchor(), name("talk"), name("media"), name("clip.mp4")];
    assert_eq!(
        resolve_external("media/clip.mp4", true, &media(), Some(inside.clone())),
        Ok(inside)
    );
}

#[test]
fn a_traversing_external_path_is_refused_lexically() {
    assert!(matches!(
        resolve_external("../secret.mp4", false, &media(), None),
        Err(ExtractionError::Escapes(_))
    ));
}

#[test]
fn a_symlink_out_of_the_document_directory_is_refused() {
    let outside = vec![anchor(), name("elsewhere"), name("secret.mp4")];
    assert!(
        matches!(
            resolve_external("clip.mp4", true, &media(), Some(outside)),
            Err(ExtractionError::Escapes(_))
        ),
        "a symlink passes every lexical check and must fail this one"
    );
}

// --- Names and paths ---------------------------------------------------------------

#[test]
fn two_staging_roots_never_share_a_directory() {
    let first = staging_name(mix_token(1, 2, 3, 4));
    let second = staging_name(mix_token(1, 2, 3, 5));
    assert_ne!(first, second);
    assert_ne!(asset_name(0), asset_name(1));
}

#[test]
fn contained_paths_stay_inside() {
    let inner = contain(&media(), &[name("a"), name("b")]).unwrap();
    assert!(starts_with(&inner, &media()));
    assert_eq!(contain(&media(), &[name("a"), PathPart::Parent, PathPart::Parent]), None);
}

#[test]
fn a_plain_name_becomes_its_parts() {
    assert_eq!(
        safe_relative_path("assets/app.js", &ExtractionLimits::default()),
        Ok(vec![name("assets"), name("app.js")])
    );
}

#[test]
fn files_are_counted_as_they_come() {
    let limits = ExtractionLimits::default();
    assert_eq!(accept_file(10, 10, 5, &limits), Ok(15));
}

#[test]
fn what_comes_before_a_refused_entry_is_staged() {
    let archive = zip_of(&[("index.html", b"<p>hello</p>"), ("../escaped.html", b"x")]);
    let (staged, outcome) = extract_bundle(archive, &root(), ExtractionLimits::default());
    assert!(matches!(outcome, Err(ExtractionError::UnsafeEntry { .. })));
    assert_eq!(
        staged,
        [StagedEntry::File {
            path: below_root(&["index.html"]),
            bytes: b"<p>hello</p>".to_vec(),
        }]
    );
}

#[test]
fn a_bundle_can_be_unpacked_entry_by_entry() {
    let mut reader =
        BundleReader::open(good_bundle(), &root(), ExtractionLimits::default()).unwrap();
    let mut files = 0;
    while let Some(entry) = reader.next_entry().unwrap() {
        assert!(matches!(entry, StagedEntry::File { .. }));
        files += 1;
    }
    assert_eq!(files, 3);
    assert_eq!(reader.next_entry(), Ok(None));
}
