//! Folders and archives of pictures: which pages there are, and in what order.

use pulpit_render::formats::unsupported_format;
use pulpit_render::images::archive::{
    check_bounds, is_gzipped, label_entry, list_archive, read_entry, read_within,
    unsupported_archive, ArchiveKind,
    ListedEntry, ARCHIVE_EXTENSIONS, MAX_ENTRIES, MAX_ENTRY_BYTES, MAX_TOTAL_BYTES,
};
use pulpit_render::images::decode::ImageFailure;
use pulpit_render::images::listing::{sort, ImageEntry};
use pulpit_render::images::order::{natural_cmp, page_order};
use pulpit_render::images::table::{
    directory_stamp, is_supported_image, list_directory, list_source, openable_extensions,
    reindex, resolve_source, FileFacts, ListError, ListedFile, Listing, PageLocation, PageSource,
    PageTable, IMAGE_EXTENSIONS, MAX_TRACKED_PAGE_SIZES,
};
use pulpit_render::images::taped::{find_in_tar, list_tar, measure_tar};
use pulpit_render::images::zipped::{find_in_zip, list_zip};
use std::io::{Cursor, Read, Write};

fn png(width: u32, height: u32) -> Vec<u8> {
    let mut bytes = Cursor::new(Vec::new());
    image::RgbaImage::from_pixel(width, height, image::Rgba([3, 4, 5, 255]))
        .write_to(&mut bytes, image::ImageFormat::Png)
        .unwrap();
    bytes.into_inner()
}

fn cbz(names: &[&str]) -> Vec<u8> {
    let mut writer = zip::ZipWriter::new(Cursor::new(Vec::new()));
    let options: zip::write::FileOptions<'_, ()> =
        zip::write::FileOptions::default().compression_method(zip::CompressionMethod::Deflated);
    for name in names {
        writer.start_file(*name, options).unwrap();
        writer.write_all(&png(12, 8)).unwrap();
    }
    writer.finish().unwrap().into_inner()
}

fn cbt(names: &[&str]) -> Vec<u8> {
    let mut builder = tar::Builder::new(Vec::new());
    for name in names {
        let bytes = png(12, 8);
        let mut header = tar::Header::new_gnu();
        header.set_size(bytes.len() as u64);
        header.set_mode(0o644);
        header.set_cksum();
        builder
            .append_data(&mut header, name, bytes.as_slice())
            .unwrap();
    }
    builder.into_inner().unwrap()
}

/// What a walk through a zip finds.
fn walk_zip(bytes: Vec<u8>) -> Vec<ListedEntry> {
    list_zip(bytes).unwrap()
}

/// What a walk through a tar finds.
fn walk_tar(bytes: &[u8]) -> Vec<ListedEntry> {
    list_tar(bytes).unwrap()
}

fn text(name: &[u8]) -> String {
    String::from_utf8_lossy(name).into_owned()
}

fn names_of(entries: &[ImageEntry]) -> Vec<String> {
    entries.iter().map(|entry| text(&entry.name)).collect()
}

#[test]
fn a_cbz_lists_its_image_entries_and_nothing_else() {
    let listed = walk_zip(cbz(&[
        "page-01.png",
        "ComicInfo.xml",
        "cover.jpeg",
        "notes.txt",
    ]));
    let entries = list_archive(b"comic.cbz", &listed).unwrap();
    let mut listed = names_of(&entries);
    listed.sort();
    assert_eq!(listed, ["cover.jpeg", "page-01.png"]);
}

#[test]
fn a_cbt_lists_its_image_entries() {
    let listed = walk_tar(&cbt(&["page-01.png", "ComicInfo.xml"]));
    let entries = list_archive(b"comic.cbt", &listed).unwrap();
    assert_eq!(names_of(&entries), ["page-01.png"]);
}

/// Subfolders are flattened, not recursed into, and the reading order is the
/// sorted full path.
#[test]
fn chapter_subfolders_are_flattened_and_keep_their_whole_name() {
    let listed = walk_zip(cbz(&[
        "chapter-2/page-01.png",
        "chapter-1/page-02.png",
        "chapter-1/page-10.png",
        "chapter-1/page-01.png",
    ]));
    let mut entries = list_archive(b"comic.cbz", &listed).unwrap();
    entries.sort_by(|a, b| page_order(&a.name, &b.name));
    assert_eq!(
        names_of(&entries),
        [
            "chapter-1/page-01.png",
            "chapter-1/page-02.png",
            "chapter-1/page-10.png",
            "chapter-2/page-01.png",
        ],
        "natural sort over the full path, so page-2 precedes page-10 \
         inside a chapter and chapter-1 precedes chapter-2"
    );
}

#[test]
fn a_macos_resource_fork_is_not_a_page() {
    let listed = walk_zip(cbz(&["page-01.png", "__MACOSX/._page-01.png"]));
    assert_eq!(
        list_archive(b"comic.cbz", &listed).unwrap().len(),
        1,
        "the resource fork is not a second copy of page one"
    );
}

/// What looking for an entry in an archive finds.
fn find(bytes: Vec<u8>, kind: ArchiveKind, wanted: &str) -> Result<Option<Vec<u8>>, String> {
    match kind {
        ArchiveKind::Zip => find_in_zip(bytes, wanted),
        ArchiveKind::Tar => find_in_tar(b"comic.cbt", &bytes, wanted.as_bytes()),
    }
}

#[test]
fn an_entry_is_read_back_out_of_the_archive() {
    for (name, kind) in [
        ("comic.cbz", ArchiveKind::Zip),
        ("comic.cbt", ArchiveKind::Tar),
    ] {
        let archive = match kind {
            ArchiveKind::Zip => cbz(&["a/page-01.png"]),
            ArchiveKind::Tar => cbt(&["a/page-01.png"]),
        };
        let found = find(archive.clone(), kind, "a/page-01.png");
        let bytes = read_entry(name.as_bytes(), b"a/page-01.png", found).unwrap();
        assert_eq!(bytes, png(12, 8), "{name}");
        let missing = find(archive, kind, "nope.png");
        assert_eq!(
            read_entry(name.as_bytes(), b"nope.png", missing),
            Err(ImageFailure::Unreadable {
                path: format!("{name}!nope.png"),
                reason: "no such entry in the archive".to_string(),
            })
        );
    }
}

#[test]
fn a_gzipped_cbt_is_read_rather_than_called_damaged() {
    let plain = cbt(&["page-01.png"]);
    assert!(!is_gzipped(&plain[..2]));

    let mut encoder =
        flate2::write::GzEncoder::new(Vec::new(), flate2::Compression::fast());
    encoder.write_all(&plain).unwrap();
    let packed = encoder.finish().unwrap();
    assert!(is_gzipped(&packed[..2]));

    assert_eq!(
        names_of(&list_archive(b"comic.cbt", &walk_tar(&packed)).unwrap()),
        ["page-01.png"]
    );
    let found = find(packed, ArchiveKind::Tar, "page-01.png");
    assert_eq!(
        read_entry(b"comic.cbt", b"page-01.png", found).unwrap(),
        png(12, 8)
    );
}

#[test]
fn a_cbt_is_measured_plain_and_gzipped_alike() {
    let plain = cbt(&["a.png", "ComicInfo.xml", "b/c.png"]);
    let mut encoder =
        flate2::write::GzEncoder::new(Vec::new(), flate2::Compression::fast());
    encoder.write_all(&plain).unwrap();
    let packed = encoder.finish().unwrap();
    for bytes in [plain, packed] {
        let measured = measure_tar(b"comic.cbt", &bytes);
        assert_eq!(measured.size(b"a.png"), Some((12, 8)));
        assert_eq!(measured.size(b"b/c.png"), Some((12, 8)));
        assert_eq!(measured.size(b"ComicInfo.xml"), None);
    }
}

#[test]
fn a_damaged_cbt_is_refused_where_it_is_damaged() {
    let mut damaged = cbt(&["a.png", "b.png"]);
    damaged[0] = b'?';
    assert!(list_tar(&damaged).is_err());
    let reason = find_in_tar(b"comic.cbt", &damaged, b"a.png").unwrap_err();
    assert!(reason.contains("comic.cbt"), "{reason}");
    assert_eq!(measure_tar(b"comic.cbt", &damaged).size(b"b.png"), None);
}

// Each of the three bounds refuses rather than allocating. Checked over the
// *claimed* sizes, which is what makes them cheap enough to apply before
// anything is decompressed.
fn claiming(name: &str, len: u64) -> ImageEntry {
    ImageEntry {
        name: name.as_bytes().to_vec(),
        len,
        modified: None,
    }
}

#[test]
fn an_archive_claiming_too_many_pages_is_refused() {
    let entries: Vec<ImageEntry> = (0..MAX_ENTRIES + 1)
        .map(|index| claiming(&format!("page-{index:05}.png"), 1))
        .collect();
    assert!(matches!(
        check_bounds(b"/comics/huge.cbz", &entries),
        Err(ListError::TooManyImages { count, .. }) if count == MAX_ENTRIES + 1
    ));
    assert!(check_bounds(b"/comics/ok.cbz", &entries[..MAX_ENTRIES]).is_ok());
}

#[test]
fn an_archive_with_one_enormous_entry_is_refused_and_names_it() {
    let entries = [
        claiming("page-01.png", 1024),
        claiming("bomb.png", MAX_ENTRY_BYTES + 1),
    ];
    let error = check_bounds(b"/comics/bomb.cbz", &entries).unwrap_err();
    assert!(
        error.message().contains("bomb.png"),
        "the offending entry is named: {}",
        error.message()
    );
}

#[test]
fn an_archive_that_expands_past_the_total_bound_is_refused() {
    let each = MAX_ENTRY_BYTES;
    let count = (MAX_TOTAL_BYTES / each) as usize + 1;
    let entries: Vec<ImageEntry> = (0..count)
        .map(|index| claiming(&format!("page-{index:05}.png"), each))
        .collect();
    assert!(matches!(
        check_bounds(b"/comics/bomb.cbz", &entries),
        Err(ListError::ArchiveTooLarge { .. })
    ));
}

/// What a reader gives up to one byte past a bound.
fn bounded(reader: impl Read, limit: u64) -> Result<Vec<u8>, String> {
    let mut bytes = Vec::new();
    reader.take(limit + 1).read_to_end(&mut bytes).unwrap();
    read_within(bytes, limit)
}

/// The declared size is a claim, and a bomb is built out of the gap between
/// the claim and what the entry actually produces. The read is bounded too, so
/// an entry that lies stops at the limit instead of filling memory.
#[test]
fn an_entry_that_expands_past_its_bound_stops_rather_than_filling_memory() {
    let honest = bounded(std::io::repeat(0u8).take(64), 128).unwrap();
    assert_eq!(honest.len(), 64);
    assert_eq!(
        bounded(std::io::repeat(0u8).take(128), 128).unwrap().len(),
        128
    );

    let error = bounded(std::io::repeat(0u8), 128).unwrap_err();
    assert!(error.contains("128"), "{error}");
}

#[test]
fn a_corrupt_archive_is_unreadable_rather_than_empty() {
    let reason = zip::ZipArchive::new(Cursor::new(b"this is not a zip".to_vec()))
        .err()
        .expect("not a zip")
        .to_string();
    let source = PageSource::Archive {
        path: b"broken.cbz".to_vec(),
        kind: ArchiveKind::Zip,
    };
    assert!(matches!(
        list_source(source, Listing::Failed(reason)),
        Err(ListError::Unreadable { .. })
    ));
}

/// A comic format that is refused is not mistaken for an archive that is read.
#[test]
fn a_refused_comic_format_is_not_an_archive_kind() {
    for name in ["/comics/book.cbr", "/comics/book.cb7"] {
        assert_eq!(ArchiveKind::of(name.as_bytes()), None);
        assert!(unsupported_format(name.as_bytes()).is_some());
    }
}

#[test]
fn the_archive_kinds_are_decided_by_extension_alone() {
    assert_eq!(ArchiveKind::of(b"a.cbz"), Some(ArchiveKind::Zip));
    assert_eq!(ArchiveKind::of(b"a.CBT"), Some(ArchiveKind::Tar));
    assert_eq!(ArchiveKind::of(b"a.cbr"), None);
    assert_eq!(ArchiveKind::of(b"a.pdf"), None);
    for extension in ARCHIVE_EXTENSIONS {
        assert!(ArchiveKind::of(format!("a.{extension}").as_bytes()).is_some());
    }
}

// --- The page table -------------------------------------------------------

const NANOS: i128 = 1_000_000_000;

fn entry(name: &str, len: u64) -> ImageEntry {
    ImageEntry {
        name: name.as_bytes().to_vec(),
        len,
        modified: Some(1_700_000_000 * NANOS),
    }
}

fn names(names: &[&str]) -> Vec<Vec<u8>> {
    names.iter().map(|name| name.as_bytes().to_vec()).collect()
}

#[test]
fn ten_sorts_after_two() {
    let table = PageTable::over_directory(
        b"/pictures",
        vec![
            entry("img10.png", 1),
            entry("img2.png", 1),
            entry("img1.png", 1),
        ],
    );
    let order = names_of(table.entries());
    assert_eq!(order, ["img1.png", "img2.png", "img10.png"]);
}

#[test]
fn case_is_folded_for_comparison_and_the_raw_name_breaks_the_tie() {
    let table = PageTable::over_directory(
        b"/pictures",
        vec![entry("b.png", 1), entry("A.png", 1), entry("a.png", 1)],
    );
    let order = names_of(table.entries());
    assert_eq!(
        order,
        ["A.png", "a.png", "b.png"],
        "case folding orders a before b; the raw name separates A from a"
    );
}

#[test]
fn leading_zeros_do_not_change_the_number_but_do_break_the_tie() {
    assert_eq!(natural_cmp("img007", "img7"), std::cmp::Ordering::Greater);
    assert_eq!(natural_cmp("img007", "img8"), std::cmp::Ordering::Less);
    assert_eq!(natural_cmp("img20", "img100"), std::cmp::Ordering::Less);
}

#[test]
fn ordering_is_total_and_the_same_however_the_input_arrives() {
    let one = PageTable::over_directory(
        b"/p",
        vec![entry("c.png", 1), entry("a.png", 1), entry("b.png", 1)],
    );
    let two = PageTable::over_directory(
        b"/p",
        vec![entry("b.png", 1), entry("c.png", 1), entry("a.png", 1)],
    );
    assert_eq!(one, two, "readdir order must not reach the page table");
}

#[test]
fn the_digest_is_stable_for_the_same_directory() {
    let one = PageTable::over_directory(b"/p", vec![entry("a.png", 10), entry("b.png", 20)]);
    let two = PageTable::over_directory(b"/p", vec![entry("b.png", 20), entry("a.png", 10)]);
    assert_eq!(one.digest(), two.digest());
}

/// A directory's own time does *not* move when a member is overwritten in
/// place, so the members are part of the digest.
#[test]
fn a_member_overwritten_in_place_moves_the_digest() {
    let before = PageTable::over_directory(b"/p", vec![entry("a.png", 10), entry("b.png", 20)]);

    let mut rewritten = entry("b.png", 20);
    rewritten.modified = rewritten.modified.map(|time| time + NANOS);
    let after = PageTable::over_directory(b"/p", vec![entry("a.png", 10), rewritten]);
    assert_ne!(
        before.digest(),
        after.digest(),
        "same names, same count, same lengths — only the mtime moved"
    );

    let regrown = PageTable::over_directory(b"/p", vec![entry("a.png", 10), entry("b.png", 21)]);
    assert_ne!(before.digest(), regrown.digest(), "only the length moved");
}

#[test]
fn adding_and_removing_a_member_moves_the_digest() {
    let before = PageTable::over_directory(b"/p", vec![entry("a.png", 10)]);
    let after = PageTable::over_directory(b"/p", vec![entry("a.png", 10), entry("b.png", 20)]);
    assert_ne!(before.digest(), after.digest());
}

#[test]
fn an_insert_earlier_in_sort_order_keeps_the_page_on_screen() {
    let before = names(&["b.png", "c.png"]);
    let after = names(&["a.png", "b.png", "c.png"]);
    assert_eq!(
        reindex(&before, &after, 0),
        1,
        "b.png was index 0 and is now index 1; the audience must not change picture"
    );
    assert_eq!(reindex(&before, &after, 1), 2);
}

#[test]
fn a_rename_is_a_delete_and_an_insert_and_falls_to_a_neighbour() {
    let before = names(&["a.png", "b.png", "c.png"]);
    let after = names(&["a.png", "c.png", "z.png"]);
    assert_eq!(
        reindex(&before, &after, 1),
        1,
        "b.png is gone; c.png is the nearest survivor after it"
    );
}

#[test]
fn deleting_the_page_on_screen_advances_to_the_next_one() {
    let before = names(&["a.png", "b.png", "c.png"]);
    let after = names(&["a.png", "c.png"]);
    assert_eq!(reindex(&before, &after, 1), 1, "which is c.png, not a.png");
}

#[test]
fn deleting_the_last_page_falls_back_to_the_one_before_it() {
    let before = names(&["a.png", "b.png", "c.png"]);
    let after = names(&["a.png", "b.png"]);
    assert_eq!(reindex(&before, &after, 2), 1);
}

#[test]
fn a_reorder_follows_the_name_rather_than_the_index() {
    let before = names(&["img2.png", "img10.png"]);
    let after = names(&["img10.png", "img2.png"]);
    assert_eq!(reindex(&before, &after, 0), 1);
    assert_eq!(reindex(&before, &after, 1), 0);
}

#[test]
fn an_entirely_different_folder_clamps_rather_than_failing() {
    let before = names(&["a.png", "b.png", "c.png"]);
    let after = names(&["x.png"]);
    assert_eq!(reindex(&before, &after, 2), 0);
    assert_eq!(reindex(&before, &[], 2), 0);
}

#[test]
fn the_supported_set_is_decided_by_extension_alone_and_ignores_case() {
    for name in ["a.png", "a.JPG", "a.Jpeg", "a.tiff", "a.pbm", "a.qoi"] {
        assert!(is_supported_image(name.as_bytes()), "{name}");
    }
    for name in ["a.svg", "a.pdf", "a", "a.png.tmp", "a.heic", ".png"] {
        assert!(!is_supported_image(name.as_bytes()), "{name}");
    }
}

#[test]
fn opening_a_file_resolves_to_its_parent_directory() {
    let resolved = resolve_source(b"/pictures/talk/slide03.png", false).unwrap();
    assert_eq!(resolved.path(), b"/pictures/talk");
    assert_eq!(resolved.picked.as_deref(), Some(b"slide03.png".as_slice()));
    assert!(resolved.was_widened());
    assert!(resolve_source(b"/decks/talk.pdf", false).is_none());
}

/// An archive replaces the directory as the source, so the document is one
/// file again — and it is not widened, because the presenter asked for exactly
/// the thing they got.
#[test]
fn a_comic_archive_is_the_document_and_is_one_file() {
    for name in ["/comics/book.cbz", "/comics/book.CBT"] {
        let resolved = resolve_source(name.as_bytes(), false).unwrap();
        assert_eq!(resolved.path(), name.as_bytes());
        assert!(resolved.source.is_archive(), "{name}");
        assert!(!resolved.was_widened(), "{name}");
    }
    assert!(
        resolve_source(b"/comics/book.cbr", false).is_none(),
        "a RAR is refused by name elsewhere, not listed here"
    );
}

#[test]
fn an_archive_has_no_digest_to_compare() {
    let table = PageTable::from_entries(
        PageSource::Archive {
            path: b"/comics/book.cbz".to_vec(),
            kind: ArchiveKind::Zip,
        },
        vec![entry("page-01.png", 10)],
    );
    assert_eq!(
        table.source_digest(),
        None,
        "one file, rewritten atomically or not at all"
    );
    assert_eq!(
        PageTable::over_directory(b"/p", vec![entry("a.png", 10)]).source_digest(),
        Some(PageTable::over_directory(b"/p", vec![entry("a.png", 10)]).digest())
    );
}

#[test]
fn a_page_is_located_in_whichever_source_it_came_from() {
    let folder = PageTable::over_directory(b"/p", vec![entry("a.png", 1)]);
    assert_eq!(
        folder.locate(0),
        Some(PageLocation::File(b"/p/a.png".to_vec()))
    );

    let archive = PageTable::from_entries(
        PageSource::Archive {
            path: b"/comics/book.cbz".to_vec(),
            kind: ArchiveKind::Zip,
        },
        vec![entry("ch1/a.png", 1)],
    );
    assert!(matches!(
        archive.locate(0),
        Some(PageLocation::ArchiveEntry { name, .. }) if name == b"ch1/a.png"
    ));
    assert_eq!(archive.locate(1), None);
}

/// The dialog's list is derived from both constants, so a format added to
/// either is a format the picker offers.
#[test]
fn everything_openable_is_derived_from_the_two_constants() {
    let openable = openable_extensions();
    for extension in IMAGE_EXTENSIONS {
        assert!(openable.contains(&extension), "{extension}");
    }
    for extension in ARCHIVE_EXTENSIONS {
        assert!(openable.contains(&extension), "{extension}");
    }
    assert_eq!(
        openable.len(),
        IMAGE_EXTENSIONS.len() + ARCHIVE_EXTENSIONS.len()
    );
    assert!(!openable.contains(&"cbr"));
}

#[test]
fn a_bare_file_name_resolves_to_the_working_directory() {
    let resolved = resolve_source(b"shot.png", false).unwrap();
    assert_eq!(resolved.path(), b".");
}

fn file(name: &str, contents: &[u8]) -> ListedFile {
    ListedFile {
        name: name.as_bytes().to_vec(),
        facts: Some(FileFacts {
            is_dir: false,
            len: contents.len() as u64,
            modified: None,
        }),
    }
}

fn folder(name: &str) -> ListedFile {
    ListedFile {
        name: name.as_bytes().to_vec(),
        facts: Some(FileFacts {
            is_dir: true,
            len: 4096,
            modified: None,
        }),
    }
}

#[test]
fn a_real_directory_is_listed_non_recursively_and_in_order() {
    let listed = vec![
        folder("nested"),
        file("img10.png", b"xx"),
        file("img2.PNG", b"xxx"),
        file("notes.txt", b"xxxx"),
    ];
    let table = list_directory(b"/p", Ok(listed)).unwrap();
    assert_eq!(names_of(table.entries()), ["img2.PNG", "img10.png"]);
    assert_eq!(table.index_of(b"img10.png"), Some(1));
}

#[test]
fn an_empty_directory_is_a_table_with_no_pages() {
    assert!(list_directory(b"/p", Ok(Vec::new())).unwrap().is_empty());
}

#[test]
fn a_folder_and_its_stamp_agree() {
    assert_eq!(directory_stamp(&Err("gone".to_string())), None);
    let listed = Ok(vec![file("b.png", b"two"), file("a.txt", b"x"), file("a.png", b"one")]);
    let turned = Ok(vec![file("a.png", b"one"), file("b.png", b"two")]);
    let (count, digest) = directory_stamp(&listed).unwrap();
    assert_eq!(count, 2);
    assert_eq!(directory_stamp(&turned), Some((2, digest)));
    let table = list_directory(b"/p", listed).unwrap();
    assert_eq!(table.digest(), digest);
    let changed = Ok(vec![file("a.png", b"one"), file("b.png", b"three")]);
    assert_ne!(directory_stamp(&changed), Some((2, digest)));
}

#[test]
fn a_directory_over_the_cap_is_refused_and_names_the_count() {
    let listed: Vec<ListedFile> = (0..MAX_TRACKED_PAGE_SIZES + 1)
        .map(|index| file(&format!("{index}.png"), b"x"))
        .collect();
    let listed = Ok(listed);
    assert_eq!(
        directory_stamp(&listed).map(|(count, _)| count),
        Some(MAX_TRACKED_PAGE_SIZES + 1),
        "the probe still has a stamp for it, so the refusal happens at the \
         open — where somebody is told the count — rather than as a silent \
         retry for ever"
    );
    let error = list_directory(b"/p", listed).unwrap_err();
    let ListError::TooManyImages { count, .. } = &error else {
        panic!("expected a refusal, got {}", error.message());
    };
    assert_eq!(*count, MAX_TRACKED_PAGE_SIZES + 1);
    assert!(error
        .message()
        .contains(&(MAX_TRACKED_PAGE_SIZES + 1).to_string()));
}

// --- What holds of every listing -------------------------------------------

#[test]
fn a_folder_that_cannot_be_listed_says_why() {
    let error = list_directory(b"/gone", Err("no such folder".to_string())).unwrap_err();
    assert!(error.message().contains("no such folder"));
    assert!(error.message().contains("/gone"));
}

#[test]
fn an_unsupported_archive_is_named() {
    assert!(unsupported_archive(b"book.cbr").is_some());
    assert!(unsupported_archive(b"book.cbz").is_none());
}

#[test]
fn a_page_keeps_its_name_when_the_folder_changes() {
    let before = PageTable::over_directory(b"/p", vec![entry("b.png", 1), entry("d.png", 1)]);
    let after = PageTable::over_directory(
        b"/p",
        vec![entry("a.png", 1), entry("b.png", 1), entry("d.png", 1)],
    );
    let now = after.reindex_from(&before, 1);
    assert_eq!(after.name(now), before.name(1));
}

#[test]
fn sorting_keeps_every_entry() {
    let mixed = [entry("z.png", 3), entry("B.png", 2), entry("b1.png", 1)];
    let sorted = sort(&mixed);
    assert_eq!(names_of(&sorted), ["B.png", "b1.png", "z.png"]);
    assert_eq!(sorted.iter().map(|entry| entry.len).sum::<u64>(), 6);
}

#[test]
fn an_entry_is_labelled_by_its_archive_and_its_name() {
    let label = label_entry(b"/comics/book.cbz", b"ch-1/page.png");
    assert_eq!(label, "/comics/book.cbz!ch-1/page.png");
}
