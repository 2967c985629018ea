//! Comic archives: a `.cbz` or `.cbt` shown exactly as a folder of pictures.

use crate::bytes::{copy_bytes, utf8};
use crate::images::decode::{Failure, ImageFailure};
use crate::images::listing::{entry_list, sort, sorted, EntryValue, ImageEntry};
use crate::images::names::{
    bytes_between, equal_letters, extension_of_path, path_extension, same_letters,
};
use crate::images::table::{
    is_supported_image, supported, ListError, ListFault, MAX_TRACKED_PAGE_SIZES,
};
use crate::text::{decimal_text, owned, push_decimal, push_str, text_from_utf8_lossy, lossy_utf8};
use vstd::prelude::*;

verus! {

/// The extensions of the archives that are read.
pub const ARCHIVE_EXTENSIONS: [&'static str; 2] = ["cbz", "cbt"];

/// How the entries of an archive are stored.
#[derive(Debug, Clone, Copy, PartialEq, Eq, Structural)]
pub enum ArchiveKind {
    /// `.cbz`, a ZIP archive.
    Zip,
    /// `.cbt`, a tape archive, plain or compressed.
    Tar,
}

/// The archive that an extension names, if any.
pub open spec fn archive_kind(path: Seq<u8>) -> Option<ArchiveKind> {
    match path_extension(path) {
        Some(extension) => if same_letters(extension, utf8("cbz"@)) {
            Some(ArchiveKind::Zip)
        } else if same_letters(extension, utf8("cbt"@)) {
            Some(ArchiveKind::Tar)
        } else {
            None
        },
        None => None,
    }
}

impl ArchiveKind {
    /// Which archive a path names, by its extension alone.
    pub fn of(path: &[u8]) -> (kind: Option<ArchiveKind>)
        ensures
            kind == archive_kind(path@),
    {
        match extension_of_path(path) {
            Some(extension) => {
                if equal_letters(extension.as_slice(), "cbz".as_bytes()) {
                    Some(ArchiveKind::Zip)
                } else if equal_letters(extension.as_slice(), "cbt".as_bytes()) {
                    Some(ArchiveKind::Tar)
                } else {
                    None
                }
            },
            None => None,
        }
    }
}

/// The largest that an entry may claim to be, or turn out to be.
pub const MAX_ENTRY_BYTES: u64 = 268_435_456;

/// The largest that the entries of an archive may be together.
pub const MAX_TOTAL_BYTES: u64 = 4_294_967_296;

/// The largest number of pages that an archive may hold, which is that of a
/// folder.
pub const MAX_ENTRIES: usize = MAX_TRACKED_PAGE_SIZES;

/// How much the first `n` entries claim together.
pub open spec fn claimed(entries: Seq<EntryValue>, n: int) -> int
    decreases n,
{
    if n <= 0 {
        0
    } else {
        claimed(entries, n - 1) + entries[n - 1].len
    }
}

/// The first entry from `i` on that claims too much.
pub open spec fn oversized(entries: Seq<EntryValue>, i: int) -> Option<EntryValue>
    decreases entries.len() - i,
{
    if i >= entries.len() {
        None
    } else if entries[i].len > MAX_ENTRY_BYTES {
        Some(entries[i])
    } else {
        oversized(entries, i + 1)
    }
}

/// Which bound an archive breaks by what it claims, if any.
pub open spec fn bounds_fault(path: Seq<u8>, entries: Seq<EntryValue>) -> Option<ListFault> {
    if entries.len() > MAX_ENTRIES {
        Some(ListFault::TooManyImages(lossy_utf8(path), entries.len()))
    } else {
        match oversized(entries, 0) {
            Some(entry) => Some(
                ListFault::EntryTooLarge(lossy_utf8(path), lossy_utf8(entry.name), entry.len),
            ),
            None => if claimed(entries, entries.len() as int) > MAX_TOTAL_BYTES {
                Some(
                    ListFault::ArchiveTooLarge(
                        lossy_utf8(path),
                        claimed(entries, entries.len() as int) as u64,
                    ),
                )
            } else {
                None
            },
        }
    }
}

/// Holds an archive to its bounds by what it claims, before anything of it is
/// expanded.
pub fn check_bounds(path: &[u8], entries: &[ImageEntry]) -> (checked: Result<(), ListError>)
    ensures
        match checked {
            Ok(()) => bounds_fault(path@, entry_list(entries@)) is None,
            Err(error) => bounds_fault(path@, entry_list(entries@)) == Some(error@),
        },
{
    let count: usize = entries.len();
    if count > MAX_ENTRIES {
        return Err(ListError::TooManyImages { path: text_from_utf8_lossy(path), count });
    }
    let ghost all = entry_list(entries@);
    let mut total: u64 = 0;
    let mut i: usize = 0;
    while i < count
        invariant
            i <= count,
            count == entries@.len(),
            count <= MAX_ENTRIES,
            all == entry_list(entries@),
            total == claimed(all, i as int),
            total <= i * MAX_ENTRY_BYTES,
            oversized(all, i as int) == oversized(all, 0),
        decreases count - i,
    {
        let len: u64 = entries[i].len;
        assert(all[i as int] == entries@[i as int]@);
        if len > MAX_ENTRY_BYTES {
            return Err(
                ListError::EntryTooLarge {
                    path: text_from_utf8_lossy(path),
                    entry: text_from_utf8_lossy(entries[i].name.as_slice()),
                    bytes: len,
                },
            );
        }
        assert(total + len <= (i + 1) * MAX_ENTRY_BYTES) by (nonlinear_arith)
            requires
                total <= i * MAX_ENTRY_BYTES,
                len <= MAX_ENTRY_BYTES,
        ;
        assert((i + 1) * MAX_ENTRY_BYTES <= 4_096 * MAX_ENTRY_BYTES) by (nonlinear_arith)
            requires
                i + 1 <= 4_096,
        ;
        total = total + len;
        i += 1;
    }
    if total > MAX_TOTAL_BYTES {
        return Err(
            ListError::ArchiveTooLarge { path: text_from_utf8_lossy(path), bytes: total },
        );
    }
    Ok(())
}

/// Where the last separator of an entry's name stands among the first `n`
/// bytes, plus one. An archive may use either slash.
pub open spec fn after_last_slash(name: Seq<u8>, n: int) -> int
    decreases n,
{
    if n <= 0 {
        0
    } else if name[n - 1] == 47 || name[n - 1] == 92 {
        n
    } else {
        after_last_slash(name, n - 1)
    }
}

/// Is this entry a page? Its last component decides, and what a packer left
/// behind beside a page, with `._` before its name, is none.
pub open spec fn image_entry(name: Seq<u8>) -> bool {
    let last = name.skip(after_last_slash(name, name.len() as int));
    &&& !(last.len() >= 2 && last[0] == 46 && last[1] == 95)
    &&& supported(last)
}

/// Is this entry name that of a page?
pub fn is_image_entry(name: &[u8]) -> (yes: bool)
    ensures
        yes == image_entry(name@),
{
    let length: usize = name.len();
    let mut at: usize = length;
    while at > 0 && name[at - 1] != 47 && name[at - 1] != 92
        invariant
            at <= length,
            length == name@.len(),
            after_last_slash(name@, at as int) == after_last_slash(name@, length as int),
        decreases at,
    {
        at -= 1;
    }
    let last = bytes_between(name, at, length);
    assert(last@ =~= name@.skip(at as int));
    if last.len() >= 2 && last[0] == 46 && last[1] == 95 {
        return false;
    }
    is_supported_image(last.as_slice())
}

/// What an archive lists: a file or something else, its name where it can be
/// read, and the size that it claims.
#[derive(Debug, Clone, PartialEq, Eq)]
pub struct ListedEntry {
    pub is_file: bool,
    pub name: Option<Vec<u8>>,
    pub size: u64,
}

/// Does an archive list a page here?
pub open spec fn lists_page(entry: ListedEntry) -> bool {
    entry.is_file && match entry.name {
        Some(name) => image_entry(name@),
        None => false,
    }
}

/// The pages among the first `n` entries that an archive lists. An entry keeps
/// its whole name: folders are flattened, not descended into.
pub open spec fn pages_listed(listed: Seq<ListedEntry>, n: int) -> Seq<EntryValue>
    decreases n,
{
    if n <= 0 {
        Seq::empty()
    } else if lists_page(listed[n - 1]) {
        pages_listed(listed, n - 1).push(
            EntryValue {
                name: listed[n - 1].name.unwrap()@,
                len: listed[n - 1].size,
                modified: None,
            },
        )
    } else {
        pages_listed(listed, n - 1)
    }
}

/// The pages of an archive in the order of their names, as long as it keeps to
/// its bounds.
pub fn list_archive(path: &[u8], listed: &[ListedEntry]) -> (entries: Result<
    Vec<ImageEntry>,
    ListError,
>)
    ensures
        match entries {
            Ok(pages) => entry_list(pages@) == sorted(
                pages_listed(listed@, listed@.len() as int),
            ) && bounds_fault(path@, pages_listed(listed@, listed@.len() as int)) is None,
            Err(error) => bounds_fault(path@, pages_listed(listed@, listed@.len() as int)) == Some(
                error@,
            ),
        },
{
    let mut pages: Vec<ImageEntry> = Vec::new();
    let mut i: usize = 0;
    assert(entry_list(pages@) =~= Seq::empty());
    while i < listed.len()
        invariant
            i <= listed@.len(),
            entry_list(pages@) == pages_listed(listed@, i as int),
        decreases listed@.len() - i,
    {
        let ghost before = entry_list(pages@);
        if listed[i].is_file {
            if let Some(name) = &listed[i].name {
                if is_image_entry(name.as_slice()) {
                    pages.push(
                        ImageEntry {
                            name: copy_bytes(name.as_slice()),
                            len: listed[i].size,
                            modified: None,
                        },
                    );
                    assert(entry_list(pages@) =~= before.push(pages@.last()@));
                }
            }
        }
        i += 1;
    }
    match check_bounds(path, pages.as_slice()) {
        Ok(()) => Ok(sort(pages.as_slice())),
        Err(error) => Err(error),
    }
}

/// What comes of reading an entry one byte past a limit: its bytes, unless that
/// last byte was there.
pub fn read_within(read: Vec<u8>, limit: u64) -> (bytes: Result<Vec<u8>, String>)
    ensures
        match bytes {
            Ok(kept) => kept == read && read@.len() <= limit,
            Err(reason) => read@.len() > limit && reason@ == "the entry expands past the "@
                + decimal_text(limit as nat) + "-byte limit"@,
        },
{
    if read.len() as u64 > limit {
        let mut reason = owned("the entry expands past the ");
        push_decimal(&mut reason, limit);
        push_str(&mut reason, "-byte limit");
        Err(reason)
    } else {
        Ok(read)
    }
}

/// How an entry of an archive is named in what is said of it.
pub open spec fn entry_label(path: Seq<u8>, name: Seq<u8>) -> Seq<char> {
    lossy_utf8(path) + "!"@ + lossy_utf8(name)
}

/// Names an entry of an archive.
pub fn label_entry(path: &[u8], name: &[u8]) -> (label: String)
    ensures
        label@ == entry_label(path@, name@),
{
    let mut label = text_from_utf8_lossy(path);
    push_str(&mut label, "!");
    push_str(&mut label, text_from_utf8_lossy(name).as_str());
    label
}

/// Does a file start as a compressed one does? A tape archive may be compressed,
/// and is not damaged for it.
pub fn is_gzipped(start: &[u8]) -> (gzipped: bool)
    ensures
        gzipped == (start@.len() >= 2 && start@[0] == 0x1F && start@[1] == 0x8B),
{
    start.len() >= 2 && start[0] == 0x1F && start[1] == 0x8B
}

/// What comes of reading an entry of an archive that may not be there.
pub fn read_entry(path: &[u8], name: &[u8], found: Result<Option<Vec<u8>>, String>) -> (bytes: Result<
    Vec<u8>,
    ImageFailure,
>)
    ensures
        match (found, bytes) {
            (Ok(Some(read)), Ok(given)) => given == read,
            (Ok(None), Err(failure)) => failure@ == Failure::Unreadable(
                entry_label(path@, name@),
                "no such entry in the archive"@,
            ),
            (Err(reason), Err(failure)) => failure@ == Failure::Unreadable(
                entry_label(path@, name@),
                reason@,
            ),
            _ => false,
        },
{
    match found {
        Ok(Some(bytes)) => Ok(bytes),
        Ok(None) => Err(
            ImageFailure::Unreadable {
                path: label_entry(path, name),
                reason: owned("no such entry in the archive"),
            },
        ),
        Err(reason) => Err(ImageFailure::Unreadable { path: label_entry(path, name), reason }),
    }
}

/// Why an archive of this format is not read, if it is one that is refused by
/// name. It is not damaged, and must not be called so.
pub open spec fn refusal_of(path: Seq<u8>) -> Option<Seq<char>> {
    match path_extension(path) {
        Some(extension) => if same_letters(extension, utf8("cbr"@)) {
            Some("RAR archives (.cbr) are not supported; repack the comic as .cbz"@)
        } else if same_letters(extension, utf8("cb7"@)) {
            Some("7-Zip archives (.cb7) are not supported; repack the comic as .cbz"@)
        } else {
            None
        },
        None => None,
    }
}

/// Why a comic archive is refused by name, if it is.
pub fn unsupported_archive(path: &[u8]) -> (refusal: Option<&'static str>)
    ensures
        match refusal {
            Some(text) => refusal_of(path@) == Some(text@),
            None => refusal_of(path@) is None,
        },
{
    match extension_of_path(path) {
        Some(extension) => {
            if equal_letters(extension.as_slice(), "cbr".as_bytes()) {
                Some("RAR archives (.cbr) are not supported; repack the comic as .cbz")
            } else if equal_letters(extension.as_slice(), "cb7".as_bytes()) {
                Some("7-Zip archives (.cb7) are not supported; repack the comic as .cbz")
            } else {
                None
            }
        },
        None => None,
    }
}

/// Only the last component of a name decides whether an entry is a page: whatever
/// folders stand before it, of whatever depth and with either slash.
pub proof fn law_the_last_component_decides(folder: Seq<u8>, slash: u8, name: Seq<u8>)
    requires
        slash == 47 || slash == 92,
        forall|i: int| 0 <= i < name.len() ==> (#[trigger] name[i]) != 47 && name[i] != 92,
    ensures
        image_entry(folder.push(slash) + name) == image_entry(name),
{
    let whole = folder.push(slash) + name;
    lemma_after_last_slash(name, name.len() as int);
    lemma_after_last_slash(whole, whole.len() as int);
    let k = after_last_slash(whole, whole.len() as int);
    let start = folder.len() + 1;
    assert(whole[folder.len() as int] == slash);
    assert(k == start) by {
        if k > start {
            assert(whole[k - 1] == name[k - 1 - start]);
        }
    }
    let none = after_last_slash(name, name.len() as int);
    assert(none == 0) by {
        if none > 0 {
            assert(name[none - 1] == 47 || name[none - 1] == 92);
        }
    }
    assert(whole.skip(k) =~= name);
    assert(name.skip(0) =~= name);
}

proof fn lemma_after_last_slash(name: Seq<u8>, n: int)
    requires
        0 <= n <= name.len(),
    ensures
        ({
            let k = after_last_slash(name, n);
            &&& 0 <= k <= n
            &&& k > 0 ==> name[k - 1] == 47 || name[k - 1] == 92
            &&& forall|i: int| k <= i < n ==> (#[trigger] name[i]) != 47 && name[i] != 92
        }),
    decreases n,
{
    if n > 0 && !(name[n - 1] == 47 || name[n - 1] == 92) {
        lemma_after_last_slash(name, n - 1);
    }
}

/// What an archive lists as pages are its files whose names say so, under their
/// whole names and with the sizes that they claim, in the order of the archive.
pub proof fn law_pages_are_the_listed_files(listed: Seq<ListedEntry>, n: int)
    requires
        0 <= n <= listed.len(),
    ensures
        pages_listed(listed, n) == listed.take(n).filter(
            |entry: ListedEntry|
                entry.is_file && entry.name is Some && image_entry(entry.name->0@),
        ).map_values(
            |entry: ListedEntry|
                EntryValue { name: entry.name->0@, len: entry.size, modified: None },
        ),
    decreases n,
{
    let keep = |entry: ListedEntry|
        entry.is_file && entry.name is Some && image_entry(entry.name->0@);
    let give = |entry: ListedEntry|
        EntryValue { name: entry.name->0@, len: entry.size, modified: None };
    reveal(Seq::filter);
    let some = listed.take(n);
    if n > 0 {
        law_pages_are_the_listed_files(listed, n - 1);
        assert(some.drop_last() =~= listed.take(n - 1));
        assert(some.last() == listed[n - 1]);
        let before = some.drop_last().filter(keep);
        assert(some.filter(keep).map_values(give) =~= if keep(listed[n - 1]) {
            before.map_values(give).push(give(listed[n - 1]))
        } else {
            before.map_values(give)
        });
    } else {
        assert(some =~= Seq::empty());
        assert(some.filter(keep).map_values(give) =~= Seq::empty());
    }
}

proof fn lemma_oversized(entries: Seq<EntryValue>, i: int)
    requires
        0 <= i <= entries.len(),
    ensures
        match oversized(entries, i) {
            Some(entry) => entry.len > MAX_ENTRY_BYTES && exists|k: int|
                i <= k < entries.len() && #[trigger] entries[k] == entry,
            None => forall|k: int|
                i <= k < entries.len() ==> (#[trigger] entries[k]).len <= MAX_ENTRY_BYTES,
        },
    decreases entries.len() - i,
{
    if i < entries.len() {
        if entries[i].len > MAX_ENTRY_BYTES {
            assert(entries[i] == oversized(entries, i)->0);
        } else {
            lemma_oversized(entries, i + 1);
        }
    }
}

/// An archive breaks no bound exactly where it has no more pages than there may be,
/// no page claims more than one may, and together they claim no more than an archive
/// may.
pub proof fn law_an_archive_within_bounds_is_taken(path: Seq<u8>, entries: Seq<EntryValue>)
    ensures
        bounds_fault(path, entries) is None <==> {
            &&& entries.len() <= MAX_ENTRIES
            &&& forall|k: int|
                0 <= k < entries.len() ==> (#[trigger] entries[k]).len <= MAX_ENTRY_BYTES
            &&& entries.map_values(|entry: EntryValue| entry.len as int).fold_left(
                0,
                |sum: int, len: int| sum + len,
            ) <= MAX_TOTAL_BYTES
        },
{
    lemma_oversized(entries, 0);
    lemma_claimed(entries, entries.len() as int);
    assert(entries.take(entries.len() as int) =~= entries);
    if oversized(entries, 0) is Some {
        let k = choose|k: int|
            0 <= k < entries.len() && #[trigger] entries[k] == oversized(entries, 0)->0;
        assert(entries[k].len > MAX_ENTRY_BYTES);
    }
}

proof fn lemma_claimed(entries: Seq<EntryValue>, n: int)
    requires
        0 <= n <= entries.len(),
    ensures
        claimed(entries, n) == entries.take(n).map_values(
            |entry: EntryValue| entry.len as int,
        ).fold_left(0, |sum: int, len: int| sum + len),
    decreases n,
{
    let lengths = entries.take(n).map_values(|entry: EntryValue| entry.len as int);
    reveal_with_fuel(Seq::fold_left, 2);
    if n > 0 {
        lemma_claimed(entries, n - 1);
        assert(lengths.drop_last() =~= entries.take(n - 1).map_values(
            |entry: EntryValue| entry.len as int,
        ));
    }
}

} // verus!
