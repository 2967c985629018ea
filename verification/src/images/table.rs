//! The pages of an image document: which files they are, in what order, and a
//! digest that tells whether a folder has moved since.

use crate::bytes::{copy_bytes, utf8};
use crate::images::archive::{
    archive_kind, bounds_fault, list_archive, pages_listed, ArchiveKind, ListedEntry,
    ARCHIVE_EXTENSIONS,
};
use crate::images::listing::{
    distinct_names, entry_list, law_listing_order_does_not_matter, law_sorting_keeps_the_entries,
    law_sorted_entries_are_in_order, law_sorting_again_changes_nothing, sort, sorted, EntryValue,
    ImageEntry,
};
use crate::images::names::{
    beneath, equal_letters, extension_of_path, file_name, find_name, join,
    law_a_name_stands_in_its_directory, lemma_file_name, lemma_position, name_of, name_values,
    parent, parent_of, path_extension, plain_name, position, same_letters, trimmed_end,
};
use crate::text::{
    decimal_text, lossy_utf8, owned, push_decimal, push_str, text_from_utf8_lossy,
};
use vstd::bytes::{
    lemma_auto_spec_u64_to_from_le_bytes, spec_u64_to_le_bytes, u64_to_le_bytes,
};
use vstd::prelude::*;

verus! {

/// Every extension that an image document may be built from.
pub const IMAGE_EXTENSIONS: [&'static str; 15] = [
    "png",
    "jpg",
    "jpeg",
    "gif",
    "bmp",
    "webp",
    "tif",
    "tiff",
    "qoi",
    "tga",
    "ico",
    "pnm",
    "pgm",
    "ppm",
    "pbm",
];

/// How many page sizes are carried for one document, and so how many pictures
/// one may hold.
pub const MAX_TRACKED_PAGE_SIZES: usize = 4_096;

/// Is this an extension that an image document may be built from, in whatever
/// case?
pub open spec fn known_extension(extension: Seq<u8>) -> bool {
    exists|i: int|
        0 <= i < 15 && same_letters(extension, utf8((#[trigger] IMAGE_EXTENSIONS@[i])@))
}

/// Does the name at the end of a path carry such an extension?
pub open spec fn supported(path: Seq<u8>) -> bool {
    match path_extension(path) {
        Some(extension) => known_extension(extension),
        None => false,
    }
}

/// Is this the name of a file that an image document can carry? The extension
/// alone decides, never the contents.
pub fn is_supported_image(path: &[u8]) -> (yes: bool)
    ensures
        yes == supported(path@),
{
    let extension = match extension_of_path(path) {
        Some(extension) => extension,
        None => {
            return false;
        },
    };
    let known = IMAGE_EXTENSIONS;
    let mut i: usize = 0;
    while i < 15
        invariant
            i <= 15,
            known == IMAGE_EXTENSIONS,
            path_extension(path@) == Some(extension@),
            forall|j: int|
                0 <= j < i ==> !same_letters(
                    extension@,
                    utf8((#[trigger] IMAGE_EXTENSIONS@[j])@),
                ),
        decreases 15 - i,
    {
        let candidate = known[i];
        if equal_letters(extension.as_slice(), candidate.as_bytes()) {
            assert(same_letters(extension@, utf8(IMAGE_EXTENSIONS@[i as int]@)));
            return true;
        }
        i += 1;
    }
    false
}

/// Why a folder or an archive could not become a document.
#[derive(Debug, Clone, PartialEq, Eq)]
pub enum ListError {
    Unreadable { path: String, reason: String },
    /// The whole is refused and the count named: to drop pages in silence, or to
    /// measure only some, would be worse.
    TooManyImages { path: String, count: usize },
    EntryTooLarge { path: String, entry: String, bytes: u64 },
    ArchiveTooLarge { path: String, bytes: u64 },
    /// A format that is refused by name, never as a damaged file.
    UnsupportedFormat(&'static str),
}

/// A listing error, as a value.
pub enum ListFault {
    Unreadable(Seq<char>, Seq<char>),
    TooManyImages(Seq<char>, nat),
    EntryTooLarge(Seq<char>, Seq<char>, u64),
    ArchiveTooLarge(Seq<char>, u64),
    UnsupportedFormat(Seq<char>),
}

impl View for ListError {
    type V = ListFault;

    open spec fn view(&self) -> ListFault {
        match self {
            ListError::Unreadable { path, reason } => ListFault::Unreadable(path@, reason@),
            ListError::TooManyImages { path, count } => ListFault::TooManyImages(
                path@,
                *count as nat,
            ),
            ListError::EntryTooLarge { path, entry, bytes } => ListFault::EntryTooLarge(
                path@,
                entry@,
                *bytes,
            ),
            ListError::ArchiveTooLarge { path, bytes } => ListFault::ArchiveTooLarge(
                path@,
                *bytes,
            ),
            ListError::UnsupportedFormat(text) => ListFault::UnsupportedFormat(text@),
        }
    }
}

/// How a listing error is worded.
pub open spec fn list_fault_text(fault: ListFault) -> Seq<char> {
    match fault {
        ListFault::Unreadable(path, reason) => "cannot list "@ + path + ": "@ + reason,
        ListFault::TooManyImages(path, count) => path + " holds "@ + decimal_text(count)
            + " images, more than the "@ + decimal_text(MAX_TRACKED_PAGE_SIZES as nat)
            + " a single document can track"@,
        ListFault::EntryTooLarge(path, entry, bytes) => path + " holds an entry, "@ + entry
            + ", that expands to "@ + decimal_text(bytes as nat) + " bytes"@,
        ListFault::ArchiveTooLarge(path, bytes) => path + " expands to "@ + decimal_text(
            bytes as nat,
        ) + " bytes, more than pulpit will unpack"@,
        ListFault::UnsupportedFormat(text) => text,
    }
}

impl ListError {
    /// The error in words.
    pub fn message(&self) -> (text: String)
        ensures
            text@ == list_fault_text(self@),
    {
        match self {
            ListError::Unreadable { path, reason } => {
                let mut text = owned("cannot list ");
                push_str(&mut text, path.as_str());
                push_str(&mut text, ": ");
                push_str(&mut text, reason.as_str());
                text
            },
            ListError::TooManyImages { path, count } => {
                let mut text = owned(path.as_str());
                push_str(&mut text, " holds ");
                push_decimal(&mut text, *count as u64);
                push_str(&mut text, " images, more than the ");
                push_decimal(&mut text, MAX_TRACKED_PAGE_SIZES as u64);
                push_str(&mut text, " a single document can track");
                text
            },
            ListError::EntryTooLarge { path, entry, bytes } => {
                let mut text = owned(path.as_str());
                push_str(&mut text, " holds an entry, ");
                push_str(&mut text, entry.as_str());
                push_str(&mut text, ", that expands to ");
                push_decimal(&mut text, *bytes);
                push_str(&mut text, " bytes");
                text
            },
            ListError::ArchiveTooLarge { path, bytes } => {
                let mut text = owned(path.as_str());
                push_str(&mut text, " expands to ");
                push_decimal(&mut text, *bytes);
                push_str(&mut text, " bytes, more than pulpit will unpack");
                text
            },
            ListError::UnsupportedFormat(text) => owned(text),
        }
    }
}

/// What the pages of an image document come out of.
#[derive(Debug, Clone, PartialEq, Eq)]
pub enum PageSource {
    /// A folder, listed without its subfolders.
    Directory(Vec<u8>),
    /// An archive, whose entries are the pages.
    Archive { path: Vec<u8>, kind: ArchiveKind },
}

/// What the pages come out of, as a value.
pub enum SourceValue {
    Directory(Seq<u8>),
    Archive(Seq<u8>, ArchiveKind),
}

impl View for PageSource {
    type V = SourceValue;

    open spec fn view(&self) -> SourceValue {
        match self {
            PageSource::Directory(path) => SourceValue::Directory(path@),
            PageSource::Archive { path, kind } => SourceValue::Archive(path@, *kind),
        }
    }
}

/// The path of a source.
pub open spec fn source_path(source: SourceValue) -> Seq<u8> {
    match source {
        SourceValue::Directory(path) => path,
        SourceValue::Archive(path, _) => path,
    }
}

impl PageSource {
    /// The path that is watched, opened and shown: that of the folder, or that
    /// of the archive.
    pub fn path(&self) -> (path: &[u8])
        ensures
            path@ == source_path(self@),
    {
        match self {
            PageSource::Directory(path) => path.as_slice(),
            PageSource::Archive { path, .. } => path.as_slice(),
        }
    }

    /// Is this an archive?
    pub fn is_archive(&self) -> (yes: bool)
        ensures
            yes == (self@ is Archive),
    {
        matches!(self, PageSource::Archive { .. })
    }

    /// A source equal to this one.
    pub fn copy(&self) -> (out: PageSource)
        ensures
            out@ == self@,
    {
        match self {
            PageSource::Directory(path) => PageSource::Directory(copy_bytes(path.as_slice())),
            PageSource::Archive { path, kind } => PageSource::Archive {
                path: copy_bytes(path.as_slice()),
                kind: *kind,
            },
        }
    }
}

/// Where the bytes of one page are.
#[derive(Debug, Clone, PartialEq, Eq)]
pub enum PageLocation {
    /// A file on disk.
    File(Vec<u8>),
    /// An entry inside an archive, which is never unpacked to disk.
    ArchiveEntry { archive: Vec<u8>, kind: ArchiveKind, name: Vec<u8> },
}

/// Where a page is, as a value.
pub enum Place {
    File(Seq<u8>),
    ArchiveEntry(Seq<u8>, ArchiveKind, Seq<u8>),
}

impl View for PageLocation {
    type V = Place;

    open spec fn view(&self) -> Place {
        match self {
            PageLocation::File(path) => Place::File(path@),
            PageLocation::ArchiveEntry { archive, kind, name } => Place::ArchiveEntry(
                archive@,
                *kind,
                name@,
            ),
        }
    }
}

/// Where a page of this name is.
pub open spec fn place_of(source: SourceValue, name: Seq<u8>) -> Place {
    match source {
        SourceValue::Directory(path) => Place::File(beneath(path, name)),
        SourceValue::Archive(path, kind) => Place::ArchiveEntry(path, kind, name),
    }
}

/// A hash once it has taken in one byte more.
pub open spec fn fed(hash: u64, byte: u8) -> u64 {
    (hash ^ byte as u64).wrapping_mul(0x0000_0100_0000_01b3)
}

/// A hash once it has taken in these bytes.
pub open spec fn fed_bytes(hash: u64, bytes: Seq<u8>) -> u64
    decreases bytes.len(),
{
    if bytes.len() == 0 {
        hash
    } else {
        fed(fed_bytes(hash, bytes.drop_last()), bytes.last())
    }
}

/// The time of a change as it goes into the digest: in nanoseconds, of which
/// the low 64 bits count, and zero before 1970 and where it is not known.
pub open spec fn stamp_of(modified: Option<i128>) -> u64 {
    match modified {
        Some(nanos) => if nanos >= 0 {
            (nanos % 0x1_0000_0000_0000_0000) as u64
        } else {
            0
        },
        None => 0,
    }
}

/// What an entry puts into the digest: its name, a zero byte, its length and
/// the time of its change.
pub open spec fn entry_bytes(entry: EntryValue) -> Seq<u8> {
    entry.name + seq![0u8] + spec_u64_to_le_bytes(entry.len) + spec_u64_to_le_bytes(
        stamp_of(entry.modified),
    )
}

/// The digest of the first `n` entries, in their order.
pub open spec fn digest_value(entries: Seq<EntryValue>, n: int) -> u64
    decreases n,
{
    if n <= 0 {
        0xcbf2_9ce4_8422_2325
    } else {
        fed_bytes(digest_value(entries, n - 1), entry_bytes(entries[n - 1]))
    }
}

proof fn lemma_fed_bytes(hash: u64, a: Seq<u8>, b: Seq<u8>)
    ensures
        fed_bytes(hash, a + b) == fed_bytes(fed_bytes(hash, a), b),
    decreases b.len(),
{
    if b.len() == 0 {
        assert(a + b =~= a);
    } else {
        lemma_fed_bytes(hash, a, b.drop_last());
        assert((a + b).drop_last() =~= a + b.drop_last());
    }
}

fn feed(hash: u64, bytes: &[u8]) -> (out: u64)
    ensures
        out == fed_bytes(hash, bytes@),
{
    let mut out: u64 = hash;
    let mut i: usize = 0;
    while i < bytes.len()
        invariant
            i <= bytes@.len(),
            out == fed_bytes(hash, bytes@.take(i as int)),
        decreases bytes@.len() - i,
    {
        out = (out ^ bytes[i] as u64).wrapping_mul(0x0000_0100_0000_01b3);
        assert(bytes@.take(i + 1).drop_last() =~= bytes@.take(i as int));
        i += 1;
    }
    assert(bytes@.take(i as int) =~= bytes@);
    out
}

fn stamp(modified: Option<i128>) -> (out: u64)
    ensures
        out == stamp_of(modified),
{
    match modified {
        Some(nanos) => {
            if nanos >= 0 {
                (nanos % 0x1_0000_0000_0000_0000) as u64
            } else {
                0
            }
        },
        None => 0,
    }
}

fn digest_of(entries: &[ImageEntry]) -> (digest: u64)
    ensures
        digest == digest_value(entry_list(entries@), entries@.len() as int),
{
    let mut hash: u64 = 0xcbf2_9ce4_8422_2325;
    let mut i: usize = 0;
    while i < entries.len()
        invariant
            i <= entries@.len(),
            hash == digest_value(entry_list(entries@), i as int),
        decreases entries@.len() - i,
    {
        let ghost before = hash;
        let ghost value = entries@[i as int]@;
        let name = entries[i].name.as_slice();
        let len: u64 = entries[i].len;
        let changed: u64 = stamp(entries[i].modified);
        let one: u64 = feed(hash, name);
        let two: u64 = feed(one, &[0u8]);
        let three: u64 = feed(two, u64_to_le_bytes(len).as_slice());
        hash = feed(three, u64_to_le_bytes(changed).as_slice());
        proof {
            assert([0u8]@ =~= seq![0u8]);
            lemma_fed_bytes(before, value.name, seq![0u8]);
            lemma_fed_bytes(before, value.name + seq![0u8], spec_u64_to_le_bytes(len));
            lemma_fed_bytes(
                before,
                value.name + seq![0u8] + spec_u64_to_le_bytes(len),
                spec_u64_to_le_bytes(changed),
            );
            assert(entry_list(entries@)[i as int] == value);
        }
        i += 1;
    }
    hash
}

/// The ordered pages of an image document.
#[derive(Debug, PartialEq, Eq)]
pub struct PageTable {
    source: PageSource,
    entries: Vec<ImageEntry>,
    digest: u64,
}

/// The ordered pages, as a value.
pub struct TableValue {
    pub source: SourceValue,
    pub entries: Seq<EntryValue>,
}

impl View for PageTable {
    type V = TableValue;

    closed spec fn view(&self) -> TableValue {
        TableValue { source: self.source@, entries: entry_list(self.entries@) }
    }
}

/// The names of entries.
pub open spec fn names_of(entries: Seq<EntryValue>) -> Seq<Seq<u8>> {
    entries.map_values(|entry: EntryValue| entry.name)
}

impl PageTable {
    #[verifier::type_invariant]
    spec fn digest_is_current(self) -> bool {
        self.digest == digest_value(entry_list(self.entries@), self.entries@.len() as int)
    }

    /// The table of a source with these entries, in whatever order they come.
    pub fn from_entries(source: PageSource, entries: Vec<ImageEntry>) -> (table: PageTable)
        ensures
            table@.source == source@,
            table@.entries == sorted(entry_list(entries@)),
    {
        let entries = sort(entries.as_slice());
        let digest: u64 = digest_of(entries.as_slice());
        PageTable { source, entries, digest }
    }

    /// The table of a folder.
    pub fn over_directory(directory: &[u8], entries: Vec<ImageEntry>) -> (table: PageTable)
        ensures
            table@.source == SourceValue::Directory(directory@),
            table@.entries == sorted(entry_list(entries@)),
    {
        PageTable::from_entries(PageSource::Directory(copy_bytes(directory)), entries)
    }

    /// What the pages come out of.
    pub fn source(&self) -> (source: &PageSource)
        ensures
            source@ == self@.source,
    {
        &self.source
    }

    /// The path of the document.
    pub fn path(&self) -> (path: &[u8])
        ensures
            path@ == source_path(self@.source),
    {
        self.source.path()
    }

    /// How many pages there are.
    pub fn len(&self) -> (count: usize)
        ensures
            count == self@.entries.len(),
    {
        self.entries.len()
    }

    /// Are there no pages?
    pub fn is_empty(&self) -> (empty: bool)
        ensures
            empty == (self@.entries.len() == 0),
    {
        self.entries.len() == 0
    }

    /// The pages.
    pub fn entries(&self) -> (entries: &[ImageEntry])
        ensures
            entry_list(entries@) == self@.entries,
    {
        self.entries.as_slice()
    }

    /// The name of a page, which is its identity when the document is loaded
    /// again.
    pub fn name(&self, page: usize) -> (name: Option<&[u8]>)
        ensures
            match name {
                Some(found) => page < self@.entries.len() && found@
                    == self@.entries[page as int].name,
                None => page >= self@.entries.len(),
            },
    {
        if page < self.entries.len() {
            proof {
                assert(entry_list(self.entries@)[page as int] == self.entries@[page as int]@);
            }
            Some(self.entries[page].name.as_slice())
        } else {
            None
        }
    }

    /// Where the bytes of a page are.
    pub fn locate(&self, page: usize) -> (location: Option<PageLocation>)
        ensures
            match location {
                Some(found) => page < self@.entries.len() && found@ == place_of(
                    self@.source,
                    self@.entries[page as int].name,
                ),
                None => page >= self@.entries.len(),
            },
    {
        let name = match self.name(page) {
            Some(name) => name,
            None => {
                return None;
            },
        };
        Some(
            match &self.source {
                PageSource::Directory(directory) => PageLocation::File(
                    join(directory.as_slice(), name),
                ),
                PageSource::Archive { path, kind } => PageLocation::ArchiveEntry {
                    archive: copy_bytes(path.as_slice()),
                    kind: *kind,
                    name: copy_bytes(name),
                },
            },
        )
    }

    /// The page that has this name.
    pub fn index_of(&self, name: &[u8]) -> (index: Option<usize>)
        ensures
            match index {
                Some(found) => position(names_of(self@.entries), name@) == Some(found as int),
                None => position(names_of(self@.entries), name@) is None,
            },
    {
        let names = self.names();
        find_name(names.as_slice(), name)
    }

    /// The digest of the ordered pages.
    pub fn digest(&self) -> (digest: u64)
        ensures
            digest == digest_value(self@.entries, self@.entries.len() as int),
    {
        proof {
            use_type_invariant(self);
        }
        self.digest
    }

    /// The digest that two listings are compared by. An archive has none: it is
    /// one file, written whole or not at all.
    pub fn source_digest(&self) -> (digest: Option<u64>)
        ensures
            digest == (match self@.source {
                SourceValue::Directory(_) => Some(
                    digest_value(self@.entries, self@.entries.len() as int),
                ),
                SourceValue::Archive(_, _) => None,
            }),
    {
        match self.source {
            PageSource::Directory(_) => Some(self.digest()),
            PageSource::Archive { .. } => None,
        }
    }

    /// Where a page of an older table stands in this one, by its name.
    pub fn reindex_from(&self, previous: &PageTable, at: usize) -> (index: usize)
        ensures
            index == reindexed(names_of(previous@.entries), names_of(self@.entries), at as int),
    {
        let before = previous.names();
        let now = self.names();
        reindex(before.as_slice(), now.as_slice(), at)
    }

    fn names(&self) -> (names: Vec<Vec<u8>>)
        ensures
            name_values(names@) == names_of(self@.entries),
    {
        let mut names: Vec<Vec<u8>> = Vec::new();
        let mut i: usize = 0;
        while i < self.entries.len()
            invariant
                i <= self.entries@.len(),
                names@.len() == i,
                forall|j: int| 0 <= j < i ==> (#[trigger] names@[j])@ == self.entries@[j].name@,
            decreases self.entries@.len() - i,
        {
            names.push(copy_bytes(self.entries[i].name.as_slice()));
            i += 1;
        }
        assert(name_values(names@) =~= names_of(self@.entries));
        names
    }
}

/// The nearest page, going outwards from `at` by `distance` and on, that is
/// still there: forwards first, because taking away the page on screen should
/// lead to the next.
pub open spec fn nearest(
    previous: Seq<Seq<u8>>,
    current: Seq<Seq<u8>>,
    at: int,
    distance: int,
) -> Option<int>
    decreases previous.len() + 1 - distance,
{
    if distance > previous.len() {
        None
    } else if at + distance < previous.len() && position(current, previous[at + distance]) is Some {
        position(current, previous[at + distance])
    } else if at - distance >= 0 && position(current, previous[at - distance]) is Some {
        position(current, previous[at - distance])
    } else {
        nearest(previous, current, at, distance + 1)
    }
}

/// The same page index, as far as there are pages.
pub open spec fn clamped(current: Seq<Seq<u8>>, at: int) -> int {
    if at < current.len() {
        at
    } else {
        current.len() - 1
    }
}

/// Where the page at `at` of an older list stands in the new one: where its
/// name does, else where the nearest that is still there does, else clamped.
pub open spec fn reindexed(previous: Seq<Seq<u8>>, current: Seq<Seq<u8>>, at: int) -> int {
    if current.len() == 0 {
        0
    } else if at >= previous.len() {
        clamped(current, at)
    } else {
        match position(current, previous[at]) {
            Some(index) => index,
            None => match nearest(previous, current, at, 1) {
                Some(index) => index,
                None => clamped(current, at),
            },
        }
    }
}

/// Carries a page over to a new list of names.
pub fn reindex(previous: &[Vec<u8>], current: &[Vec<u8>], at: usize) -> (index: usize)
    ensures
        index == reindexed(name_values(previous@), name_values(current@), at as int),
{
    let ghost old_names = name_values(previous@);
    let ghost new_names = name_values(current@);
    let count: usize = current.len();
    let before: usize = previous.len();
    if count == 0 {
        return 0;
    }
    let clamp: usize = if at < count {
        at
    } else {
        count - 1
    };
    if at >= before {
        return clamp;
    }
    assert(old_names[at as int] == previous@[at as int]@);
    if let Some(index) = find_name(current, previous[at].as_slice()) {
        return index;
    }
    let mut distance: usize = 1;
    while distance < before
        invariant
            1 <= distance <= before,
            at < before,
            before == previous@.len(),
            old_names == name_values(previous@),
            new_names == name_values(current@),
            nearest(old_names, new_names, at as int, distance as int) == nearest(
                old_names,
                new_names,
                at as int,
                1,
            ),
            position(new_names, old_names[at as int]) is None,
            count == current@.len(),
            count > 0,
        decreases before - distance,
    {
        if distance < before - at {
            let after: usize = at + distance;
            assert(old_names[after as int] == previous@[after as int]@);
            if let Some(index) = find_name(current, previous[after].as_slice()) {
                return index;
            }
        }
        if distance <= at {
            let earlier: usize = at - distance;
            assert(old_names[earlier as int] == previous@[earlier as int]@);
            if let Some(index) = find_name(current, previous[earlier].as_slice()) {
                return index;
            }
        }
        distance += 1;
    }
    assert(nearest(old_names, new_names, at as int, before + 1) is None);
    clamp
}

proof fn lemma_nearest(previous: Seq<Seq<u8>>, current: Seq<Seq<u8>>, at: int, distance: int)
    requires
        0 <= at < previous.len(),
        1 <= distance,
    ensures
        match nearest(previous, current, at, distance) {
            Some(index) => 0 <= index < current.len() && previous.contains(current[index]),
            None => forall|i: int|
                0 <= i < previous.len() && (i >= at + distance || i <= at - distance)
                    ==> !current.contains(#[trigger] previous[i]),
        },
    decreases previous.len() + 1 - distance,
{
    if distance <= previous.len() {
        if at + distance < previous.len() {
            lemma_position(current, previous[at + distance], 0);
        }
        if at - distance >= 0 {
            lemma_position(current, previous[at - distance], 0);
        }
        lemma_nearest(previous, current, at, distance + 1);
        if nearest(previous, current, at, distance) is None {
            assert forall|i: int|
                0 <= i < previous.len() && (i >= at + distance || i <= at
                    - distance) implies !current.contains(#[trigger] previous[i]) by {
                if i != at + distance && i != at - distance {
                    assert(i >= at + (distance + 1) || i <= at - (distance + 1));
                }
            }
        }
    }
}

/// A page that is carried over is one that there is. Where its name is still
/// there it keeps its name; where not, but any page of the old list is, it
/// becomes one of the old list.
pub proof fn law_a_page_keeps_its_name(previous: Seq<Seq<u8>>, current: Seq<Seq<u8>>, at: int)
    requires
        0 <= at,
        current.len() > 0,
    ensures
        0 <= reindexed(previous, current, at) < current.len(),
        at < previous.len() && current.contains(previous[at]) ==> current[reindexed(
            previous,
            current,
            at,
        )] == previous[at],
        at < previous.len() && (exists|i: int|
            0 <= i < previous.len() && current.contains(#[trigger] previous[i]))
            ==> previous.contains(current[reindexed(previous, current, at)]),
{
    if at < previous.len() {
        lemma_position(current, previous[at], 0);
        lemma_nearest(previous, current, at, 1);
        assert(previous.contains(previous[at]));
    }
}

/// What a folder lists: a name, and what the file system says of it, where it
/// says anything.
#[derive(Debug, Clone, PartialEq, Eq)]
pub struct ListedFile {
    pub name: Vec<u8>,
    pub facts: Option<FileFacts>,
}

/// What the file system says of a file.
#[derive(Debug, Clone, Copy, PartialEq, Eq, Structural)]
pub struct FileFacts {
    pub is_dir: bool,
    pub len: u64,
    /// When the file was last changed, in nanoseconds since the start of 1970.
    pub modified: Option<i128>,
}

/// Does a folder list a page here? A folder with the name of a picture is none;
/// a file of which nothing can be learned now is one all the same.
pub open spec fn lists_picture(file: ListedFile) -> bool {
    supported(file.name@) && match file.facts {
        Some(facts) => !facts.is_dir,
        None => true,
    }
}

/// The page that a file is.
pub open spec fn picture_of(file: ListedFile) -> EntryValue {
    match file.facts {
        Some(facts) => EntryValue {
            name: file.name@,
            len: facts.len,
            modified: facts.modified,
        },
        None => EntryValue { name: file.name@, len: 0, modified: None },
    }
}

/// The pages among the first `n` files of a folder.
pub open spec fn pictures(files: Seq<ListedFile>, n: int) -> Seq<EntryValue>
    decreases n,
{
    if n <= 0 {
        Seq::empty()
    } else if lists_picture(files[n - 1]) {
        pictures(files, n - 1).push(picture_of(files[n - 1]))
    } else {
        pictures(files, n - 1)
    }
}

/// The pages of a folder, as they are listed.
pub fn folder_pages(files: &[ListedFile]) -> (pages: Vec<ImageEntry>)
    ensures
        entry_list(pages@) == pictures(files@, files@.len() as int),
{
    let mut pages: Vec<ImageEntry> = Vec::new();
    let mut i: usize = 0;
    assert(entry_list(pages@) =~= Seq::empty());
    while i < files.len()
        invariant
            i <= files@.len(),
            entry_list(pages@) == pictures(files@, i as int),
        decreases files@.len() - i,
    {
        let ghost before = entry_list(pages@);
        let name = files[i].name.as_slice();
        if is_supported_image(name) {
            match files[i].facts {
                Some(facts) => {
                    if !facts.is_dir {
                        pages.push(
                            ImageEntry {
                                name: copy_bytes(name),
                                len: facts.len,
                                modified: facts.modified,
                            },
                        );
                        assert(entry_list(pages@) =~= before.push(pages@.last()@));
                    }
                },
                None => {
                    pages.push(ImageEntry { name: copy_bytes(name), len: 0, modified: None });
                    assert(entry_list(pages@) =~= before.push(pages@.last()@));
                },
            }
        }
        i += 1;
    }
    pages
}

/// What listing a source gave.
#[derive(Debug, Clone, PartialEq, Eq)]
pub enum Listing {
    /// The files of a folder.
    Files(Vec<ListedFile>),
    /// The entries of an archive.
    Entries(Vec<ListedEntry>),
    /// Nothing, for this reason.
    Failed(String),
}

/// The pages that a listing gives, or why it gives none.
pub open spec fn listed_pages(path: Seq<u8>, listing: Listing) -> Result<
    Seq<EntryValue>,
    ListFault,
> {
    match listing {
        Listing::Failed(reason) => Err(ListFault::Unreadable(lossy_utf8(path), reason@)),
        Listing::Files(files) => {
            let pages = pictures(files@, files@.len() as int);
            if pages.len() > MAX_TRACKED_PAGE_SIZES {
                Err(ListFault::TooManyImages(lossy_utf8(path), pages.len()))
            } else {
                Ok(pages)
            }
        },
        Listing::Entries(entries) => {
            let pages = pages_listed(entries@, entries@.len() as int);
            match bounds_fault(path, pages) {
                Some(fault) => Err(fault),
                None => Ok(pages),
            }
        },
    }
}

/// The table of a source, from what listing it gave.
pub fn list_source(source: PageSource, listing: Listing) -> (table: Result<PageTable, ListError>)
    ensures
        match table {
            Ok(found) => match listed_pages(source_path(source@), listing) {
                Ok(pages) => found@.source == source@ && found@.entries == sorted(pages),
                Err(_) => false,
            },
            Err(error) => listed_pages(source_path(source@), listing) == Err::<
                Seq<EntryValue>,
                ListFault,
            >(error@),
        },
{
    match listing {
        Listing::Failed(reason) => Err(
            ListError::Unreadable { path: text_from_utf8_lossy(source.path()), reason },
        ),
        Listing::Files(files) => {
            let pages = folder_pages(files.as_slice());
            let count: usize = pages.len();
            if count > MAX_TRACKED_PAGE_SIZES {
                return Err(
                    ListError::TooManyImages { path: text_from_utf8_lossy(source.path()), count },
                );
            }
            Ok(PageTable::from_entries(source, pages))
        },
        Listing::Entries(entries) => match list_archive(source.path(), entries.as_slice()) {
            Ok(pages) => {
                proof {
                    let found = pages_listed(entries@, entries@.len() as int);
                    law_sorted_entries_are_in_order(found);
                    law_sorting_again_changes_nothing(sorted(found));
                }
                Ok(PageTable::from_entries(source, pages))
            },
            Err(error) => Err(error),
        },
    }
}

/// The table of a folder, from the files that it lists.
pub fn list_directory(directory: &[u8], files: Result<Vec<ListedFile>, String>) -> (table: Result<
    PageTable,
    ListError,
>)
    ensures
        match table {
            Ok(found) => match files {
                Ok(listed) => found@.source == SourceValue::Directory(directory@)
                    && found@.entries == sorted(pictures(listed@, listed@.len() as int))
                    && found@.entries.len() <= MAX_TRACKED_PAGE_SIZES,
                Err(_) => false,
            },
            Err(error) => match files {
                Ok(listed) => error@ == ListFault::TooManyImages(
                    lossy_utf8(directory@),
                    pictures(listed@, listed@.len() as int).len(),
                ) && pictures(listed@, listed@.len() as int).len() > MAX_TRACKED_PAGE_SIZES,
                Err(reason) => error@ == ListFault::Unreadable(lossy_utf8(directory@), reason@),
            },
        },
{
    let source = PageSource::Directory(copy_bytes(directory));
    match files {
        Ok(listed) => {
            proof {
                law_sorting_keeps_the_entries(pictures(listed@, listed@.len() as int));
            }
            list_source(source, Listing::Files(listed))
        },
        Err(reason) => list_source(source, Listing::Failed(reason)),
    }
}

/// How many pages a folder with these files has and what their digest is.
pub open spec fn folder_stamp(files: Seq<ListedFile>) -> (nat, u64) {
    let pages = pictures(files, files.len() as int);
    (pages.len(), digest_value(sorted(pages), pages.len() as int))
}

/// The stamp of a folder is that of its listing: where the folder is listed, it
/// counts and digests the pages that are, and where it is refused for their
/// number, it counts what the refusal counts.
pub proof fn law_the_stamp_is_that_of_the_listing(path: Seq<u8>, files: Vec<ListedFile>)
    ensures
        match listed_pages(path, Listing::Files(files)) {
            Ok(pages) => folder_stamp(files@) == (
                sorted(pages).len(),
                digest_value(sorted(pages), sorted(pages).len() as int),
            ),
            Err(fault) => fault == ListFault::TooManyImages(lossy_utf8(path), folder_stamp(files@).0)
                && folder_stamp(files@).0 > MAX_TRACKED_PAGE_SIZES,
        },
{
    law_sorting_keeps_the_entries(pictures(files@, files@.len() as int));
}

/// How many pages a folder has and what their digest is, however many they are.
/// A folder that cannot be listed has no stamp.
pub fn directory_stamp(files: &Result<Vec<ListedFile>, String>) -> (stamp: Option<(usize, u64)>)
    ensures
        match files {
            Ok(listed) => stamp matches Some(found) && found.0 == folder_stamp(listed@).0 && found.1
                == folder_stamp(listed@).1,
            Err(_) => stamp is None,
        },
{
    let files = match files {
        Ok(listed) => listed.as_slice(),
        Err(_) => return None,
    };
    let pages = folder_pages(files);
    let ordered = sort(pages.as_slice());
    proof {
        law_sorting_keeps_the_entries(pictures(files@, files@.len() as int));
        assert(entry_list(ordered@).len() == ordered@.len());
        assert(entry_list(pages@).len() == pages@.len());
    }
    Some((pages.len(), digest_of(ordered.as_slice())))
}

/// What opening a path means for an image document.
#[derive(Debug, Clone, PartialEq, Eq)]
pub struct ResolvedSource {
    /// What the pages come out of.
    pub source: PageSource,
    /// The file that was picked, where it was a file and not a folder.
    pub picked: Option<Vec<u8>>,
}

/// What opening a path means: what the pages come out of, and the file that was
/// picked, where it was one.
pub open spec fn resolution(path: Seq<u8>, is_dir: bool) -> Option<(SourceValue, Option<Seq<u8>>)> {
    if is_dir {
        Some((SourceValue::Directory(path), None))
    } else {
        match archive_kind(path) {
            Some(kind) => Some((SourceValue::Archive(path, kind), None)),
            None => if supported(path) {
                let folder = parent(path);
                Some(
                    (
                        SourceValue::Directory(
                            if folder.len() == 0 {
                                seq![46u8]
                            } else {
                                folder
                            },
                        ),
                        file_name(path),
                    ),
                )
            } else {
                None
            },
        }
    }
}

impl ResolvedSource {
    /// Is the document more than what was asked for?
    pub fn was_widened(&self) -> (widened: bool)
        ensures
            widened == (self.picked is Some),
    {
        self.picked.is_some()
    }

    /// The path of the folder or of the archive.
    pub fn path(&self) -> (path: &[u8])
        ensures
            path@ == source_path(self.source@),
    {
        self.source.path()
    }
}

/// Does this path open as an image document, and out of what?
///
/// A folder is the document, and so is an archive. A picture leads to the
/// folder that it is in, with that picture as the first page shown.
pub fn resolve_source(path: &[u8], is_dir: bool) -> (resolved: Option<ResolvedSource>)
    ensures
        match resolved {
            Some(found) => match resolution(path@, is_dir) {
                Some((source, picked)) => found.source@ == source && (match found.picked {
                    Some(name) => picked == Some(name@),
                    None => picked is None,
                }),
                None => false,
            },
            None => resolution(path@, is_dir) is None,
        },
{
    if is_dir {
        return Some(
            ResolvedSource { source: PageSource::Directory(copy_bytes(path)), picked: None },
        );
    }
    if let Some(kind) = ArchiveKind::of(path) {
        return Some(
            ResolvedSource {
                source: PageSource::Archive { path: copy_bytes(path), kind },
                picked: None,
            },
        );
    }
    if !is_supported_image(path) {
        return None;
    }
    let folder = parent_of(path);
    let mut directory: Vec<u8> = Vec::new();
    if folder.len() == 0 {
        directory.push(46);
        assert(directory@ =~= seq![46u8]);
    } else {
        directory = folder;
    }
    Some(ResolvedSource { source: PageSource::Directory(directory), picked: name_of(path) })
}

/// Every extension that opens as an image document: that of a picture, and that
/// of an archive.
pub fn openable_extensions() -> (extensions: Vec<&'static str>)
    ensures
        extensions@ == IMAGE_EXTENSIONS@ + ARCHIVE_EXTENSIONS@,
{
    let mut extensions: Vec<&'static str> = Vec::new();
    let mut i: usize = 0;
    while i < 15
        invariant
            i <= 15,
            extensions@ == IMAGE_EXTENSIONS@.take(i as int),
        decreases 15 - i,
    {
        extensions.push(IMAGE_EXTENSIONS[i]);
        assert(extensions@ =~= IMAGE_EXTENSIONS@.take(i + 1));
        i += 1;
    }
    extensions.push(ARCHIVE_EXTENSIONS[0]);
    extensions.push(ARCHIVE_EXTENSIONS[1]);
    assert(extensions@ =~= IMAGE_EXTENSIONS@ + ARCHIVE_EXTENSIONS@);
    extensions
}

/// Two listings of one folder give the same pages and the same digest, in
/// whatever order they name its files.
pub proof fn law_listings_agree(one: Seq<EntryValue>, two: Seq<EntryValue>)
    requires
        one.to_multiset() == two.to_multiset(),
        distinct_names(one),
    ensures
        sorted(one) == sorted(two),
        digest_value(sorted(one), one.len() as int) == digest_value(sorted(two), two.len() as int),
{
    law_listing_order_does_not_matter(one, two);
    law_sorting_keeps_the_entries(one);
    law_sorting_keeps_the_entries(two);
}

/// A picture opens the folder that it is in, and is one of the pages there.
pub proof fn law_a_picture_opens_its_folder(path: Seq<u8>)
    requires
        supported(path),
        archive_kind(path) is None,
    ensures
        resolution(path, false) is Some,
        resolution(path, false).unwrap().0 is Directory,
        match resolution(path, false).unwrap().1 {
            Some(name) => supported(name),
            None => false,
        },
{
    lemma_file_name(path);
}

proof fn lemma_nearest_place(
    previous: Seq<Seq<u8>>,
    current: Seq<Seq<u8>>,
    at: int,
    distance: int,
) -> (i: int)
    requires
        0 <= at < previous.len(),
        1 <= distance,
        nearest(previous, current, at, distance) is Some,
    ensures
        0 <= i < previous.len(),
        i >= at + distance || i <= at - distance,
        current[nearest(previous, current, at, distance)->0] == previous[i],
        0 <= nearest(previous, current, at, distance)->0 < current.len(),
        forall|k: int|
            0 <= k < previous.len() && (at + distance <= k || k <= at - distance) && ((k - at < i
                - at && k - at > at - i) || (k - at < at - i && k - at > i - at) || (i < at && k
                - at == at - i)) ==> !current.contains(#[trigger] previous[k]),
    decreases previous.len() + 1 - distance,
{
    if at + distance < previous.len() {
        lemma_position(current, previous[at + distance], 0);
    }
    if at - distance >= 0 {
        lemma_position(current, previous[at - distance], 0);
    }
    if at + distance < previous.len() && position(current, previous[at + distance]) is Some {
        at + distance
    } else if at - distance >= 0 && position(current, previous[at - distance]) is Some {
        at - distance
    } else {
        let i = lemma_nearest_place(previous, current, at, distance + 1);
        assert forall|k: int|
            0 <= k < previous.len() && (at + distance <= k || k <= at - distance) && ((k - at < i
                - at && k - at > at - i) || (k - at < at - i && k - at > i - at) || (i < at && k
                - at == at - i)) implies !current.contains(#[trigger] previous[k]) by {
            if k != at + distance && k != at - distance {
                assert(at + (distance + 1) <= k || k <= at - (distance + 1));
            }
        }
        i
    }
}

/// Where a page is gone, the nearest page of the old list that is still there takes
/// its place, and of two that are equally near the later one.
pub proof fn law_the_nearest_page_takes_the_place(
    previous: Seq<Seq<u8>>,
    current: Seq<Seq<u8>>,
    at: int,
    other: int,
)
    requires
        0 <= at < previous.len(),
        0 <= other < previous.len(),
        !current.contains(previous[at]),
        current.contains(previous[other]),
    ensures
        exists|i: int|
            {
                &&& 0 <= i < previous.len()
                &&& current[reindexed(previous, current, at)] == #[trigger] previous[i]
                &&& -(if other >= at {
                    other - at
                } else {
                    at - other
                }) <= i - at <= (if other >= at {
                    other - at
                } else {
                    at - other
                })
                &&& i - at == at - other ==> i >= other
            },
{
    lemma_position(current, previous[at], 0);
    lemma_nearest(previous, current, at, 1);
    let m = choose|m: int| 0 <= m < current.len() && current[m] == previous[other];
    assert(current.len() > 0);
    assert(other != at);
    assert(nearest(previous, current, at, 1) is Some);
    let i = lemma_nearest_place(previous, current, at, 1);
    assert(current[reindexed(previous, current, at)] == previous[i]);
    assert(current.contains(previous[other]));
}

/// The pages of a folder are those of its files that are pictures by their names and
/// are no folders themselves, in the order of the folder, each with what is known of
/// it.
pub proof fn law_pages_are_the_pictures_of_a_folder(files: Seq<ListedFile>, n: int)
    requires
        0 <= n <= files.len(),
    ensures
        pictures(files, n) == files.take(n).filter(
            |file: ListedFile|
                supported(file.name@) && !(file.facts is Some && file.facts->0.is_dir),
        ).map_values(
            |file: ListedFile|
                EntryValue {
                    name: file.name@,
                    len: if file.facts is Some {
                        file.facts->0.len
                    } else {
                        0
                    },
                    modified: if file.facts is Some {
                        file.facts->0.modified
                    } else {
                        None
                    },
                },
        ),
    decreases n,
{
    let keep = |file: ListedFile|
        supported(file.name@) && !(file.facts is Some && file.facts->0.is_dir);
    let give = |file: ListedFile|
        EntryValue {
            name: file.name@,
            len: if file.facts is Some {
                file.facts->0.len
            } else {
                0
            },
            modified: if file.facts is Some {
                file.facts->0.modified
            } else {
                None
            },
        };
    reveal(Seq::filter);
    let some = files.take(n);
    if n > 0 {
        law_pages_are_the_pictures_of_a_folder(files, n - 1);
        assert(some.drop_last() =~= files.take(n - 1));
        assert(some.last() == files[n - 1]);
        assert(picture_of(files[n - 1]) == give(files[n - 1]));
        let before = some.drop_last().filter(keep);
        assert(some.filter(keep).map_values(give) =~= if keep(files[n - 1]) {
            before.map_values(give).push(give(files[n - 1]))
        } else {
            before.map_values(give)
        });
    } else {
        assert(some =~= Seq::empty());
        assert(some.filter(keep).map_values(give) =~= Seq::empty());
    }
}

/// Bytes that are taken in one after the other are taken in together.
pub proof fn law_bytes_are_taken_in_order(hash: u64, one: Seq<u8>, two: Seq<u8>)
    ensures
        fed_bytes(hash, one + two) == fed_bytes(fed_bytes(hash, one), two),
    decreases two.len(),
{
    if two.len() == 0 {
        assert(one + two =~= one);
    } else {
        assert((one + two).drop_last() =~= one + two.drop_last());
        assert((one + two).last() == two.last());
        law_bytes_are_taken_in_order(hash, one, two.drop_last());
    }
}

/// Two entries put the same bytes into the digest only where they have the same
/// name, the same length and the same time of change, up to what of it counts.
/// No name has a zero byte in it.
pub proof fn law_entries_are_told_apart(one: EntryValue, two: EntryValue)
    requires
        !one.name.contains(0),
        !two.name.contains(0),
        entry_bytes(one) == entry_bytes(two),
    ensures
        one.name == two.name,
        one.len == two.len,
        stamp_of(one.modified) == stamp_of(two.modified),
{
    lemma_auto_spec_u64_to_from_le_bytes();
    let a = entry_bytes(one);
    let b = entry_bytes(two);
    let n = one.name.len() as int;
    let m = two.name.len() as int;
    assert(a[n] == 0);
    assert(b[m] == 0);
    if n < m {
        assert(b[n] == two.name[n]);
        assert(two.name.contains(two.name[n]));
    } else if m < n {
        assert(a[m] == one.name[m]);
        assert(one.name.contains(one.name[m]));
    }
    assert(one.name =~= a.take(n));
    assert(two.name =~= b.take(m));
    assert(a.subrange(n + 1, n + 9) =~= spec_u64_to_le_bytes(one.len));
    assert(b.subrange(n + 1, n + 9) =~= spec_u64_to_le_bytes(two.len));
    assert(a.subrange(n + 9, n + 17) =~= spec_u64_to_le_bytes(stamp_of(one.modified)));
    assert(b.subrange(n + 9, n + 17) =~= spec_u64_to_le_bytes(stamp_of(two.modified)));
}

/// A picture of a folder opens that folder, at the picture, and there the page
/// is the picture that was opened.
pub proof fn law_a_picture_is_a_page_of_its_folder(directory: Seq<u8>, name: Seq<u8>)
    requires
        plain_name(name),
        trimmed_end(directory) == directory,
        directory.len() > 0,
        supported(beneath(directory, name)),
        archive_kind(beneath(directory, name)) is None,
    ensures
        resolution(beneath(directory, name), false) == Some(
            (SourceValue::Directory(directory), Some(name)),
        ),
        place_of(SourceValue::Directory(directory), name) == Place::File(beneath(directory, name)),
{
    law_a_name_stands_in_its_directory(directory, name);
}

} // verus!
