//! Media that a document brings along: which links declare it, and how a bundle
//! of files is unpacked without leaving its directory or its limits.
//!
//! A document is untrusted input, and an archive attached to it is untrusted
//! twice over. Every limit is tested before the write that it bounds.

use crate::bytes::utf8;
use crate::pdf::paths::{
    canonical, contain, contained, copy_path, law_contained_paths_are_inside, law_names_lead_inside,
    named, parts, same_path, starts_with, within, Part, PathPart,
};
use crate::text::{
    among, chars_of, is_white_space, lemma_pieces, owned, padded_hexadecimal, padded_text, pieces,
    pieces_from, push_padded, push_padded_hexadecimal, push_str, split, views, white_space,
};
use crate::zip_reader::{
    archive_bytes, archive_fault, count_entries, entry_at, entry_count, entry_header, entry_prefix,
    open_archive, read_entry, EntryFacts, EntryHeader, MemoryArchive,
};
use vstd::prelude::*;

verus! {

/// The ceilings that an extraction keeps to.
///
/// The defaults are sized for real presentation bundles, with headroom enough
/// that none of those meets them.
#[derive(Debug, Clone, PartialEq, Eq, Structural)]
pub struct ExtractionLimits {
    pub max_compressed_bytes: u64,
    pub max_expanded_bytes: u64,
    pub max_files: usize,
    pub max_path_len: usize,
    pub max_depth: usize,
    /// How many times its stored size any single entry may expand to.
    pub max_ratio: u64,
    pub max_file_bytes: u64,
}

/// The limits that hold where none are given.
pub open spec fn default_limits() -> ExtractionLimits {
    ExtractionLimits {
        max_compressed_bytes: 67_108_864,
        max_expanded_bytes: 268_435_456,
        max_files: 2_000,
        max_path_len: 512,
        max_depth: 16,
        max_ratio: 100,
        max_file_bytes: 33_554_432,
    }
}

impl Default for ExtractionLimits {
    fn default() -> (limits: ExtractionLimits)
        ensures
            limits == default_limits(),
    {
        ExtractionLimits {
            max_compressed_bytes: 67_108_864,
            max_expanded_bytes: 268_435_456,
            max_files: 2_000,
            max_path_len: 512,
            max_depth: 16,
            max_ratio: 100,
            max_file_bytes: 33_554_432,
        }
    }
}

/// Why a bundle was not unpacked, or an asset not found.
#[derive(Debug, Clone, PartialEq, Eq)]
pub enum ExtractionError {
    Archive(String),
    Io(String),
    UnsafeEntry { entry: String, reason: &'static str },
    LimitExceeded(&'static str),
    Manifest(String),
    Escapes(String),
}

/// An extraction error, as a value.
pub enum Complaint {
    Archive(Seq<char>),
    Io(Seq<char>),
    UnsafeEntry(Seq<char>, Seq<char>),
    LimitExceeded(Seq<char>),
    Manifest(Seq<char>),
    Escapes(Seq<char>),
}

impl View for ExtractionError {
    type V = Complaint;

    open spec fn view(&self) -> Complaint {
        match self {
            ExtractionError::Archive(reason) => Complaint::Archive(reason@),
            ExtractionError::Io(reason) => Complaint::Io(reason@),
            ExtractionError::UnsafeEntry { entry, reason } => Complaint::UnsafeEntry(
                entry@,
                reason@,
            ),
            ExtractionError::LimitExceeded(what) => Complaint::LimitExceeded(what@),
            ExtractionError::Manifest(reason) => Complaint::Manifest(reason@),
            ExtractionError::Escapes(path) => Complaint::Escapes(path@),
        }
    }
}

/// How a complaint is worded.
pub open spec fn complaint_text(complaint: Complaint) -> Seq<char> {
    match complaint {
        Complaint::Archive(reason) => "the bundle is not a readable ZIP archive: "@ + reason,
        Complaint::Io(reason) => "staging failed: "@ + reason,
        Complaint::UnsafeEntry(entry, reason) => "the bundle entry `"@ + entry + "` is unsafe: "@
            + reason,
        Complaint::LimitExceeded(what) => "the bundle exceeds its "@ + what + " limit"@,
        Complaint::Manifest(reason) => reason,
        Complaint::Escapes(path) => "`"@ + path + "` resolves outside the document directory"@,
    }
}

impl ExtractionError {
    /// The error in words.
    pub fn message(&self) -> (text: String)
        ensures
            text@ == complaint_text(self@),
    {
        match self {
            ExtractionError::Archive(reason) => {
                let mut text = owned("the bundle is not a readable ZIP archive: ");
                push_str(&mut text, reason.as_str());
                text
            },
            ExtractionError::Io(reason) => {
                let mut text = owned("staging failed: ");
                push_str(&mut text, reason.as_str());
                text
            },
            ExtractionError::UnsafeEntry { entry, reason } => {
                let mut text = owned("the bundle entry `");
                push_str(&mut text, entry.as_str());
                push_str(&mut text, "` is unsafe: ");
                push_str(&mut text, reason);
                text
            },
            ExtractionError::LimitExceeded(what) => {
                let mut text = owned("the bundle exceeds its ");
                push_str(&mut text, what);
                push_str(&mut text, " limit");
                text
            },
            ExtractionError::Manifest(reason) => owned(reason.as_str()),
            ExtractionError::Escapes(path) => {
                let mut text = owned("`");
                push_str(&mut text, path.as_str());
                push_str(&mut text, "` resolves outside the document directory");
                text
            },
        }
    }
}

/// An ASCII letter as a capital; any other character as it is.
pub open spec fn ascii_upper(c: char) -> char {
    if 'a' <= c && c <= 'z' {
        ((c as int) - 32) as char
    } else {
        c
    }
}

/// A text with its ASCII letters as capitals.
pub open spec fn upper_case(text: Seq<char>) -> Seq<char> {
    text.map_values(|c: char| ascii_upper(c))
}

/// Is this a name that Windows resolves to a device, whatever the directory and
/// whatever the case of its letters?
pub open spec fn is_device(stem: Seq<char>) -> bool {
    let name = upper_case(stem);
    ||| name == seq!['C', 'O', 'N']
    ||| name == seq!['P', 'R', 'N']
    ||| name == seq!['A', 'U', 'X']
    ||| name == seq!['N', 'U', 'L']
    ||| (name.len() == 4 && (name.take(3) == seq!['C', 'O', 'M'] || name.take(3)
        == seq!['L', 'P', 'T']) && '1' <= name[3] && name[3] <= '9')
}

/// What stands before the first dot of a name.
pub open spec fn stem_of(name: Seq<char>) -> Seq<char> {
    pieces(name, seq!['.'])[0]
}

/// What is wrong with one component of an entry's name, if anything.
pub open spec fn component_fault(name: Seq<char>) -> Option<Seq<char>> {
    if name.len() == 0 {
        Some("the name has an empty component"@)
    } else if name == seq!['.'] || name == seq!['.', '.'] {
        Some("the name traverses"@)
    } else if is_white_space(name[0]) || is_white_space(name.last()) {
        Some("a component is padded with whitespace"@)
    } else if is_device(stem_of(name)) {
        Some("a component names a system device"@)
    } else {
        None
    }
}

/// What separates the components of an entry's name.
pub open spec fn slashes() -> Seq<char> {
    seq!['/', '\\']
}

/// The components of a name from the `i`-th on, after those that are `taken`:
/// the first that is at fault, or the first that lies too deep, decides.
pub open spec fn checked_components(
    name: Seq<char>,
    all: Seq<Seq<char>>,
    skip_empty: bool,
    i: int,
    taken: Seq<Seq<char>>,
    max_depth: nat,
) -> Result<Seq<Seq<char>>, Complaint>
    decreases all.len() - i,
{
    if i >= all.len() {
        if taken.len() == 0 {
            Err(Complaint::UnsafeEntry(name, "the name is empty"@))
        } else {
            Ok(taken)
        }
    } else if all[i].len() == 0 && skip_empty {
        checked_components(name, all, skip_empty, i + 1, taken, max_depth)
    } else {
        match component_fault(all[i]) {
            Some(reason) => Err(Complaint::UnsafeEntry(name, reason)),
            None => if taken.len() + 1 > max_depth {
                Err(Complaint::LimitExceeded("nesting depth"@))
            } else {
                checked_components(name, all, skip_empty, i + 1, taken.push(all[i]), max_depth)
            },
        }
    }
}

/// The components that an entry's name stands for, or why it may not be used.
///
/// An entry whose name ends in a separator is a directory, and the empty
/// component behind it is structure rather than a name.
pub open spec fn safe_components(name: Seq<char>, limits: ExtractionLimits) -> Result<
    Seq<Seq<char>>,
    Complaint,
> {
    if name.len() == 0 {
        Err(Complaint::UnsafeEntry(name, "the name is empty"@))
    } else if utf8(name).len() > limits.max_path_len {
        Err(Complaint::LimitExceeded("path length"@))
    } else if name.contains('\0') {
        Err(Complaint::UnsafeEntry(name, "the name contains a NUL"@))
    } else if slashes().contains(name[0]) {
        Err(Complaint::UnsafeEntry(name, "the name is rooted"@))
    } else if utf8(name).len() > 1 && utf8(name)[1] == 58 {
        Err(Complaint::UnsafeEntry(name, "the name carries a drive prefix"@))
    } else {
        checked_components(
            name,
            pieces(name, slashes()),
            slashes().contains(name.last()),
            0,
            Seq::empty(),
            limits.max_depth as nat,
        )
    }
}

fn upper_char(c: char) -> (upper: char)
    ensures
        upper == ascii_upper(c),
{
    if 'a' <= c && c <= 'z' {
        proof {
            crate::text::lemma_char_code(c);
        }
        let code: u32 = c as u32 - 32;
        match std::char::from_u32(code) {
            Some(upper) => {
                proof {
                    crate::text::lemma_char_code(upper);
                    assert(upper as int == (c as int) - 32);
                }
                upper
            },
            None => c,
        }
    } else {
        c
    }
}

fn device_name(stem: &str) -> (device: bool)
    ensures
        device == is_device(stem@),
{
    let chars = chars_of(stem);
    let mut name: Vec<char> = Vec::new();
    let mut i: usize = 0;
    while i < chars.len()
        invariant
            i <= chars@.len(),
            chars@ == stem@,
            name@ == upper_case(stem@).take(i as int),
        decreases chars@.len() - i,
    {
        name.push(upper_char(chars[i]));
        assert(name@ =~= upper_case(stem@).take(i + 1));
        i += 1;
    }
    assert(name@ =~= upper_case(stem@));
    if name.len() == 3 {
        let found = (name[0] == 'C' && name[1] == 'O' && name[2] == 'N') || (name[0] == 'P'
            && name[1] == 'R' && name[2] == 'N') || (name[0] == 'A' && name[1] == 'U' && name[2]
            == 'X') || (name[0] == 'N' && name[1] == 'U' && name[2] == 'L');
        proof {
            assert((name@ =~= seq!['C', 'O', 'N']) == (name@[0] == 'C' && name@[1] == 'O'
                && name@[2] == 'N'));
            assert((name@ =~= seq!['P', 'R', 'N']) == (name@[0] == 'P' && name@[1] == 'R'
                && name@[2] == 'N'));
            assert((name@ =~= seq!['A', 'U', 'X']) == (name@[0] == 'A' && name@[1] == 'U'
                && name@[2] == 'X'));
            assert((name@ =~= seq!['N', 'U', 'L']) == (name@[0] == 'N' && name@[1] == 'U'
                && name@[2] == 'L'));
        }
        found
    } else if name.len() == 4 {
        let found = ((name[0] == 'C' && name[1] == 'O' && name[2] == 'M') || (name[0] == 'L'
            && name[1] == 'P' && name[2] == 'T')) && '1' <= name[3] && name[3] <= '9';
        proof {
            let three = name@.take(3);
            assert((three =~= seq!['C', 'O', 'M']) == (name@[0] == 'C' && name@[1] == 'O'
                && name@[2] == 'M'));
            assert((three =~= seq!['L', 'P', 'T']) == (name@[0] == 'L' && name@[1] == 'P'
                && name@[2] == 'T'));
        }
        found
    } else {
        false
    }
}

fn stem(name: &str) -> (out: String)
    ensures
        out@ == stem_of(name@),
{
    let parts = split(name, &['.']);
    proof {
        assert(['.']@ =~= seq!['.']);
        lemma_pieces(name@, seq!['.'], 0, 0);
        assert(views(parts@)[0] == parts@[0]@);
    }
    owned(parts[0].as_str())
}

fn fault_of(name: &str) -> (fault: Option<&'static str>)
    ensures
        match fault {
            Some(reason) => component_fault(name@) == Some(reason@),
            None => component_fault(name@) is None,
        },
{
    let chars = chars_of(name);
    let length: usize = chars.len();
    if length == 0 {
        return Some("the name has an empty component");
    }
    proof {
        assert((name@ =~= seq!['.']) == (length == 1 && name@[0] == '.'));
        assert((name@ =~= seq!['.', '.']) == (length == 2 && name@[0] == '.' && name@[1] == '.'));
    }
    if (length == 1 && chars[0] == '.') || (length == 2 && chars[0] == '.' && chars[1] == '.') {
        return Some("the name traverses");
    }
    if white_space(chars[0]) || white_space(chars[length - 1]) {
        return Some("a component is padded with whitespace");
    }
    let before = stem(name);
    if device_name(before.as_str()) {
        return Some("a component names a system device");
    }
    None
}

fn unsafe_entry(entry: &str, reason: &'static str) -> (error: ExtractionError)
    ensures
        error@ == Complaint::UnsafeEntry(entry@, reason@),
{
    ExtractionError::UnsafeEntry { entry: owned(entry), reason }
}

/// The path that the name of an archive's entry stands for: names only, beneath
/// whatever it is joined to.
pub fn safe_relative_path(name: &str, limits: &ExtractionLimits) -> (path: Result<
    Vec<PathPart>,
    ExtractionError,
>)
    ensures
        match path {
            Ok(found) => match safe_components(name@, *limits) {
                Ok(components) => parts(found@) == named(components),
                Err(_) => false,
            },
            Err(error) => safe_components(name@, *limits) == Err::<Seq<Seq<char>>, Complaint>(
                error@,
            ),
        },
{
    let chars = chars_of(name);
    let length: usize = chars.len();
    if length == 0 {
        return Err(unsafe_entry(name, "the name is empty"));
    }
    let bytes = name.as_bytes();
    if bytes.len() > limits.max_path_len {
        return Err(ExtractionError::LimitExceeded("path length"));
    }
    if among(chars.as_slice(), '\0') {
        return Err(unsafe_entry(name, "the name contains a NUL"));
    }
    proof {
        assert(['/', '\\']@ =~= slashes());
    }
    if among(&['/', '\\'], chars[0]) {
        return Err(unsafe_entry(name, "the name is rooted"));
    }
    if bytes.len() > 1 && bytes[1] == 58 {
        return Err(unsafe_entry(name, "the name carries a drive prefix"));
    }
    let skip_empty = among(&['/', '\\'], chars[length - 1]);
    let segments = split(name, &['/', '\\']);
    let ghost all = pieces(name@, slashes());
    let mut path: Vec<PathPart> = Vec::new();
    let ghost mut taken: Seq<Seq<char>> = Seq::empty();
    assert(parts(path@) =~= named(taken));
    let mut i: usize = 0;
    while i < segments.len()
        invariant
            i <= segments@.len(),
            views(segments@) == all,
            name@.len() > 0,
            parts(path@) == named(taken),
            path@.len() == taken.len(),
            checked_components(
                name@,
                all,
                skip_empty,
                i as int,
                taken,
                limits.max_depth as nat,
            ) == safe_components(name@, *limits),
        decreases segments@.len() - i,
    {
        let segment = segments[i].as_str();
        assert(segment@ == all[i as int]) by {
            assert(views(segments@)[i as int] == segments@[i as int]@);
        }
        let empty = chars_of(segment).len() == 0;
        if !(empty && skip_empty) {
            if let Some(reason) = fault_of(segment) {
                return Err(unsafe_entry(name, reason));
            }
            let depth: usize = path.len();
            if depth >= limits.max_depth {
                return Err(ExtractionError::LimitExceeded("nesting depth"));
            }
            let ghost before = parts(path@);
            path.push(PathPart::Name(owned(segment)));
            proof {
                let longer = taken.push(segment@);
                assert(parts(path@) =~= before.push(Part::Name(segment@)));
                assert(named(longer) =~= named(taken).push(Part::Name(segment@)));
                taken = longer;
            }
        }
        i += 1;
    }
    if path.len() == 0 {
        return Err(unsafe_entry(name, "the name is empty"));
    }
    Ok(path)
}

/// Joins a relative path onto the root and makes sure that it stays inside.
pub fn contained_path(root: &[PathPart], relative: &[PathPart], name: &str) -> (path: Result<
    Vec<PathPart>,
    ExtractionError,
>)
    ensures
        match path {
            Ok(found) => contained(parts(root@), parts(relative@)) == Some(parts(found@)),
            Err(error) => contained(parts(root@), parts(relative@)) is None && error@
                == Complaint::UnsafeEntry(name@, "the name escapes the staging root"@),
        },
{
    match contain(root, relative) {
        Some(path) => Ok(path),
        None => Err(unsafe_entry(name, "the name escapes the staging root")),
    }
}

/// What is wrong with the kind of file that an entry's mode gives, if anything:
/// only files and directories are unpacked.
pub open spec fn mode_fault(mode: Option<u32>) -> Option<Seq<char>> {
    match mode {
        None => None,
        Some(bits) => {
            let kind = bits & 0o170_000;
            if kind == 0o120_000 {
                Some("symbolic links are never staged"@)
            } else if kind != 0 && kind != 0o100_000 && kind != 0o040_000 {
                Some("only files and directories are staged"@)
            } else {
                None
            }
        },
    }
}

fn check_mode(mode: Option<u32>) -> (fault: Option<&'static str>)
    ensures
        match fault {
            Some(reason) => mode_fault(mode) == Some(reason@),
            None => mode_fault(mode) is None,
        },
{
    match mode {
        None => None,
        Some(bits) => {
            let kind: u32 = bits & 0o170_000;
            if kind == 0o120_000 {
                Some("symbolic links are never staged")
            } else if kind != 0 && kind != 0o100_000 && kind != 0o040_000 {
                Some("only files and directories are staged")
            } else {
                None
            }
        },
    }
}

/// The values of a list of paths.
pub open spec fn path_values(paths: Seq<Vec<PathPart>>) -> Seq<Seq<Part>> {
    paths.map_values(|path: Vec<PathPart>| parts(path@))
}

/// Where an entry is to be unpacked, or why it is not: its name, its kind, and
/// for a file that no other entry has the same place, and the size that it
/// claims.
pub open spec fn destination_of(
    header: EntryFacts,
    root: Seq<Part>,
    seen: Seq<Seq<Part>>,
    limits: ExtractionLimits,
) -> Result<Seq<Part>, Complaint> {
    match safe_components(header.name, limits) {
        Err(complaint) => Err(complaint),
        Ok(components) => match mode_fault(header.unix_mode) {
            Some(reason) => Err(Complaint::UnsafeEntry(header.name, reason)),
            None => match contained(root, named(components)) {
                None => Err(
                    Complaint::UnsafeEntry(header.name, "the name escapes the staging root"@),
                ),
                Some(path) => if header.is_dir {
                    Ok(path)
                } else if seen.contains(path) {
                    Err(Complaint::UnsafeEntry(header.name, "the bundle declares it twice"@))
                } else if header.size > limits.max_file_bytes {
                    Err(Complaint::LimitExceeded("per-file size"@))
                } else {
                    Ok(path)
                },
            },
        },
    }
}

/// How much has been unpacked once a file of this length has been, or which
/// limit it breaks. What counts is what was read, not what the entry claimed.
pub open spec fn expanded_with(
    length: nat,
    compressed: u64,
    expanded: u64,
    limits: ExtractionLimits,
) -> Result<u64, Complaint> {
    let total = if expanded + length > u64::MAX {
        u64::MAX as int
    } else {
        expanded + length
    };
    if length > limits.max_file_bytes {
        Err(Complaint::LimitExceeded("per-file size"@))
    } else if compressed > 0 && length / (compressed as nat) > limits.max_ratio {
        Err(Complaint::LimitExceeded("compression ratio"@))
    } else if total > limits.max_expanded_bytes {
        Err(Complaint::LimitExceeded("expanded size"@))
    } else {
        Ok(total as u64)
    }
}

fn was_seen(seen: &[Vec<PathPart>], path: &[PathPart]) -> (found: bool)
    ensures
        found == path_values(seen@).contains(parts(path@)),
{
    let mut i: usize = 0;
    while i < seen.len()
        invariant
            i <= seen@.len(),
            forall|j: int| 0 <= j < i ==> #[trigger] path_values(seen@)[j] != parts(path@),
        decreases seen@.len() - i,
    {
        assert(path_values(seen@)[i as int] == parts(seen@[i as int]@));
        if same_path(seen[i].as_slice(), path) {
            return true;
        }
        i += 1;
    }
    false
}

/// Decides where an entry is to be unpacked.
pub fn destination(
    header: &EntryHeader,
    root: &[PathPart],
    seen: &[Vec<PathPart>],
    limits: &ExtractionLimits,
) -> (path: Result<Vec<PathPart>, ExtractionError>)
    ensures
        match path {
            Ok(found) => destination_of(header@, parts(root@), path_values(seen@), *limits) == Ok::<
                Seq<Part>,
                Complaint,
            >(parts(found@)),
            Err(error) => destination_of(header@, parts(root@), path_values(seen@), *limits)
                == Err::<Seq<Part>, Complaint>(error@),
        },
{
    let name = header.name.as_str();
    let relative = match safe_relative_path(name, limits) {
        Ok(relative) => relative,
        Err(error) => {
            return Err(error);
        },
    };
    if let Some(reason) = check_mode(header.unix_mode) {
        return Err(unsafe_entry(name, reason));
    }
    let path = match contained_path(root, relative.as_slice(), name) {
        Ok(path) => path,
        Err(error) => {
            return Err(error);
        },
    };
    if header.is_dir {
        return Ok(path);
    }
    if was_seen(seen, path.as_slice()) {
        return Err(unsafe_entry(name, "the bundle declares it twice"));
    }
    if header.size > limits.max_file_bytes {
        return Err(ExtractionError::LimitExceeded("per-file size"));
    }
    Ok(path)
}

/// Decides whether a file of this length still fits.
pub fn accept_file(length: usize, compressed: u64, expanded: u64, limits: &ExtractionLimits) -> (total:
    Result<u64, ExtractionError>)
    ensures
        match total {
            Ok(sum) => expanded_with(length as nat, compressed, expanded, *limits) == Ok::<
                u64,
                Complaint,
            >(sum),
            Err(error) => expanded_with(length as nat, compressed, expanded, *limits) == Err::<
                u64,
                Complaint,
            >(error@),
        },
{
    let read: u64 = length as u64;
    if read > limits.max_file_bytes {
        return Err(ExtractionError::LimitExceeded("per-file size"));
    }
    if compressed > 0 && read / compressed > limits.max_ratio {
        return Err(ExtractionError::LimitExceeded("compression ratio"));
    }
    let total: u64 = if u64::MAX - expanded < read {
        u64::MAX
    } else {
        expanded + read
    };
    if total > limits.max_expanded_bytes {
        return Err(ExtractionError::LimitExceeded("expanded size"));
    }
    Ok(total)
}

/// One entry, ready to be written.
#[derive(Debug, Clone, PartialEq, Eq)]
pub enum StagedEntry {
    Directory(Vec<PathPart>),
    File { path: Vec<PathPart>, bytes: Vec<u8> },
}

/// One entry ready to be written, as a value.
pub enum Staged {
    Directory(Seq<Part>),
    File(Seq<Part>, Seq<u8>),
}

impl View for StagedEntry {
    type V = Staged;

    open spec fn view(&self) -> Staged {
        match self {
            StagedEntry::Directory(path) => Staged::Directory(parts(path@)),
            StagedEntry::File { path, bytes } => Staged::File(parts(path@), bytes@),
        }
    }
}

/// A bundle that is being unpacked, as a value: the archive, where it goes, the
/// limits, and how far it has come.
#[verifier::ext_equal]
pub struct BundleState {
    pub bytes: Seq<u8>,
    pub root: Seq<Part>,
    pub limits: ExtractionLimits,
    pub next: nat,
    pub expanded: u64,
    pub seen: Seq<Seq<Part>>,
}

/// How many bytes of a file are asked for: one past the limit, so that an entry
/// that lies about its size is caught.
pub open spec fn asked_for(limits: ExtractionLimits) -> nat {
    if limits.max_file_bytes == u64::MAX {
        u64::MAX as nat
    } else {
        (limits.max_file_bytes + 1) as nat
    }
}

/// What the next entry of a bundle gives and leaves: nothing where there is no
/// entry left.
pub open spec fn unpacked(state: BundleState) -> Result<Option<(Staged, BundleState)>, Complaint> {
    if state.next >= entry_count(state.bytes) {
        Ok(None)
    } else {
        match entry_at(state.bytes, state.next) {
            Err(reason) => Err(Complaint::Archive(reason)),
            Ok(header) => match destination_of(header, state.root, state.seen, state.limits) {
                Err(complaint) => Err(complaint),
                Ok(path) => if header.is_dir {
                    Ok(
                        Some(
                            (
                                Staged::Directory(path),
                                BundleState { next: state.next + 1, ..state },
                            ),
                        ),
                    )
                } else {
                    match entry_prefix(state.bytes, state.next, asked_for(state.limits)) {
                        Err(reason) => Err(Complaint::Archive(reason)),
                        Ok(bytes) => match expanded_with(
                            bytes.len(),
                            header.compressed,
                            state.expanded,
                            state.limits,
                        ) {
                            Err(complaint) => Err(complaint),
                            Ok(total) => Ok(
                                Some(
                                    (
                                        Staged::File(path, bytes),
                                        BundleState {
                                            next: state.next + 1,
                                            expanded: total,
                                            seen: state.seen.push(path),
                                            ..state
                                        },
                                    ),
                                ),
                            ),
                        },
                    }
                },
            },
        }
    }
}

/// What keeps a bundle from being opened: its size, its form, or the number of
/// its entries.
pub open spec fn opening_fault(bytes: Seq<u8>, limits: ExtractionLimits) -> Option<Complaint> {
    if bytes.len() > limits.max_compressed_bytes {
        Some(Complaint::LimitExceeded("compressed size"@))
    } else {
        match archive_fault(bytes) {
            Some(reason) => Some(Complaint::Archive(reason)),
            None => if entry_count(bytes) > limits.max_files {
                Some(Complaint::LimitExceeded("file count"@))
            } else {
                None
            },
        }
    }
}

/// Unpacks a bundle one entry after another.
///
/// The structure of the bundle is kept, because the references among its files
/// only resolve in the tree that its author built. Safety comes from testing
/// each name, not from replacing it.
pub struct BundleReader {
    archive: MemoryArchive,
    root: Vec<PathPart>,
    limits: ExtractionLimits,
    next: usize,
    expanded: u64,
    seen: Vec<Vec<PathPart>>,
}

impl View for BundleReader {
    type V = BundleState;

    closed spec fn view(&self) -> BundleState {
        BundleState {
            bytes: archive_bytes(self.archive),
            root: parts(self.root@),
            limits: self.limits,
            next: self.next as nat,
            expanded: self.expanded,
            seen: path_values(self.seen@),
        }
    }
}

impl BundleReader {
    /// Opens a bundle that is to be unpacked beneath `root`, which is canonical.
    pub fn open(bytes: Vec<u8>, root: &[PathPart], limits: ExtractionLimits) -> (opened: Result<
        BundleReader,
        ExtractionError,
    >)
        ensures
            match opened {
                Ok(reader) => opening_fault(bytes@, limits) is None && reader@ == packed(
                    bytes@,
                    parts(root@),
                    limits,
                ),
                Err(error) => opening_fault(bytes@, limits) == Some(error@),
            },
    {
        if bytes.len() as u64 > limits.max_compressed_bytes {
            return Err(ExtractionError::LimitExceeded("compressed size"));
        }
        let archive = match open_archive(bytes) {
            Ok(archive) => archive,
            Err(reason) => {
                return Err(ExtractionError::Archive(reason));
            },
        };
        if count_entries(&archive) > limits.max_files {
            return Err(ExtractionError::LimitExceeded("file count"));
        }
        let seen: Vec<Vec<PathPart>> = Vec::new();
        let reader = BundleReader {
            archive,
            root: copy_path(root),
            limits,
            next: 0,
            expanded: 0,
            seen,
        };
        proof {
            assert(path_values(reader.seen@) =~= Seq::empty());
        }
        Ok(reader)
    }

    /// The next entry, ready to be written, or nothing where all have been given.
    pub fn next_entry(&mut self) -> (entry: Result<Option<StagedEntry>, ExtractionError>)
        ensures
            match entry {
                Ok(Some(staged)) => unpacked(old(self)@) == Ok::<
                    Option<(Staged, BundleState)>,
                    Complaint,
                >(Some((staged@, final(self)@))),
                Ok(None) => unpacked(old(self)@) == Ok::<Option<(Staged, BundleState)>, Complaint>(
                    None,
                ) && final(self)@ == old(self)@,
                Err(error) => unpacked(old(self)@) == Err::<
                    Option<(Staged, BundleState)>,
                    Complaint,
                >(error@) && final(self)@ == old(self)@,
            },
    {
        let index: usize = self.next;
        if index >= count_entries(&self.archive) {
            return Ok(None);
        }
        let header = match entry_header(&mut self.archive, index) {
            Ok(header) => header,
            Err(reason) => {
                return Err(ExtractionError::Archive(reason));
            },
        };
        let path = match destination(
            &header,
            self.root.as_slice(),
            self.seen.as_slice(),
            &self.limits,
        ) {
            Ok(path) => path,
            Err(error) => {
                return Err(error);
            },
        };
        if header.is_dir {
            self.next = index + 1;
            return Ok(Some(StagedEntry::Directory(path)));
        }
        let most: u64 = if self.limits.max_file_bytes == u64::MAX {
            u64::MAX
        } else {
            self.limits.max_file_bytes + 1
        };
        let bytes = match read_entry(&mut self.archive, index, most) {
            Ok(bytes) => bytes,
            Err(reason) => {
                return Err(ExtractionError::Archive(reason));
            },
        };
        let total: u64 = match accept_file(
            bytes.len(),
            header.compressed,
            self.expanded,
            &self.limits,
        ) {
            Ok(total) => total,
            Err(error) => {
                return Err(error);
            },
        };
        let ghost before = path_values(self.seen@);
        self.seen.push(copy_path(path.as_slice()));
        self.expanded = total;
        self.next = index + 1;
        assert(path_values(self.seen@) =~= before.push(parts(path@)));
        Ok(Some(StagedEntry::File { path, bytes }))
    }
}

/// What a bundle stages from a state on, in order, and what it is refused for,
/// if anything: everything before the entry that is refused is staged.
pub open spec fn staged_from(state: BundleState) -> (Seq<Staged>, Option<Complaint>)
    decreases entry_count(state.bytes) - state.next,
{
    match unpacked(state) {
        Ok(None) => (Seq::empty(), None),
        Err(complaint) => (Seq::empty(), Some(complaint)),
        Ok(Some((staged, after))) => (
            seq![staged] + staged_from(after).0,
            staged_from(after).1,
        ),
    }
}

/// A bundle before anything of it was unpacked.
pub open spec fn packed(bytes: Seq<u8>, root: Seq<Part>, limits: ExtractionLimits) -> BundleState {
    BundleState { bytes, root, limits, next: 0, expanded: 0, seen: Seq::empty() }
}

/// What a bundle stages beneath a root, and what it is refused for.
pub open spec fn extraction(bytes: Seq<u8>, root: Seq<Part>, limits: ExtractionLimits) -> (
    Seq<Staged>,
    Option<Complaint>,
) {
    match opening_fault(bytes, limits) {
        Some(complaint) => (Seq::empty(), Some(complaint)),
        None => staged_from(packed(bytes, root, limits)),
    }
}

/// The values of staged entries.
pub open spec fn staged_values(entries: Seq<StagedEntry>) -> Seq<Staged> {
    entries.map_values(|entry: StagedEntry| entry@)
}

/// Unpacks a bundle that is to be staged beneath `root`, which is canonical.
/// What comes before an entry that is refused is given out with the refusal.
pub fn extract_bundle(bytes: Vec<u8>, root: &[PathPart], limits: ExtractionLimits) -> (bundle: (
    Vec<StagedEntry>,
    Result<(), ExtractionError>,
))
    ensures
        staged_values(bundle.0@) == extraction(bytes@, parts(root@), limits).0,
        match bundle.1 {
            Ok(()) => extraction(bytes@, parts(root@), limits).1 is None,
            Err(error) => extraction(bytes@, parts(root@), limits).1 == Some(error@),
        },
{
    let ghost whole = extraction(bytes@, parts(root@), limits);
    let mut staged: Vec<StagedEntry> = Vec::new();
    assert(staged_values(staged@) =~= Seq::empty());
    let mut reader = match BundleReader::open(bytes, root, limits) {
        Ok(reader) => reader,
        Err(error) => {
            return (staged, Err(error));
        },
    };
    assert(staged_values(staged@) + staged_from(reader@).0 =~= whole.0);
    loop
        invariant
            whole == extraction(bytes@, parts(root@), limits),
            staged_values(staged@) + staged_from(reader@).0 == whole.0,
            staged_from(reader@).1 == whole.1,
        decreases entry_count(reader@.bytes) - reader@.next,
    {
        match reader.next_entry() {
            Ok(Some(entry)) => {
                let ghost values = staged_values(staged@);
                staged.push(entry);
                proof {
                    assert(staged_values(staged@) =~= values.push(entry@));
                    assert(values.push(entry@) + staged_from(reader@).0 =~= values + (seq![entry@]
                        + staged_from(reader@).0));
                }
            },
            Ok(None) => {
                assert(staged_values(staged@) + Seq::<Staged>::empty() =~= staged_values(staged@));
                return (staged, Ok(()));
            },
            Err(error) => {
                assert(staged_values(staged@) + Seq::<Staged>::empty() =~= staged_values(staged@));
                return (staged, Err(error));
            },
        }
    }
}

/// The file in which a bundle says what it is: the one right beneath the root
/// that has this name, among the entries from `from` on.
pub open spec fn manifest_from(
    staged: Seq<Staged>,
    root: Seq<Part>,
    name: Seq<char>,
    from: int,
) -> Option<Seq<u8>>
    decreases staged.len() - from,
{
    if !(0 <= from < staged.len()) {
        None
    } else {
        match staged[from] {
            Staged::File(path, bytes) => if path == root.push(Part::Name(name)) {
                Some(bytes)
            } else {
                manifest_from(staged, root, name, from + 1)
            },
            Staged::Directory(_) => manifest_from(staged, root, name, from + 1),
        }
    }
}

/// Finds the file in which a bundle says what it is. A bundle without one is
/// refused.
pub fn manifest_in(staged: &[StagedEntry], root: &[PathPart], name: &str) -> (manifest: Result<
    Vec<u8>,
    ExtractionError,
>)
    ensures
        match manifest_from(staged_values(staged@), parts(root@), name@, 0) {
            Some(bytes) => manifest matches Ok(found) && found@ == bytes,
            None => manifest matches Err(error) && error@ == Complaint::Manifest(
                "the bundle does not say what it is"@,
            ),
        },
{
    let ghost values = staged_values(staged@);
    let mut place = copy_path(root);
    let ghost above = parts(place@);
    place.push(PathPart::Name(owned(name)));
    assert(parts(place@) =~= above.push(Part::Name(name@)));
    let mut i: usize = 0;
    while i < staged.len()
        invariant
            i <= staged@.len(),
            values == staged_values(staged@),
            parts(place@) == parts(root@).push(Part::Name(name@)),
            manifest_from(values, parts(root@), name@, i as int) == manifest_from(
                values,
                parts(root@),
                name@,
                0,
            ),
        decreases staged@.len() - i,
    {
        assert(values[i as int] == staged@[i as int]@);
        if let StagedEntry::File { path, bytes } = &staged[i] {
            if same_path(path.as_slice(), place.as_slice()) {
                return Ok(crate::bytes::copy_bytes(bytes.as_slice()));
            }
        }
        i += 1;
    }
    Err(ExtractionError::Manifest(owned("the bundle does not say what it is")))
}

/// How far a bundle may come: within its expanded size, beneath its root, and
/// with no place used twice.
pub open spec fn within_bounds(state: BundleState) -> bool {
    &&& state.expanded <= state.limits.max_expanded_bytes
    &&& state.seen.no_duplicates()
    &&& forall|i: int| 0 <= i < state.seen.len() ==> within(#[trigger] state.seen[i], state.root)
}

/// Whatever an archive holds, each of its entries is unpacked beneath the root
/// and in a place of its own, no file is larger than the limit, and all of them
/// together stay within the expanded size.
pub proof fn law_a_bundle_stays_within_bounds(state: BundleState)
    requires
        within_bounds(state),
    ensures
        match unpacked(state) {
            Ok(Some((staged, after))) => {
                &&& within_bounds(after)
                &&& after.root == state.root && after.limits == state.limits
                &&& after.next == state.next + 1
                &&& match staged {
                    Staged::Directory(path) => within(path, state.root) && after.seen
                        == state.seen,
                    Staged::File(path, bytes) => within(path, state.root) && !state.seen.contains(
                        path,
                    ) && bytes.len() <= state.limits.max_file_bytes && (
                    state.limits.max_expanded_bytes < u64::MAX ==> after.expanded
                        == state.expanded + bytes.len()),
                }
            },
            _ => true,
        },
{
    if let Ok(Some((staged, after))) = unpacked(state) {
        let header = entry_at(state.bytes, state.next)->Ok_0;
        let components = safe_components(header.name, state.limits)->Ok_0;
        law_contained_paths_are_inside(state.root, named(components));
        match staged {
            Staged::File(path, bytes) => {
                assert forall|i: int| 0 <= i < after.seen.len() implies within(
                    #[trigger] after.seen[i],
                    state.root,
                ) by {
                    if i < state.seen.len() {
                        assert(after.seen[i] == state.seen[i]);
                    }
                }
                assert forall|i: int, j: int|
                    0 <= i < after.seen.len() && 0 <= j < after.seen.len() && i
                        != j implies after.seen[i] != after.seen[j] by {
                    if i < state.seen.len() {
                        assert(after.seen[i] == state.seen[i]);
                    }
                    if j < state.seen.len() {
                        assert(after.seen[j] == state.seen[j]);
                    }
                }
            },
            Staged::Directory(_) => {},
        }
    }
}

/// The bytes of the files among staged entries.
pub open spec fn staged_bytes(entries: Seq<Staged>) -> nat
    decreases entries.len(),
{
    if entries.len() == 0 {
        0
    } else {
        staged_bytes(entries.skip(1)) + match entries[0] {
            Staged::Directory(_) => 0,
            Staged::File(_, bytes) => bytes.len(),
        }
    }
}

/// Where an entry is staged.
pub open spec fn staged_path(entry: Staged) -> Seq<Part> {
    match entry {
        Staged::Directory(path) => path,
        Staged::File(path, _) => path,
    }
}

proof fn lemma_staged(state: BundleState)
    requires
        within_bounds(state),
        state.limits.max_expanded_bytes < u64::MAX,
    ensures
        forall|i: int|
            0 <= i < staged_from(state).0.len() ==> within(
                staged_path(#[trigger] staged_from(state).0[i]),
                state.root,
            ) && !(staged_from(state).0[i] is File && state.seen.contains(
                staged_path(staged_from(state).0[i]),
            )) && (staged_from(state).0[i] matches Staged::File(_, bytes) ==> bytes.len()
                <= state.limits.max_file_bytes),
        forall|i: int, j: int|
            0 <= i < j < staged_from(state).0.len() && staged_from(state).0[i] is File
                && staged_from(state).0[j] is File ==> staged_path(#[trigger] staged_from(state).0[i])
                != staged_path(#[trigger] staged_from(state).0[j]),
        state.expanded + staged_bytes(staged_from(state).0) <= state.limits.max_expanded_bytes,
    decreases entry_count(state.bytes) - state.next,
{
    law_a_bundle_stays_within_bounds(state);
    if let Ok(Some((staged, after))) = unpacked(state) {
        lemma_staged(after);
        let all = staged_from(state).0;
        let rest = staged_from(after).0;
        assert(all =~= seq![staged] + rest);
        assert(all.skip(1) =~= rest);
        assert forall|i: int| 0 <= i < all.len() implies within(
            staged_path(#[trigger] all[i]),
            state.root,
        ) && !(all[i] is File && state.seen.contains(staged_path(all[i]))) && (all[i] matches
            Staged::File(_, bytes) ==> bytes.len() <= state.limits.max_file_bytes) by {
            if i > 0 {
                assert(all[i] == rest[i - 1]);
                if all[i] is File && state.seen.contains(staged_path(all[i])) {
                    let k = choose|k: int|
                        0 <= k < state.seen.len() && state.seen[k] == staged_path(all[i]);
                    assert(after.seen[k] == staged_path(all[i]));
                }
            }
        }
        assert forall|i: int, j: int|
            0 <= i < j < all.len() && all[i] is File && all[j] is File implies staged_path(
            #[trigger] all[i],
        ) != staged_path(#[trigger] all[j]) by {
            assert(all[j] == rest[j - 1]);
            if i == 0 {
                assert(after.seen.last() == staged_path(staged));
                assert(after.seen.contains(staged_path(staged)));
            } else {
                assert(all[i] == rest[i - 1]);
            }
        }
    }
}

/// Whatever the bytes of a bundle are: everything that is staged lies beneath the
/// root, no two files in one place, no file larger than the limit for one, and
/// all of them together no larger than the limit for all.
pub proof fn law_what_is_staged_is_bounded(
    bytes: Seq<u8>,
    root: Seq<Part>,
    limits: ExtractionLimits,
)
    requires
        limits.max_expanded_bytes < u64::MAX,
    ensures
        forall|i: int|
            0 <= i < extraction(bytes, root, limits).0.len() ==> within(
                staged_path(#[trigger] extraction(bytes, root, limits).0[i]),
                root,
            ) && (extraction(bytes, root, limits).0[i] matches Staged::File(_, file) ==> file.len()
                <= limits.max_file_bytes),
        forall|i: int, j: int|
            0 <= i < j < extraction(bytes, root, limits).0.len() && extraction(
                bytes,
                root,
                limits,
            ).0[i] is File && extraction(bytes, root, limits).0[j] is File ==> staged_path(
                #[trigger] extraction(bytes, root, limits).0[i],
            ) != staged_path(#[trigger] extraction(bytes, root, limits).0[j]),
        staged_bytes(extraction(bytes, root, limits).0) <= limits.max_expanded_bytes,
{
    if opening_fault(bytes, limits) is None {
        lemma_staged(packed(bytes, root, limits));
    }
}

proof fn lemma_checked_components(
    name: Seq<char>,
    all: Seq<Seq<char>>,
    skip_empty: bool,
    i: int,
    taken: Seq<Seq<char>>,
    max_depth: nat,
)
    requires
        0 <= i <= all.len(),
        taken.len() <= max_depth,
        forall|k: int|
            0 <= k < taken.len() ==> component_fault(#[trigger] taken[k]) is None && all.contains(
                taken[k],
            ),
    ensures
        match checked_components(name, all, skip_empty, i, taken, max_depth) {
            Ok(components) => {
                &&& 0 < components.len() <= max_depth
                &&& forall|k: int|
                    0 <= k < components.len() ==> component_fault(#[trigger] components[k]) is None
                        && all.contains(components[k])
            },
            Err(_) => true,
        },
    decreases all.len() - i,
{
    if i < all.len() {
        if all[i].len() == 0 && skip_empty {
            lemma_checked_components(name, all, skip_empty, i + 1, taken, max_depth);
        } else if component_fault(all[i]) is None && taken.len() + 1 <= max_depth {
            lemma_checked_components(name, all, skip_empty, i + 1, taken.push(all[i]), max_depth);
        }
    }
}

/// A name that is accepted stands for at least one and at most as many names as
/// the limit allows, and each of them is a plain one: not empty, no step, no
/// device, with no separator and no NUL in it. Beneath a canonical root it
/// leads to exactly those names.
pub proof fn law_accepted_names_are_plain(
    name: Seq<char>,
    limits: ExtractionLimits,
    root: Seq<Part>,
)
    requires
        canonical(root),
        safe_components(name, limits) is Ok,
    ensures
        0 < safe_components(name, limits)->Ok_0.len() <= limits.max_depth,
        forall|i: int|
            0 <= i < safe_components(name, limits)->Ok_0.len() ==> {
                let component = #[trigger] safe_components(name, limits)->Ok_0[i];
                &&& component.len() > 0
                &&& component != seq!['.']
                &&& component != seq!['.', '.']
                &&& !is_device(stem_of(component))
                &&& !component.contains('/')
                &&& !component.contains('\\')
                &&& !component.contains('\0')
            },
        contained(root, named(safe_components(name, limits)->Ok_0)) == Some(
            root + named(safe_components(name, limits)->Ok_0),
        ),
{
    let all = pieces(name, slashes());
    let components = safe_components(name, limits)->Ok_0;
    lemma_checked_components(
        name,
        all,
        slashes().contains(name.last()),
        0,
        Seq::empty(),
        limits.max_depth as nat,
    );
    lemma_pieces(name, slashes(), 0, 0);
    law_names_lead_inside(root, components);
    assert(slashes()[0] == '/' && slashes()[1] == '\\');
    assert forall|i: int| 0 <= i < components.len() implies {
        let component = #[trigger] components[i];
        &&& !component.contains('/')
        &&& !component.contains('\\')
        &&& !component.contains('\0')
    } by {
        let component = components[i];
        let at = choose|k: int| 0 <= k < all.len() && all[k] == component;
        assert forall|j: int| 0 <= j < component.len() implies !slashes().contains(
            #[trigger] component[j],
        ) && name.contains(component[j]) by {
            assert(pieces_from(name, slashes(), 0, 0)[at][j] == component[j]);
        }
    }
}

/// What was made of one link of a page.
pub struct ReadLink<D> {
    /// The address, where the link has one.
    pub uri: Option<String>,
    /// Does the address announce itself as media?
    pub media: bool,
    /// What the address declares, or why it declares nothing.
    pub reading: Result<D, String>,
}

/// What the first `n` links declare.
pub open spec fn declared<D>(links: Seq<ReadLink<D>>, n: int) -> Seq<D>
    decreases n,
{
    if n <= 0 {
        Seq::empty()
    } else {
        match (links[n - 1].uri, links[n - 1].reading) {
            (Some(_), Ok(declaration)) => declared(links, n - 1).push(declaration),
            _ => declared(links, n - 1),
        }
    }
}

/// What there is to say of the first `n` links: an address that announced
/// itself as media and declares nothing is a mistake worth naming, and an
/// ordinary link is not.
pub open spec fn link_complaints<D>(links: Seq<ReadLink<D>>, n: int) -> Seq<Seq<char>>
    decreases n,
{
    if n <= 0 {
        Seq::empty()
    } else {
        match (links[n - 1].uri, links[n - 1].reading) {
            (Some(uri), Err(reason)) => if links[n - 1].media {
                link_complaints(links, n - 1).push(
                    "media link `"@ + uri@ + "` was ignored: "@ + reason@,
                )
            } else {
                link_complaints(links, n - 1)
            },
            _ => link_complaints(links, n - 1),
        }
    }
}

/// Sorts what a page's links declare from what there is to say of them.
pub fn declarations_from_links<D>(links: Vec<ReadLink<D>>) -> (sorted: (Vec<D>, Vec<String>))
    ensures
        sorted.0@ == declared(links@, links@.len() as int),
        views(sorted.1@) == link_complaints(links@, links@.len() as int),
{
    let ghost all = links@;
    let mut rest = links;
    let mut declarations: Vec<D> = Vec::new();
    let mut diagnostics: Vec<String> = Vec::new();
    let count: usize = rest.len();
    let mut i: usize = 0;
    assert(views(diagnostics@) =~= Seq::empty());
    assert(all.skip(0) =~= all);
    while i < count
        invariant
            i <= count,
            count == all.len(),
            rest@ == all.skip(i as int),
            declarations@ == declared(all, i as int),
            views(diagnostics@) == link_complaints(all, i as int),
        decreases count - i,
    {
        let link = rest.remove(0);
        proof {
            assert(link == all[i as int]);
            assert(rest@ =~= all.skip(i + 1));
        }
        let ghost shorter = views(diagnostics@);
        if let Some(uri) = link.uri {
            match link.reading {
                Ok(declaration) => {
                    declarations.push(declaration);
                },
                Err(reason) => {
                    if link.media {
                        let mut text = owned("media link `");
                        push_str(&mut text, uri.as_str());
                        push_str(&mut text, "` was ignored: ");
                        push_str(&mut text, reason.as_str());
                        diagnostics.push(text);
                        assert(views(diagnostics@) =~= shorter.push(text@));
                    }
                },
            }
        }
        i += 1;
    }
    (declarations, diagnostics)
}

/// Decides where an asset beside the document lies, from what the file system
/// makes of it: `resolved` is the real path, where there is one.
pub fn resolve_external(
    path: &str,
    containable: bool,
    base: &[PathPart],
    resolved: Option<Vec<PathPart>>,
) -> (found: Result<Vec<PathPart>, ExtractionError>)
    ensures
        match found {
            Ok(real_path) => containable && resolved == Some(real_path) && within(
                parts(real_path@),
                parts(base@),
            ),
            Err(error) => error@ == Complaint::Escapes(path@) && (!containable || resolved is None
                || !within(parts(resolved.unwrap()@), parts(base@))),
        },
{
    match resolved {
        Some(real_path) => {
            if containable && starts_with(real_path.as_slice(), base) {
                Ok(real_path)
            } else {
                Err(ExtractionError::Escapes(owned(path)))
            }
        },
        None => Err(ExtractionError::Escapes(owned(path))),
    }
}

/// The name of a staging directory.
pub fn staging_name(token: u64) -> (name: String)
    ensures
        name@ == "pulpit-stage-"@ + padded_hexadecimal(token as nat, 16),
{
    let mut name = owned("pulpit-stage-");
    push_padded_hexadecimal(&mut name, token, 16);
    name
}

/// The name of the directory of one asset. It is numbered, never taken from the
/// document: what an attachment calls itself is not to be trusted.
pub fn asset_name(index: u64) -> (name: String)
    ensures
        name@ == "asset-"@ + padded_text(index as nat, 6),
{
    let mut name = owned("asset-");
    push_padded(&mut name, index, 6);
    name
}

/// A number turned to the left by 17 bits.
pub open spec fn turned(n: u64) -> u64 {
    (n << 17) | (n >> 47)
}

/// What four numbers are mixed into: the time, a place in memory, the process
/// and a count. Neighbouring times do not give neighbouring tokens.
pub open spec fn mixed_token(nanos: u64, place: u64, process: u64, counter: u64) -> u64 {
    let start = (nanos ^ turned(place) ^ process.wrapping_mul(31)).wrapping_add(
        counter.wrapping_mul(0x9E37_79B9_7F4A_7C15),
    );
    let spread = (start ^ (start >> 33)).wrapping_mul(0xFF51_AFD7_ED55_8CCD);
    spread ^ (spread >> 29)
}

/// Mixes four numbers into a token, which is as hard to guess as they are.
pub fn mix_token(nanos: u64, place: u64, process: u64, counter: u64) -> (token: u64)
    ensures
        token == mixed_token(nanos, place, process, counter),
{
    let turn: u64 = (place << 17) | (place >> 47);
    let start: u64 = (nanos ^ turn ^ process.wrapping_mul(31)).wrapping_add(
        counter.wrapping_mul(0x9E37_79B9_7F4A_7C15),
    );
    let spread: u64 = (start ^ (start >> 33)).wrapping_mul(0xFF51_AFD7_ED55_8CCD);
    spread ^ (spread >> 29)
}

proof fn lemma_plain_components(
    name: Seq<char>,
    all: Seq<Seq<char>>,
    skip_empty: bool,
    i: int,
    max_depth: nat,
)
    requires
        0 <= i <= all.len() <= max_depth,
        all.len() > 0,
        forall|k: int| 0 <= k < all.len() ==> component_fault(#[trigger] all[k]) is None,
    ensures
        checked_components(name, all, skip_empty, i, all.take(i), max_depth) == Ok::<
            Seq<Seq<char>>,
            Complaint,
        >(all),
    decreases all.len() - i,
{
    if i < all.len() {
        assert(component_fault(all[i]) is None);
        assert(all[i].len() > 0);
        assert(all.take(i).push(all[i]) =~= all.take(i + 1));
        lemma_plain_components(name, all, skip_empty, i + 1, max_depth);
    } else {
        assert(all.take(i) =~= all);
    }
}

/// A name within the limits is accepted as its components where none of them is
/// at fault, there is nothing before the first, and no drive.
pub proof fn law_plain_names_are_accepted(name: Seq<char>, limits: ExtractionLimits)
    requires
        name.len() > 0,
        utf8(name).len() <= limits.max_path_len,
        !name.contains('\0'),
        !slashes().contains(name[0]),
        utf8(name).len() > 1 ==> utf8(name)[1] != 58,
        pieces(name, slashes()).len() <= limits.max_depth,
        forall|k: int|
            0 <= k < pieces(name, slashes()).len() ==> component_fault(
                #[trigger] pieces(name, slashes())[k],
            ) is None,
    ensures
        safe_components(name, limits) == Ok::<Seq<Seq<char>>, Complaint>(pieces(name, slashes())),
{
    let all = pieces(name, slashes());
    lemma_pieces(name, slashes(), 0, 0);
    lemma_plain_components(
        name,
        all,
        slashes().contains(name.last()),
        0,
        limits.max_depth as nat,
    );
    assert(all.take(0) =~= Seq::empty());
}

/// Turning a number loses none of its bits: the highest become the lowest.
pub proof fn law_turning_loses_nothing(one: u64, two: u64)
    ensures
        turned(one) == turned(two) <==> one == two,
        turned(one) % 0x2_0000 == one / 0x8000_0000_0000,
        turned(one) / 0x2_0000 == one % 0x8000_0000_0000,
{
    assert((((one << 17) | (one >> 47)) == ((two << 17) | (two >> 47))) <==> one == two) by (bit_vector);
    assert(((one << 17) | (one >> 47)) % 0x2_0000 == one / 0x8000_0000_0000) by (bit_vector);
    assert(((one << 17) | (one >> 47)) / 0x2_0000 == one % 0x8000_0000_0000) by (bit_vector);
}

/// Every link that has an address and is media is either declared or complained of,
/// and of links without an address nothing is said.
pub proof fn law_every_media_link_is_heard_of<D>(links: Seq<ReadLink<D>>, n: int)
    requires
        0 <= n <= links.len(),
        forall|i: int|
            0 <= i < n ==> (#[trigger] links[i]).media || links[i].reading is Ok || links[i].uri
                is None,
    ensures
        declared(links, n).len() + link_complaints(links, n).len() == links.take(n).filter(
            |link: ReadLink<D>| link.uri is Some,
        ).len(),
    decreases n,
{
    let named = |link: ReadLink<D>| link.uri is Some;
    reveal(Seq::filter);
    if n > 0 {
        law_every_media_link_is_heard_of(links, n - 1);
        let all = links.take(n);
        assert(all.drop_last() =~= links.take(n - 1));
        assert(all.last() == links[n - 1]);
        assert(links[n - 1].media || links[n - 1].reading is Ok || links[n - 1].uri is None);
    } else {
        assert(links.take(0).filter(named) =~= Seq::empty());
    }
}

/// What a bundle says of itself is the file of that name right beneath the root: the
/// first of them, and no directory.
pub proof fn law_the_manifest_is_right_beneath_the_root(
    staged: Seq<Staged>,
    root: Seq<Part>,
    name: Seq<char>,
    at: int,
    bytes: Seq<u8>,
)
    requires
        0 <= at < staged.len(),
        staged[at] == Staged::File(root.push(Part::Name(name)), bytes),
        forall|i: int|
            0 <= i < at ==> !(#[trigger] staged[i] matches Staged::File(path, _) && path
                == root.push(Part::Name(name))),
    ensures
        manifest_from(staged, root, name, 0) == Some(bytes),
{
    lemma_manifest(staged, root, name, at, bytes, 0);
}

proof fn lemma_manifest(
    staged: Seq<Staged>,
    root: Seq<Part>,
    name: Seq<char>,
    at: int,
    bytes: Seq<u8>,
    from: int,
)
    requires
        0 <= from <= at < staged.len(),
        staged[at] == Staged::File(root.push(Part::Name(name)), bytes),
        forall|i: int|
            from <= i < at ==> !(#[trigger] staged[i] matches Staged::File(path, _) && path
                == root.push(Part::Name(name))),
    ensures
        manifest_from(staged, root, name, from) == Some(bytes),
    decreases at - from,
{
    if from < at {
        assert(!(staged[from] matches Staged::File(path, _) && path == root.push(
            Part::Name(name),
        )));
        lemma_manifest(staged, root, name, at, bytes, from + 1);
    }
}

/// A file is taken exactly where it is no longer than one may be, has not grown more
/// often than it may, and what has been unpacked with it is within its limit; then it
/// counts with all its bytes.
pub proof fn law_a_file_counts_as_it_is(
    length: nat,
    compressed: u64,
    expanded: u64,
    limits: ExtractionLimits,
)
    requires
        expanded + length <= u64::MAX,
    ensures
        expanded_with(length, compressed, expanded, limits) is Ok <==> length
            <= limits.max_file_bytes && expanded + length <= limits.max_expanded_bytes && (
        compressed > 0 ==> length < (limits.max_ratio + 1) * compressed),
        expanded_with(length, compressed, expanded, limits) matches Ok(total) ==> total == expanded
            + length,
{
    if compressed > 0 {
        let ratio = length / (compressed as nat);
        let most = limits.max_ratio as nat;
        let size = compressed as nat;
        assert(ratio > most <==> length >= (most + 1) * size) by (nonlinear_arith)
            requires
                ratio == length / size,
                size > 0,
        ;
    }
}

} // verus!
