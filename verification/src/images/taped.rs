//! A `.cbt` over its bytes, plain or compressed: what it lists, one of its
//! entries, and the sizes of its pictures.

use crate::bytes::{copy_bytes, same_bytes};
use crate::images::archive::{
    image_entry, is_gzipped, is_image_entry, read_within, ListedEntry, MAX_ENTRY_BYTES,
};
use crate::images::decode::header_of;
use crate::images::measure::Measurements;
use crate::images::table::{list_fault_text, ListError, ListFault};
use crate::images::zipped::{
    law_entries_stay_within_their_bound, listed_value, listed_values, within_bound, ListedValue,
};
use crate::text::{lossy_utf8, owned, text_from_utf8_lossy};
use flate2::read::GzDecoder;
use std::io::Read;
use vstd::prelude::*;

verus! {

/// An entry of a tape archive, by its value: is it a file, its name in UTF-8,
/// and the size that its header gives, where that can be read; or why it cannot
/// be read.
pub type TapedValue = Result<(bool, Seq<u8>, Option<u64>), Seq<char>>;

/// An entry of a tape archive.
#[derive(Debug)]
pub struct TapedEntry {
    pub is_file: bool,
    pub name: Vec<u8>,
    pub size: Option<u64>,
}

/// An entry of a tape archive, by its value.
pub open spec fn taped_value(entry: Result<TapedEntry, String>) -> TapedValue {
    match entry {
        Ok(entry) => Ok((entry.is_file, entry.name@, entry.size)),
        Err(reason) => Err(reason@),
    }
}

/// Entries of a tape archive, each by its value.
pub open spec fn taped_values(entries: Seq<Result<TapedEntry, String>>) -> Seq<TapedValue> {
    entries.map_values(|entry: Result<TapedEntry, String>| taped_value(entry))
}

/// What was read of an entry, by its value.
pub open spec fn read_value(read: Option<Result<Vec<u8>, String>>) -> Option<
    Result<Seq<u8>, Seq<char>>,
> {
    match read {
        Some(Ok(bytes)) => Some(Ok(bytes@)),
        Some(Err(reason)) => Some(Err(reason@)),
        None => None,
    }
}

/// What the entries of `tar::Archive` are, one after the other, over these
/// bytes.
pub uninterp spec fn tar_entries(bytes: Seq<u8>) -> Seq<TapedValue>;

/// What the entries of `tar::Archive` are, one after the other, over what
/// `flate2::read::GzDecoder` makes of these bytes.
pub uninterp spec fn gzipped_tar_entries(bytes: Seq<u8>) -> Seq<TapedValue>;

/// The first `most` bytes that the entry of `tar::Archive` at an index gives, or
/// why it cannot be read; nothing where there is none.
pub uninterp spec fn tar_content(bytes: Seq<u8>, index: nat, most: nat) -> Option<
    Result<Seq<u8>, Seq<char>>,
>;

/// The same over what `flate2::read::GzDecoder` makes of the bytes.
pub uninterp spec fn gzipped_tar_content(bytes: Seq<u8>, index: nat, most: nat) -> Option<
    Result<Seq<u8>, Seq<char>>,
>;

/// `tar::Archive::entries` over plain bytes.
#[verifier::external_body]
fn walk_tar(bytes: &[u8]) -> (entries: Vec<Result<TapedEntry, String>>)
    ensures
        taped_values(entries@) == tar_entries(bytes@),
{
    match tar::Archive::new(bytes).entries() {
        Ok(entries) => entries.map(|entry| entry.map_err(|e| e.to_string()).map(|entry| TapedEntry {
            is_file: entry.header().entry_type().is_file(),
            name: String::from_utf8_lossy(&entry.path_bytes()).into_owned().into_bytes(),
            size: entry.header().size().ok(),
        })).collect(),
        Err(e) => vec![Err(e.to_string())],
    }
}

/// `tar::Archive::entries` over `flate2::read::GzDecoder`.
#[verifier::external_body]
fn walk_gzipped_tar(bytes: &[u8]) -> (entries: Vec<Result<TapedEntry, String>>)
    ensures
        taped_values(entries@) == gzipped_tar_entries(bytes@),
{
    match tar::Archive::new(GzDecoder::new(bytes)).entries() {
        Ok(entries) => entries.map(|entry| entry.map_err(|e| e.to_string()).map(|entry| TapedEntry {
            is_file: entry.header().entry_type().is_file(),
            name: String::from_utf8_lossy(&entry.path_bytes()).into_owned().into_bytes(),
            size: entry.header().size().ok(),
        })).collect(),
        Err(e) => vec![Err(e.to_string())],
    }
}

/// The entry of `tar::Archive::entries` at an index, read through
/// `std::io::Read::take`.
#[verifier::external_body]
fn read_tar(bytes: &[u8], index: usize, most: u64) -> (read: Option<Result<Vec<u8>, String>>)
    ensures
        read_value(read) == tar_content(bytes@, index as nat, most as nat),
{
    let mut archive = tar::Archive::new(bytes);
    let entry = archive.entries().ok()?.nth(index)?;
    let mut content = Vec::new();
    let read = entry.and_then(|entry| entry.take(most).read_to_end(&mut content));
    Some(read.map(|_| content).map_err(|e| e.to_string()))
}

/// The entry of `tar::Archive::entries` at an index, over
/// `flate2::read::GzDecoder`, read through `std::io::Read::take`.
#[verifier::external_body]
fn read_gzipped_tar(bytes: &[u8], index: usize, most: u64) -> (read: Option<
    Result<Vec<u8>, String>,
>)
    ensures
        read_value(read) == gzipped_tar_content(bytes@, index as nat, most as nat),
{
    let mut archive = tar::Archive::new(GzDecoder::new(bytes));
    let entry = archive.entries().ok()?.nth(index)?;
    let mut content = Vec::new();
    let read = entry.and_then(|entry| entry.take(most).read_to_end(&mut content));
    Some(read.map(|_| content).map_err(|e| e.to_string()))
}

/// Do these bytes start as compressed ones do?
pub open spec fn starts_gzipped(bytes: Seq<u8>) -> bool {
    bytes.len() >= 2 && bytes[0] == 0x1F && bytes[1] == 0x8B
}

/// The entries of a tape archive, which may be compressed.
pub open spec fn taped_entries(bytes: Seq<u8>) -> Seq<TapedValue> {
    if starts_gzipped(bytes) {
        gzipped_tar_entries(bytes)
    } else {
        tar_entries(bytes)
    }
}

/// The start of an entry of a tape archive, which may be compressed.
pub open spec fn taped_content(bytes: Seq<u8>, index: nat, most: nat) -> Option<
    Result<Seq<u8>, Seq<char>>,
> {
    if starts_gzipped(bytes) {
        gzipped_tar_content(bytes, index, most)
    } else {
        tar_content(bytes, index, most)
    }
}

/// Walks through a tape archive, which may be compressed.
fn walk(bytes: &[u8]) -> (entries: Vec<Result<TapedEntry, String>>)
    ensures
        taped_values(entries@) == taped_entries(bytes@),
{
    if is_gzipped(bytes) {
        walk_gzipped_tar(bytes)
    } else {
        walk_tar(bytes)
    }
}

fn read_at(bytes: &[u8], index: usize, most: u64) -> (read: Option<Result<Vec<u8>, String>>)
    ensures
        read_value(read) == taped_content(bytes@, index as nat, most as nat),
{
    if is_gzipped(bytes) {
        read_gzipped_tar(bytes, index, most)
    } else {
        read_tar(bytes, index, most)
    }
}

/// What the first `n` entries list, or why one of them cannot be read. A size
/// that cannot be read counts as none.
pub open spec fn listed_up_to(entries: Seq<TapedValue>, n: nat) -> Result<
    Seq<ListedValue>,
    Seq<char>,
>
    decreases n,
{
    if n == 0 {
        Ok(Seq::empty())
    } else {
        match listed_up_to(entries, (n - 1) as nat) {
            Err(reason) => Err(reason),
            Ok(before) => match entries[n - 1] {
                Err(reason) => Err(reason),
                Ok((is_file, name, size)) => Ok(
                    before.push(
                        (
                            is_file,
                            Some(name),
                            match size {
                                Some(size) => size,
                                None => 0,
                            },
                        ),
                    ),
                ),
            },
        }
    }
}

/// What a tape archive lists, or why it cannot be read.
pub open spec fn tar_listing(bytes: Seq<u8>) -> Result<Seq<ListedValue>, Seq<char>> {
    listed_up_to(taped_entries(bytes), taped_entries(bytes).len())
}

proof fn lemma_first_refusal(entries: Seq<TapedValue>, n: nat, m: nat, reason: Seq<char>)
    requires
        n <= m,
        listed_up_to(entries, n) == Err::<Seq<ListedValue>, Seq<char>>(reason),
    ensures
        listed_up_to(entries, m) == Err::<Seq<ListedValue>, Seq<char>>(reason),
    decreases m - n,
{
    if n < m {
        lemma_first_refusal(entries, n, (m - 1) as nat, reason);
    }
}

/// Lists a `.cbt`.
pub fn list_tar(bytes: &[u8]) -> (listed: Result<Vec<ListedEntry>, String>)
    ensures
        match tar_listing(bytes@) {
            Ok(all) => listed matches Ok(found) && listed_values(found@) == all,
            Err(reason) => listed matches Err(text) && text@ == reason,
        },
{
    let entries = walk(bytes);
    let ghost values = taped_values(entries@);
    let mut listed: Vec<ListedEntry> = Vec::new();
    assert(listed_values(listed@) =~= Seq::empty());
    let mut i: usize = 0;
    while i < entries.len()
        invariant
            i <= entries@.len(),
            values == taped_values(entries@),
            values == taped_entries(bytes@),
            listed_up_to(values, i as nat) == Ok::<Seq<ListedValue>, Seq<char>>(
                listed_values(listed@),
            ),
        decreases entries@.len() - i,
    {
        assert(values[i as int] == taped_value(entries@[i as int]));
        match &entries[i] {
            Ok(entry) => {
                let ghost before = listed_values(listed@);
                let size: u64 = match entry.size {
                    Some(size) => size,
                    None => 0,
                };
                let found = ListedEntry {
                    is_file: entry.is_file,
                    name: Some(copy_bytes(entry.name.as_slice())),
                    size,
                };
                let ghost value = listed_value(found);
                listed.push(found);
                assert(listed_values(listed@) =~= before.push(value));
            },
            Err(reason) => {
                proof {
                    lemma_first_refusal(values, (i + 1) as nat, values.len(), reason@);
                }
                return Err(owned(reason.as_str()));
            },
        }
        i += 1;
    }
    Ok(listed)
}

/// Where the first entry of a name stands, from `from` on; or why one before it
/// cannot be read.
pub open spec fn first_named(entries: Seq<TapedValue>, name: Seq<u8>, from: int) -> Result<
    Option<nat>,
    Seq<char>,
>
    decreases entries.len() - from,
{
    if !(0 <= from < entries.len()) {
        Ok(None)
    } else {
        match entries[from] {
            Err(reason) => Err(reason),
            Ok((_, found, _)) => if found == name {
                Ok(Some(from as nat))
            } else {
                first_named(entries, name, from + 1)
            },
        }
    }
}

/// The content of the entry of a tape archive that has a name, if there is one;
/// or why it cannot be read.
pub open spec fn tar_entry(bytes: Seq<u8>, name: Seq<u8>) -> Result<Option<Seq<u8>>, Seq<char>> {
    match first_named(taped_entries(bytes), name, 0) {
        Err(reason) => Err(reason),
        Ok(None) => Ok(None),
        Ok(Some(index)) => match taped_content(bytes, index, (MAX_ENTRY_BYTES + 1) as nat) {
            None => Ok(None),
            Some(read) => match within_bound(read) {
                Ok(content) => Ok(Some(content)),
                Err(reason) => Err(reason),
            },
        },
    }
}

fn find_named(entries: &[Result<TapedEntry, String>], name: &[u8]) -> (found: Result<
    Option<usize>,
    String,
>)
    ensures
        match first_named(taped_values(entries@), name@, 0) {
            Ok(Some(index)) => found matches Ok(Some(at)) && at == index,
            Ok(None) => found matches Ok(None),
            Err(reason) => found matches Err(text) && text@ == reason,
        },
{
    let ghost values = taped_values(entries@);
    let mut i: usize = 0;
    while i < entries.len()
        invariant
            i <= entries@.len(),
            values == taped_values(entries@),
            first_named(values, name@, i as int) == first_named(values, name@, 0),
        decreases entries@.len() - i,
    {
        assert(values[i as int] == taped_value(entries@[i as int]));
        match &entries[i] {
            Ok(entry) => {
                if same_bytes(entry.name.as_slice(), name) {
                    return Ok(Some(i));
                }
            },
            Err(reason) => return Err(owned(reason.as_str())),
        }
        i += 1;
    }
    Ok(None)
}

/// What is said of an archive that cannot be read.
fn broken(path: &[u8], reason: String) -> (text: String)
    ensures
        text@ == list_fault_text(ListFault::Unreadable(lossy_utf8(path@), reason@)),
{
    ListError::Unreadable { path: text_from_utf8_lossy(path), reason }.message()
}

/// Finds the first entry of a `.cbt` that has a name, and reads it within its
/// bound. What goes wrong is said of the archive.
pub fn find_in_tar(path: &[u8], bytes: &[u8], name: &[u8]) -> (found: Result<
    Option<Vec<u8>>,
    String,
>)
    ensures
        match tar_entry(bytes@, name@) {
            Ok(Some(content)) => found matches Ok(Some(given)) && given@ == content,
            Ok(None) => found matches Ok(None),
            Err(reason) => found matches Err(text) && text@ == list_fault_text(
                ListFault::Unreadable(lossy_utf8(path@), reason),
            ),
        },
{
    let entries = walk(bytes);
    let index: usize = match find_named(entries.as_slice(), name) {
        Ok(Some(index)) => index,
        Ok(None) => return Ok(None),
        Err(reason) => return Err(broken(path, reason)),
    };
    let read = match read_at(bytes, index, MAX_ENTRY_BYTES + 1) {
        Some(Ok(read)) => read,
        Some(Err(reason)) => return Err(broken(path, reason)),
        None => return Ok(None),
    };
    match read_within(read, MAX_ENTRY_BYTES) {
        Ok(content) => Ok(Some(content)),
        Err(reason) => Err(broken(path, reason)),
    }
}

/// The size of one picture of a tape archive, with its name, where the entry can
/// be read and is a picture.
pub open spec fn taped_size(bytes: Seq<u8>, index: nat) -> Option<(Seq<u8>, (u32, u32))> {
    match taped_entries(bytes)[index as int] {
        Err(_) => None,
        Ok((is_file, name, _)) => if is_file && image_entry(name) {
            match taped_content(bytes, index, (MAX_ENTRY_BYTES + 1) as nat) {
                None => None,
                Some(read) => match within_bound(read) {
                    Ok(content) => match header_of(content, None) {
                        Ok(size) => Some((name, size)),
                        Err(_) => None,
                    },
                    Err(_) => None,
                },
            }
        } else {
            None
        },
    }
}

/// The sizes of the pictures among the first `n` entries of a tape archive.
pub open spec fn taped_sizes(bytes: Seq<u8>, n: nat) -> Seq<(Seq<u8>, (u32, u32))>
    decreases n,
{
    if n == 0 {
        Seq::empty()
    } else {
        match taped_size(bytes, (n - 1) as nat) {
            Some(found) => taped_sizes(bytes, (n - 1) as nat).push(found),
            None => taped_sizes(bytes, (n - 1) as nat),
        }
    }
}

/// Measures every picture of a `.cbt`. What cannot be read is not measured.
pub fn measure_tar(path: &[u8], bytes: &[u8]) -> (measured: Measurements)
    ensures
        measured@ == taped_sizes(bytes@, taped_entries(bytes@).len()),
{
    let entries = walk(bytes);
    let ghost values = taped_values(entries@);
    let mut measured = Measurements::new();
    assert(measured@ =~= Seq::empty());
    let mut i: usize = 0;
    while i < entries.len()
        invariant
            i <= entries@.len(),
            values == taped_values(entries@),
            values == taped_entries(bytes@),
            measured@ == taped_sizes(bytes@, i as nat),
        decreases entries@.len() - i,
    {
        assert(values[i as int] == taped_value(entries@[i as int]));
        if let Ok(entry) = &entries[i] {
            if entry.is_file && is_image_entry(entry.name.as_slice()) {
                if let Some(Ok(read)) = read_at(bytes, i, MAX_ENTRY_BYTES + 1) {
                    if let Ok(kept) = read_within(read, MAX_ENTRY_BYTES) {
                        measured.record(path, entry.name.as_slice(), kept.as_slice());
                    }
                }
            }
        }
        i += 1;
    }
    measured
}

/// A listing has one entry for each of the archive, in their order, under the
/// same name, as long as each of them can be read.
pub proof fn law_every_entry_is_listed(entries: Seq<TapedValue>, n: nat)
    requires
        n <= entries.len(),
    ensures
        listed_up_to(entries, n) is Ok <==> forall|i: int| 0 <= i < n ==> (#[trigger] entries[i]) is Ok,
        listed_up_to(entries, n) matches Ok(listed) ==> listed.len() == n && forall|i: int|
            0 <= i < n ==> {
                let (is_file, name, size) = entries[i]->Ok_0;
                &&& (#[trigger] listed[i]).0 == is_file
                &&& listed[i].1 == Some(name)
                &&& listed[i].2 == match size {
                    Some(bytes) => bytes,
                    None => 0,
                }
            },
    decreases n,
{
    if n > 0 {
        law_every_entry_is_listed(entries, (n - 1) as nat);
        if listed_up_to(entries, n) is Ok {
            assert(entries[n - 1] is Ok);
        }
    }
}

/// The entry that is read for a name is the first that has it, as long as those
/// before it can be read.
pub proof fn law_the_first_entry_of_a_name_is_read(entries: Seq<TapedValue>, name: Seq<u8>, at: int)
    requires
        0 <= at < entries.len(),
        entries[at] matches Ok(entry) && entry.1 == name,
        forall|i: int|
            0 <= i < at ==> (#[trigger] entries[i] matches Ok(entry) && entry.1 != name),
    ensures
        first_named(entries, name, 0) == Ok::<Option<nat>, Seq<char>>(Some(at as nat)),
{
    lemma_first_named(entries, name, at, 0);
}

proof fn lemma_first_named(entries: Seq<TapedValue>, name: Seq<u8>, at: int, from: int)
    requires
        0 <= from <= at < entries.len(),
        entries[at] matches Ok(entry) && entry.1 == name,
        forall|i: int|
            from <= i < at ==> (#[trigger] entries[i] matches Ok(entry) && entry.1 != name),
    ensures
        first_named(entries, name, from) == Ok::<Option<nat>, Seq<char>>(Some(at as nat)),
    decreases at - from,
{
    if from < at {
        assert(entries[from] is Ok);
        lemma_first_named(entries, name, at, from + 1);
    }
}

/// A name that no entry has is not found, as long as all of them can be read.
pub proof fn law_a_name_that_is_not_there_is_not_found(
    entries: Seq<TapedValue>,
    name: Seq<u8>,
    from: int,
)
    requires
        0 <= from <= entries.len(),
        forall|i: int|
            from <= i < entries.len() ==> (#[trigger] entries[i] matches Ok(entry) && entry.1
                != name),
    ensures
        first_named(entries, name, from) == Ok::<Option<nat>, Seq<char>>(None),
    decreases entries.len() - from,
{
    if from < entries.len() {
        assert(entries[from] is Ok);
        law_a_name_that_is_not_there_is_not_found(entries, name, from + 1);
    }
}

/// Every picture that can be measured has its size, and nothing else has one.
pub proof fn law_pictures_have_their_sizes(bytes: Seq<u8>, n: nat, found: (Seq<u8>, (u32, u32)))
    ensures
        taped_sizes(bytes, n).contains(found) <==> exists|i: nat|
            i < n && #[trigger] taped_size(bytes, i) == Some(found),
    decreases n,
{
    if n > 0 {
        let before = taped_sizes(bytes, (n - 1) as nat);
        law_pictures_have_their_sizes(bytes, (n - 1) as nat, found);
        match taped_size(bytes, (n - 1) as nat) {
            Some(last) => {
                let all = before.push(last);
                assert(all[before.len() as int] == last);
                if before.contains(found) {
                    let i = before.index_of(found);
                    assert(all[i] == found);
                }
            },
            None => {},
        }
    }
}

/// What is read for a name is the content of an entry that has the name, all of it,
/// and no more than an entry may have.
pub proof fn law_an_entry_is_read_by_its_name(bytes: Seq<u8>, name: Seq<u8>)
    ensures
        tar_entry(bytes, name) matches Ok(Some(content)) ==> content.len() <= MAX_ENTRY_BYTES
            && exists|index: nat|
            index < taped_entries(bytes).len() && (taped_entries(
                bytes,
            )[index as int] matches Ok(entry) && entry.1 == name) && #[trigger] taped_content(
                bytes,
                index,
                (MAX_ENTRY_BYTES + 1) as nat,
            ) == Some(Ok::<Seq<u8>, Seq<char>>(content)),
{
    lemma_named(taped_entries(bytes), name, 0);
    match first_named(taped_entries(bytes), name, 0) {
        Ok(Some(index)) => {
            let read = taped_content(bytes, index, (MAX_ENTRY_BYTES + 1) as nat);
            if let Some(found) = read {
                law_entries_stay_within_their_bound(found);
            }
        },
        _ => {},
    }
}

proof fn lemma_named(entries: Seq<TapedValue>, name: Seq<u8>, from: int)
    requires
        0 <= from,
    ensures
        first_named(entries, name, from) matches Ok(Some(index)) ==> index < entries.len() && (
        entries[index as int] matches Ok(entry) && entry.1 == name),
    decreases entries.len() - from,
{
    if from < entries.len() {
        lemma_named(entries, name, from + 1);
    }
}

} // verus!
