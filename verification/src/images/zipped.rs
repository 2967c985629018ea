//! A `.cbz` over its bytes: what it lists, one of its entries, and the sizes of
//! its pictures.

use crate::bytes::{text_bytes, utf8};
use crate::images::archive::{
    image_entry, is_image_entry, read_within, ListedEntry, MAX_ENTRY_BYTES,
};
use crate::images::decode::header_of;
use crate::images::measure::Measurements;
use crate::text::decimal_text;
use crate::zip_reader::{
    archive_bytes, archive_fault, count_entries, entry_at, entry_count, entry_header, entry_named,
    entry_prefix, find_entry, open_archive, raw_entry_at, raw_entry_header, read_entry,
};
use vstd::prelude::*;

verus! {

/// What an archive lists, by its value: is it a file, its name where it can be
/// read, and the size that it claims.
pub type ListedValue = (bool, Option<Seq<u8>>, u64);

/// Listed entries, each by its value.
pub open spec fn listed_values(listed: Seq<ListedEntry>) -> Seq<ListedValue> {
    listed.map_values(|entry: ListedEntry| listed_value(entry))
}

/// A listed entry, by its value.
pub open spec fn listed_value(entry: ListedEntry) -> ListedValue {
    (
        entry.is_file,
        match entry.name {
            Some(name) => Some(name@),
            None => None,
        },
        entry.size,
    )
}

/// What the first `n` entries of an archive are, or why one cannot be found.
pub open spec fn entries_up_to(bytes: Seq<u8>, n: nat) -> Result<Seq<ListedValue>, Seq<char>>
    decreases n,
{
    if n == 0 {
        Ok(Seq::empty())
    } else {
        match entries_up_to(bytes, (n - 1) as nat) {
            Err(reason) => Err(reason),
            Ok(before) => match raw_entry_at(bytes, (n - 1) as nat) {
                Err(reason) => Err(reason),
                Ok(entry) => Ok(
                    before.push((!entry.is_dir, Some(utf8(entry.name)), entry.size)),
                ),
            },
        }
    }
}

/// What an archive lists, or why it cannot be read.
pub open spec fn zip_listing(bytes: Seq<u8>) -> Result<Seq<ListedValue>, Seq<char>> {
    match archive_fault(bytes) {
        Some(reason) => Err(reason),
        None => entries_up_to(bytes, entry_count(bytes)),
    }
}

proof fn lemma_first_refusal(bytes: Seq<u8>, n: nat, m: nat, reason: Seq<char>)
    requires
        n <= m,
        entries_up_to(bytes, n) == Err::<Seq<ListedValue>, Seq<char>>(reason),
    ensures
        entries_up_to(bytes, m) == Err::<Seq<ListedValue>, Seq<char>>(reason),
    decreases m - n,
{
    if n < m {
        lemma_first_refusal(bytes, n, (m - 1) as nat, reason);
    }
}

/// Lists a `.cbz`. Nothing of it is expanded.
pub fn list_zip(bytes: Vec<u8>) -> (listed: Result<Vec<ListedEntry>, String>)
    ensures
        match zip_listing(bytes@) {
            Ok(all) => listed matches Ok(found) && listed_values(found@) == all,
            Err(reason) => listed matches Err(text) && text@ == reason,
        },
{
    let ghost all = bytes@;
    let mut archive = match open_archive(bytes) {
        Ok(archive) => archive,
        Err(reason) => return Err(reason),
    };
    let count: usize = count_entries(&archive);
    let mut listed: Vec<ListedEntry> = Vec::new();
    assert(listed_values(listed@) =~= Seq::empty());
    let mut i: usize = 0;
    while i < count
        invariant
            i <= count,
            all == bytes@,
            archive_bytes(archive) == all,
            archive_fault(all) is None,
            count == entry_count(all),
            entries_up_to(all, i as nat) == Ok::<Seq<ListedValue>, Seq<char>>(
                listed_values(listed@),
            ),
        decreases count - i,
    {
        match raw_entry_header(&mut archive, i) {
            Ok(entry) => {
                let ghost before = listed_values(listed@);
                let name = text_bytes(entry.name.as_str());
                let found = ListedEntry {
                    is_file: !entry.is_dir,
                    name: Some(name),
                    size: entry.size,
                };
                let ghost value = listed_value(found);
                listed.push(found);
                assert(listed_values(listed@) =~= before.push(value));
            },
            Err(reason) => {
                proof {
                    lemma_first_refusal(all, (i + 1) as nat, count as nat, reason@);
                }
                return Err(reason);
            },
        }
        i += 1;
    }
    Ok(listed)
}

/// The bytes of an entry that were read one past its bound, unless that byte was
/// there.
pub open spec fn within_bound(read: Result<Seq<u8>, Seq<char>>) -> Result<Seq<u8>, Seq<char>> {
    match read {
        Ok(bytes) if bytes.len() > MAX_ENTRY_BYTES => Err(
            "the entry expands past the "@ + decimal_text(MAX_ENTRY_BYTES as nat)
                + "-byte limit"@,
        ),
        _ => read,
    }
}

/// What is read of the entry of an archive that has a name, if there is one.
pub open spec fn zip_entry(bytes: Seq<u8>, name: Seq<char>) -> Result<
    Option<Seq<u8>>,
    Seq<char>,
> {
    match archive_fault(bytes) {
        Some(reason) => Err(reason),
        None => match entry_named(bytes, name) {
            None => Ok(None),
            Some(index) => match within_bound(
                entry_prefix(bytes, index, (MAX_ENTRY_BYTES + 1) as nat),
            ) {
                Ok(read) => Ok(Some(read)),
                Err(reason) => Err(reason),
            },
        },
    }
}

/// Finds the entry of a `.cbz` that has a name, and reads it within its bound.
pub fn find_in_zip(bytes: Vec<u8>, name: &str) -> (found: Result<Option<Vec<u8>>, String>)
    ensures
        match zip_entry(bytes@, name@) {
            Ok(Some(read)) => found matches Ok(Some(given)) && given@ == read,
            Ok(None) => found matches Ok(None),
            Err(reason) => found matches Err(text) && text@ == reason,
        },
{
    let mut archive = match open_archive(bytes) {
        Ok(archive) => archive,
        Err(reason) => return Err(reason),
    };
    let index: usize = match find_entry(&archive, name) {
        Some(index) => index,
        None => return Ok(None),
    };
    let read = match read_entry(&mut archive, index, MAX_ENTRY_BYTES + 1) {
        Ok(read) => read,
        Err(reason) => return Err(reason),
    };
    match read_within(read, MAX_ENTRY_BYTES) {
        Ok(kept) => Ok(Some(kept)),
        Err(reason) => Err(reason),
    }
}

/// The size of one picture of an archive, with its name, where the entry can be
/// read and is a picture.
pub open spec fn picture_size(bytes: Seq<u8>, index: nat) -> Option<(Seq<u8>, (u32, u32))> {
    match entry_at(bytes, index) {
        Err(_) => None,
        Ok(entry) => if !entry.is_dir && image_entry(utf8(entry.name)) {
            match within_bound(entry_prefix(bytes, index, (MAX_ENTRY_BYTES + 1) as nat)) {
                Ok(read) => match header_of(read, None) {
                    Ok(size) => Some((utf8(entry.name), size)),
                    Err(_) => None,
                },
                Err(_) => None,
            }
        } else {
            None
        },
    }
}

/// The sizes of the pictures among the first `n` entries of an archive.
pub open spec fn picture_sizes(bytes: Seq<u8>, n: nat) -> Seq<(Seq<u8>, (u32, u32))>
    decreases n,
{
    if n == 0 {
        Seq::empty()
    } else {
        match picture_size(bytes, (n - 1) as nat) {
            Some(found) => picture_sizes(bytes, (n - 1) as nat).push(found),
            None => picture_sizes(bytes, (n - 1) as nat),
        }
    }
}

/// Measures every picture of a `.cbz` in one pass over it. What cannot be read is
/// not measured.
pub fn measure_zip(path: &[u8], bytes: Vec<u8>) -> (measured: Measurements)
    ensures
        measured@ == (if archive_fault(bytes@) is Some {
            Seq::empty()
        } else {
            picture_sizes(bytes@, entry_count(bytes@))
        }),
{
    let ghost all = bytes@;
    let mut measured = Measurements::new();
    assert(measured@ =~= Seq::empty());
    let mut archive = match open_archive(bytes) {
        Ok(archive) => archive,
        Err(_) => return measured,
    };
    let count: usize = count_entries(&archive);
    let mut i: usize = 0;
    while i < count
        invariant
            i <= count,
            archive_bytes(archive) == all,
            count == entry_count(all),
            measured@ == picture_sizes(all, i as nat),
        decreases count - i,
    {
        if let Ok(entry) = entry_header(&mut archive, i) {
            let name = text_bytes(entry.name.as_str());
            if !entry.is_dir && is_image_entry(name.as_slice()) {
                if let Ok(read) = read_entry(&mut archive, i, MAX_ENTRY_BYTES + 1) {
                    if let Ok(kept) = read_within(read, MAX_ENTRY_BYTES) {
                        measured.record(path, name.as_slice(), kept.as_slice());
                    }
                }
            }
        }
        i += 1;
    }
    measured
}

/// A listing has one entry for each of the archive, in their order, under the
/// same name, as long as each of them can be found.
pub proof fn law_every_entry_is_listed(bytes: Seq<u8>, n: nat)
    ensures
        entries_up_to(bytes, n) is Ok <==> forall|i: nat|
            i < n ==> (#[trigger] raw_entry_at(bytes, i)) is Ok,
        entries_up_to(bytes, n) matches Ok(listed) ==> listed.len() == n && forall|i: nat|
            i < n ==> {
                let entry = (#[trigger] raw_entry_at(bytes, i))->Ok_0;
                &&& listed[i as int].0 == !entry.is_dir
                &&& listed[i as int].1 == Some(utf8(entry.name))
                &&& listed[i as int].2 == entry.size
            },
    decreases n,
{
    if n > 0 {
        law_every_entry_is_listed(bytes, (n - 1) as nat);
        if entries_up_to(bytes, n) is Ok {
            assert(raw_entry_at(bytes, (n - 1) as nat) is Ok);
        }
    }
}

/// What is handed on of an entry is all that was read of it and within the
/// bound, and what was read within the bound is handed on.
pub proof fn law_entries_stay_within_their_bound(read: Result<Seq<u8>, Seq<char>>)
    ensures
        within_bound(read) matches Ok(bytes) ==> bytes.len() <= MAX_ENTRY_BYTES && read == Ok::<
            Seq<u8>,
            Seq<char>,
        >(bytes),
        read matches Ok(bytes) && bytes.len() <= MAX_ENTRY_BYTES ==> within_bound(read) is Ok,
{
}

/// Every picture that can be measured has its size, and nothing else has one.
pub proof fn law_pictures_have_their_sizes(bytes: Seq<u8>, n: nat, found: (Seq<u8>, (u32, u32)))
    ensures
        picture_sizes(bytes, n).contains(found) <==> exists|i: nat|
            i < n && #[trigger] picture_size(bytes, i) == Some(found),
    decreases n,
{
    if n > 0 {
        let before = picture_sizes(bytes, (n - 1) as nat);
        law_pictures_have_their_sizes(bytes, (n - 1) as nat, found);
        match picture_size(bytes, (n - 1) as nat) {
            Some(last) => {
                let all = before.push(last);
                assert(all[before.len() as int] == last);
                if before.contains(found) {
                    let i = before.index_of(found);
                    assert(all[i] == found);
                }
            },
            None => {},
        }
    }
}

/// What is read for a name is the content of the entry that has the name, all of it,
/// and no more than an entry may have.
pub proof fn law_an_entry_is_read_by_its_name(bytes: Seq<u8>, name: Seq<char>)
    ensures
        zip_entry(bytes, name) matches Ok(Some(content)) ==> {
            &&& content.len() <= MAX_ENTRY_BYTES
            &&& archive_fault(bytes) is None
            &&& entry_named(bytes, name) matches Some(index) && entry_prefix(
                bytes,
                index,
                (MAX_ENTRY_BYTES + 1) as nat,
            ) == Ok::<Seq<u8>, Seq<char>>(content)
        },
        zip_entry(bytes, name) == Ok::<Option<Seq<u8>>, Seq<char>>(None) <==> archive_fault(bytes)
            is None && entry_named(bytes, name) is None,
{
}

} // verus!
