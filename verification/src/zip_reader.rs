//! Reading ZIP archives that are held in memory.

use std::io::Read;
use vstd::prelude::*;

verus! {

/// An open archive of the `zip` crate.
#[verifier::external_type_specification]
#[verifier::external_body]
#[verifier::reject_recursive_types(R)]
pub struct ExZipArchive<R>(zip::ZipArchive<R>);

/// A reading position over bytes.
#[verifier::external_type_specification]
#[verifier::external_body]
#[verifier::reject_recursive_types(T)]
pub struct ExCursor<T>(std::io::Cursor<T>);

/// An archive over bytes in memory.
pub type MemoryArchive = zip::ZipArchive<std::io::Cursor<Vec<u8>>>;

/// What an archive says of one of its entries. The sizes are claims.
pub struct EntryHeader {
    pub name: String,
    pub is_dir: bool,
    pub unix_mode: Option<u32>,
    pub size: u64,
    pub compressed: u64,
}

/// An entry header, as a value.
#[verifier::ext_equal]
pub struct EntryFacts {
    pub name: Seq<char>,
    pub is_dir: bool,
    pub unix_mode: Option<u32>,
    pub size: u64,
    pub compressed: u64,
}

impl View for EntryHeader {
    type V = EntryFacts;

    open spec fn view(&self) -> EntryFacts {
        EntryFacts {
            name: self.name@,
            is_dir: self.is_dir,
            unix_mode: self.unix_mode,
            size: self.size,
            compressed: self.compressed,
        }
    }
}

/// The bytes that an archive was opened over.
pub uninterp spec fn archive_bytes(archive: MemoryArchive) -> Seq<u8>;

/// Why `ZipArchive::new` refuses these bytes, in words, or nothing where it
/// reads them.
pub uninterp spec fn archive_fault(bytes: Seq<u8>) -> Option<Seq<char>>;

/// How many entries `ZipArchive::len` counts in an archive over these bytes.
pub uninterp spec fn entry_count(bytes: Seq<u8>) -> nat;

/// What `ZipArchive::by_index` answers for one entry: its header, or in words
/// why it cannot be read.
pub uninterp spec fn entry_at(bytes: Seq<u8>, index: nat) -> Result<EntryFacts, Seq<char>>;

/// What `ZipArchive::by_index_raw` answers for one entry: its header, whatever it
/// is packed with, or in words why it cannot be found.
pub uninterp spec fn raw_entry_at(bytes: Seq<u8>, index: nat) -> Result<EntryFacts, Seq<char>>;

/// Which entry `ZipArchive::index_for_name` finds under a name.
pub uninterp spec fn entry_named(bytes: Seq<u8>, name: Seq<char>) -> Option<nat>;

/// What reading one entry gives when no more than `most` bytes are taken: those
/// bytes, or in words why the entry cannot be read.
pub uninterp spec fn entry_prefix(bytes: Seq<u8>, index: nat, most: nat) -> Result<
    Seq<u8>,
    Seq<char>,
>;

/// `zip::ZipArchive::new` over a cursor: reads the central directory. The
/// archive is one over the bytes that it was given.
#[verifier::external_body]
pub(crate) fn open_archive(bytes: Vec<u8>) -> (opened: Result<MemoryArchive, String>)
    ensures
        match opened {
            Ok(archive) => archive_fault(bytes@) is None && archive_bytes(archive) == bytes@,
            Err(reason) => archive_fault(bytes@) == Some(reason@),
        },
{
    zip::ZipArchive::new(std::io::Cursor::new(bytes)).map_err(|error| error.to_string())
}

/// `zip::ZipArchive::len`.
#[verifier::external_body]
pub(crate) fn count_entries(archive: &MemoryArchive) -> (count: usize)
    ensures
        count == entry_count(archive_bytes(*archive)),
{
    archive.len()
}

/// `zip::ZipArchive::by_index`, and the name, kind, mode and sizes that the
/// entry reports. The archive stays one over the same bytes.
#[verifier::external_body]
pub(crate) fn entry_header(archive: &mut MemoryArchive, index: usize) -> (header: Result<
    EntryHeader,
    String,
>)
    ensures
        archive_bytes(*final(archive)) == archive_bytes(*old(archive)),
        match header {
            Ok(found) => entry_at(archive_bytes(*old(archive)), index as nat) == Ok::<
                EntryFacts,
                Seq<char>,
            >(found@),
            Err(reason) => entry_at(archive_bytes(*old(archive)), index as nat) == Err::<
                EntryFacts,
                Seq<char>,
            >(reason@),
        },
{
    let entry = archive.by_index(index).map_err(|error| error.to_string())?;
    Ok(EntryHeader {
        name: entry.name().to_string(),
        is_dir: entry.is_dir(),
        unix_mode: entry.unix_mode(),
        size: entry.size(),
        compressed: entry.compressed_size(),
    })
}

/// `zip::ZipArchive::by_index_raw`, and the name, kind, mode and sizes that the
/// entry reports. The archive stays one over the same bytes.
#[verifier::external_body]
pub(crate) fn raw_entry_header(archive: &mut MemoryArchive, index: usize) -> (header: Result<
    EntryHeader,
    String,
>)
    ensures
        archive_bytes(*final(archive)) == archive_bytes(*old(archive)),
        match header {
            Ok(found) => raw_entry_at(archive_bytes(*old(archive)), index as nat) == Ok::<
                EntryFacts,
                Seq<char>,
            >(found@),
            Err(reason) => raw_entry_at(archive_bytes(*old(archive)), index as nat) == Err::<
                EntryFacts,
                Seq<char>,
            >(reason@),
        },
{
    let entry = archive.by_index_raw(index).map_err(|error| error.to_string())?;
    Ok(EntryHeader {
        name: entry.name().to_string(),
        is_dir: entry.is_dir(),
        unix_mode: entry.unix_mode(),
        size: entry.size(),
        compressed: entry.compressed_size(),
    })
}

/// `zip::ZipArchive::index_for_name`.
#[verifier::external_body]
pub(crate) fn find_entry(archive: &MemoryArchive, name: &str) -> (index: Option<usize>)
    ensures
        match index {
            Some(found) => entry_named(archive_bytes(*archive), name@) == Some(found as nat),
            None => entry_named(archive_bytes(*archive), name@) is None,
        },
{
    archive.index_for_name(name)
}

/// `zip::ZipArchive::by_index` and `read_to_end` over no more than `most` bytes
/// of what the entry expands to. The archive stays one over the same bytes.
#[verifier::external_body]
pub(crate) fn read_entry(archive: &mut MemoryArchive, index: usize, most: u64) -> (read: Result<
    Vec<u8>,
    String,
>)
    ensures
        archive_bytes(*final(archive)) == archive_bytes(*old(archive)),
        match read {
            Ok(bytes) => bytes@.len() <= most && entry_prefix(
                archive_bytes(*old(archive)),
                index as nat,
                most as nat,
            ) == Ok::<Seq<u8>, Seq<char>>(bytes@),
            Err(reason) => entry_prefix(
                archive_bytes(*old(archive)),
                index as nat,
                most as nat,
            ) == Err::<Seq<u8>, Seq<char>>(reason@),
        },
{
    let mut bytes = Vec::new();
    let entry = archive.by_index(index).map_err(|error| error.to_string())?;
    entry.take(most).read_to_end(&mut bytes).map_err(|error| error.to_string())?;
    Ok(bytes)
}

} // verus!
