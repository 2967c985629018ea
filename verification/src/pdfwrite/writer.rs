//! Appending an update to an existing PDF.
//!
//! An incremental update leaves every byte of a file where it is and adds new
//! versions of some objects behind it, together with cross-reference data that
//! points at them and back at the data it extends.

use crate::bytes::{
    decimal, occurs_at, push_bytes, push_decimal, push_repeated, push_text, repeated, stands_at,
    text_bytes, utf8,
};
use crate::number::{digits_to_number, digits_value, is_digit, is_digit_byte};
use crate::pdfread::dictionary::{entry, lookup, Entries};
use crate::pdfread::xref::{
    chain_at, chain_highest, highest_in_chain, number_entry, number_under, read_chain, read_section,
    section_at, MAX_SECTIONS,
};
use crate::pdfwrite::error::PdfWriteError;
use crate::pdfwrite::object::{
    entry_values, hex_string_bytes, item_values, lemma_container_values, pdf_bytes,
    push_hex_string, push_reference, reference_bytes, PdfObject, PdfValue,
};
use crate::pdfwrite::section::{
    among, first_far, index_array, index_of_rows, law_rows_are_ordered, lemma_at_least, order_rows,
    ordered, rows_of, rows_to_data, stream_data, table_bytes, write_xref_table, Place, Row,
};
use crate::pdfwrite::tokenizer::is_space;
use crate::pdfwrite::tokenizer::is_space_byte;
use crate::text::{decimal_text, owned, push_str};
use vstd::prelude::*;
use vstd::slice::slice_subrange;

pub use crate::pdfread::xref::XRefKind;

verus! {

/// Where the placeholders of a signature stand.
#[derive(Debug, Clone, Copy, PartialEq, Eq, Structural)]
pub struct PlaceholderOffsets {
    /// Offset of the `[` of `/ByteRange`.
    pub byterange_start: u64,
    /// Offset of the `<` of `/Contents`.
    pub sig_start: u64,
    /// Offset just past the `>` of `/Contents`.
    pub sig_end: u64,
    /// How many hexadecimal digits are reserved for the signature.
    pub bytes_reserved: usize,
}

impl PlaceholderOffsets {
    /// A reservation holds whole bytes, so it has an even number of digits.
    pub fn validate(&self) -> (valid: Result<(), PdfWriteError>)
        ensures
            valid == if self.bytes_reserved % 2 == 0 {
                Ok::<(), PdfWriteError>(())
            } else {
                Err(PdfWriteError::OddReservationSize(self.bytes_reserved))
            },
    {
        if self.bytes_reserved % 2 != 0 {
            return Err(PdfWriteError::OddReservationSize(self.bytes_reserved));
        }
        Ok(())
    }
}

/// How many bytes the `/ByteRange` placeholder has.
pub const BYTE_RANGE_WIDTH: usize = 62;

/// The `/ByteRange` array: the two spans that a signature covers, each by its
/// offset and its length.
pub open spec fn byte_range_bytes(sig_start: nat, sig_end: nat, rest: nat) -> Seq<u8> {
    utf8("[0 "@) + decimal(sig_start) + utf8(" "@) + decimal(sig_end) + utf8(" "@) + decimal(rest)
        + utf8("]"@)
}

/// A byte string with others written over it from `at` on. Where that is past
/// the end, the gap is filled with zeros.
pub open spec fn overwritten(bytes: Seq<u8>, at: nat, new: Seq<u8>) -> Seq<u8> {
    Seq::new(
        if bytes.len() < at + new.len() {
            at + new.len()
        } else {
            bytes.len()
        },
        |i: int|
            if at <= i < at + new.len() {
                new[i - at]
            } else if i < bytes.len() {
                bytes[i]
            } else {
                0u8
            },
    )
}

/// Writing in the middle of a byte string leaves the rest of it alone.
pub proof fn law_overwriting_is_local(bytes: Seq<u8>, at: nat, new: Seq<u8>)
    requires
        at + new.len() <= bytes.len(),
    ensures
        overwritten(bytes, at, new).len() == bytes.len(),
        overwritten(bytes, at, new).take(at as int) == bytes.take(at as int),
        overwritten(bytes, at, new).subrange(at as int, (at + new.len()) as int) == new,
        overwritten(bytes, at, new).skip((at + new.len()) as int) == bytes.skip((at + new.len()) as int),
{
    let out = overwritten(bytes, at, new);
    assert(out.take(at as int) =~= bytes.take(at as int));
    assert(out.subrange(at as int, (at + new.len()) as int) =~= new);
    assert(out.skip((at + new.len()) as int) =~= bytes.skip((at + new.len()) as int));
}

/// Writes bytes over others from `at` on.
pub fn overwrite(bytes: &mut Vec<u8>, at: usize, new: &[u8])
    requires
        at + new@.len() <= usize::MAX,
    ensures
        final(bytes)@ == overwritten(old(bytes)@, at as nat, new@),
{
    let ghost before = bytes@;
    let end: usize = at + new.len();
    if bytes.len() < end {
        let missing: usize = end - bytes.len();
        push_repeated(bytes, 0, missing);
    }
    let ghost grown = bytes@;
    let mut i: usize = 0;
    while i < new.len()
        invariant
            i <= new@.len(),
            end == at + new@.len(),
            end <= bytes@.len(),
            bytes@.len() == grown.len(),
            forall|j: int| 0 <= j < bytes@.len() ==> #[trigger] bytes@[j] == if at <= j < at + i {
                new@[j - at]
            } else {
                grown[j]
            },
        decreases new@.len() - i,
    {
        bytes.set(at + i, new[i]);
        i += 1;
    }
    assert(bytes@ =~= overwritten(before, at as nat, new@));
}

/// What is needed to fill in `/ByteRange` once a document is complete.
#[derive(Debug, Clone, Copy, PartialEq, Eq, Structural)]
pub struct BackPatchContext {
    pub byterange_start: u64,
    pub sig_start: u64,
    pub sig_end: u64,
}

impl BackPatchContext {
    /// Writes the offsets over the `/ByteRange` placeholder and fills the rest
    /// of it with spaces. The two spans that a digest covers are everything
    /// before `sig_start` and everything from `sig_end` on.
    pub fn finish(&self, eof: u64, output: &mut Vec<u8>) -> (done: Result<(), PdfWriteError>)
        requires
            self.sig_end <= eof,
            self.byterange_start + BYTE_RANGE_WIDTH <= usize::MAX,
        ensures
            ({
                let range = byte_range_bytes(
                    self.sig_start as nat,
                    self.sig_end as nat,
                    (eof - self.sig_end) as nat,
                );
                if range.len() > BYTE_RANGE_WIDTH {
                    &&& done matches Err(PdfWriteError::ByteRangeOverflow(size))
                    &&& size == range.len()
                    &&& final(output)@ == old(output)@
                } else {
                    &&& done is Ok
                    &&& final(output)@ == overwritten(
                        old(output)@,
                        self.byterange_start as nat,
                        range + repeated(32, (BYTE_RANGE_WIDTH - range.len()) as nat),
                    )
                }
            }),
    {
        let mut range = text_bytes("[0 ");
        push_decimal(&mut range, self.sig_start);
        push_text(&mut range, " ");
        push_decimal(&mut range, self.sig_end);
        push_text(&mut range, " ");
        push_decimal(&mut range, eof - self.sig_end);
        push_text(&mut range, "]");
        let width: usize = range.len();
        if width > BYTE_RANGE_WIDTH {
            return Err(PdfWriteError::ByteRangeOverflow(width));
        }
        push_repeated(&mut range, 32, BYTE_RANGE_WIDTH - width);
        overwrite(output, self.byterange_start as usize, range.as_slice());
        Ok(())
    }
}

/// How far back from the end of a file `startxref` is looked for.
pub const STARTXREF_SEARCH_WINDOW: usize = 4096;

/// The last place between `from` and `at` where `needle` occurs.
pub open spec fn last_occurrence(
    haystack: Seq<u8>,
    needle: Seq<u8>,
    from: int,
    at: int,
) -> Option<int>
    decreases at - from + 1,
{
    if at < from {
        None
    } else if occurs_at(haystack, needle, at) {
        Some(at)
    } else {
        last_occurrence(haystack, needle, from, at - 1)
    }
}

/// The first place at or after `at` that is not whitespace, or the end.
pub open spec fn skip_blank(data: Seq<u8>, at: int) -> int
    decreases data.len() - at,
{
    if at >= data.len() || !is_space(data[at]) {
        at
    } else {
        skip_blank(data, at + 1)
    }
}

/// The first place at or after `at` that is no decimal digit, or the end.
pub open spec fn digits_end(data: Seq<u8>, at: int) -> int
    decreases data.len() - at,
{
    if at >= data.len() || !is_digit(data[at]) {
        at
    } else {
        digits_end(data, at + 1)
    }
}

/// The number behind the last `startxref` near the end of a file.
pub open spec fn startxref_of(bytes: Seq<u8>) -> Option<nat> {
    let window_start = if bytes.len() > STARTXREF_SEARCH_WINDOW {
        bytes.len() - STARTXREF_SEARCH_WINDOW
    } else {
        0
    };
    match last_occurrence(bytes, utf8("startxref"@), window_start, bytes.len() as int) {
        Some(at) => {
            let start = skip_blank(bytes, at + utf8("startxref"@).len());
            let digits = bytes.subrange(start, digits_end(bytes, start));
            if digits.len() > 0 && digits_value(digits) <= u64::MAX {
                Some(digits_value(digits))
            } else {
                None
            }
        },
        None => None,
    }
}

/// The offset that the last `startxref` of a file names.
pub fn find_startxref_offset(bytes: &[u8]) -> (offset: Option<u64>)
    ensures
        match offset {
            Some(n) => startxref_of(bytes@) == Some(n as nat),
            None => startxref_of(bytes@) is None,
        },
{
    let keyword = "startxref".as_bytes();
    let length: usize = bytes.len();
    let window_start: usize = if length > STARTXREF_SEARCH_WINDOW {
        length - STARTXREF_SEARCH_WINDOW
    } else {
        0
    };
    let mut at: usize = length;
    while at > window_start && !stands_at(bytes, keyword, at)
        invariant
            window_start <= at <= length,
            length == bytes@.len(),
            keyword@ == utf8("startxref"@),
            last_occurrence(bytes@, keyword@, window_start as int, at as int) == last_occurrence(
                bytes@,
                keyword@,
                window_start as int,
                length as int,
            ),
        decreases at,
    {
        at -= 1;
    }
    if !stands_at(bytes, keyword, at) {
        assert(last_occurrence(bytes@, keyword@, window_start as int, at - 1) is None);
        return None;
    }
    let ghost found = at as int;
    let mut i: usize = at + keyword.len();
    let ghost from = i as int;
    while i < length && is_space_byte(bytes[i])
        invariant
            from <= i <= length,
            length == bytes@.len(),
            skip_blank(bytes@, i as int) == skip_blank(bytes@, from),
        decreases length - i,
    {
        i += 1;
    }
    let start: usize = i;
    while i < length && is_digit_byte(bytes[i])
        invariant
            start <= i <= length,
            length == bytes@.len(),
            digits_end(bytes@, i as int) == digits_end(bytes@, start as int),
            forall|j: int| start <= j < i ==> is_digit(#[trigger] bytes@[j]),
        decreases length - i,
    {
        i += 1;
    }
    if i == start {
        return None;
    }
    digits_to_number(slice_subrange(bytes, start, i), u64::MAX)
}

/// What the trailer of a file says.
#[derive(Debug)]
pub struct TrailerDict {
    /// Object number and generation of the catalog.
    pub root: Option<(u32, u16)>,
    pub info: Option<(u32, u16)>,
    /// One past the highest object number, as the file declares it; 0 when it
    /// does not.
    pub size: u32,
    pub prev: Option<u64>,
    pub id: Option<Vec<Vec<u8>>>,
    pub has_xref_stm: bool,
}

/// What the trailer of a file says.
pub struct Trailer {
    pub root: Option<(nat, nat)>,
    pub info: Option<(nat, nat)>,
    pub size: nat,
    pub prev: Option<nat>,
    pub id: Option<Seq<Seq<u8>>>,
    pub has_xref_stm: bool,
}

/// A reference as natural numbers.
pub open spec fn reference_view(reference: Option<(u32, u16)>) -> Option<(nat, nat)> {
    match reference {
        Some((obj_num, gen_num)) => Some((obj_num as nat, gen_num as nat)),
        None => None,
    }
}

/// The views of a list of byte strings.
pub open spec fn byte_views(strings: Seq<Vec<u8>>) -> Seq<Seq<u8>> {
    strings.map_values(|bytes: Vec<u8>| bytes@)
}

impl View for TrailerDict {
    type V = Trailer;

    open spec fn view(&self) -> Trailer {
        Trailer {
            root: reference_view(self.root),
            info: reference_view(self.info),
            size: self.size as nat,
            prev: match self.prev {
                Some(prev) => Some(prev as nat),
                None => None,
            },
            id: match self.id {
                Some(id) => Some(byte_views(id@)),
                None => None,
            },
            has_xref_stm: self.has_xref_stm,
        }
    }
}

/// The reference under a key.
pub open spec fn reference_under(entries: Entries, key: Seq<char>) -> Option<(nat, nat)> {
    match lookup(entries, key) {
        Some(PdfValue::IndirectRef { obj_num, gen_num }) => Some((obj_num, gen_num)),
        _ => None,
    }
}

/// The bytes of a value, when it is a string.
pub open spec fn string_of(value: PdfValue) -> Option<Seq<u8>> {
    match value {
        PdfValue::String(bytes) => Some(bytes),
        PdfValue::RawString(bytes) => Some(bytes),
        PdfValue::HexString(bytes) => Some(bytes),
        _ => None,
    }
}

/// The strings among the first `n` items; other items are passed over.
pub open spec fn strings_in(items: Seq<PdfValue>, n: nat) -> Seq<Seq<u8>>
    decreases n,
{
    if n == 0 || n > items.len() {
        Seq::empty()
    } else {
        match string_of(items[n - 1]) {
            Some(bytes) => strings_in(items, (n - 1) as nat).push(bytes),
            None => strings_in(items, (n - 1) as nat),
        }
    }
}

/// What a trailer dictionary says.
pub open spec fn trailer_of(entries: Entries) -> Trailer {
    Trailer {
        root: reference_under(entries, "Root"@),
        info: reference_under(entries, "Info"@),
        size: match number_under(entries, "Size"@) {
            Some(size) => if size <= u32::MAX {
                size
            } else {
                0
            },
            None => 0,
        },
        prev: number_under(entries, "Prev"@),
        id: match lookup(entries, "ID"@) {
            Some(PdfValue::Array(items)) => if strings_in(items, items.len()).len() > 0 {
                Some(strings_in(items, items.len()))
            } else {
                None
            },
            _ => None,
        },
        has_xref_stm: number_under(entries, "XRefStm"@) is Some,
    }
}

/// The reference under a key.
pub fn reference_entry(entries: &[(String, PdfObject)], key: &str) -> (reference: Option<(u32, u16)>)
    ensures
        reference_view(reference) == reference_under(entry_values(entries@), key@),
{
    match entry(entries, key) {
        Some(PdfObject::IndirectRef { obj_num, gen_num }) => Some((*obj_num, *gen_num)),
        _ => None,
    }
}

fn read_id(entries: &[(String, PdfObject)]) -> (id: Option<Vec<Vec<u8>>>)
    ensures
        (match id {
            Some(id) => Some(byte_views(id@)),
            None => None,
        }) == trailer_of(entry_values(entries@)).id,
{
    match entry(entries, "ID") {
        Some(PdfObject::Array(items)) => {
            proof {
                lemma_container_values(PdfObject::Array(*items));
            }
            let ghost values = item_values(items@);
            let mut id: Vec<Vec<u8>> = Vec::new();
            let mut i: usize = 0;
            assert(byte_views(id@) =~= Seq::empty());
            while i < items.len()
                invariant
                    i <= items@.len(),
                    values == item_values(items@),
                    byte_views(id@) == strings_in(values, i as nat),
                decreases items@.len() - i,
            {
                let ghost before = byte_views(id@);
                match &items[i] {
                    PdfObject::String(bytes) | PdfObject::RawString(bytes)
                    | PdfObject::HexString(bytes) => {
                        let copy = crate::bytes::copy_bytes(bytes.as_slice());
                        id.push(copy);
                        assert(byte_views(id@) =~= before.push(bytes@));
                    },
                    _ => {},
                }
                i += 1;
            }
            if id.len() > 0 {
                Some(id)
            } else {
                None
            }
        },
        _ => None,
    }
}

fn read_trailer(entries: &[(String, PdfObject)]) -> (trailer: TrailerDict)
    ensures
        trailer@ == trailer_of(entry_values(entries@)),
{
    let size: u32 = match number_entry(entries, "Size") {
        Some(size) => if size <= u32::MAX as u64 {
            size as u32
        } else {
            0
        },
        None => 0,
    };
    TrailerDict {
        root: reference_entry(entries, "Root"),
        info: reference_entry(entries, "Info"),
        size,
        prev: number_entry(entries, "Prev"),
        id: read_id(entries),
        has_xref_stm: number_entry(entries, "XRefStm").is_some(),
    }
}

/// Why a file cannot be extended.
pub enum OpenRefusal {
    /// No `startxref` can be read.
    NoStartxref,
    /// The cross-reference section cannot be read.
    NoTrailer,
    /// The file mixes both kinds of cross-reference data.
    Hybrid,
    /// `/Size` leaves no object number free.
    Full,
    /// `/Size` is missing or cannot be read.
    NoSize,
}

/// A file that can be extended.
pub struct Opened {
    pub original: Seq<u8>,
    pub prev_startxref: nat,
    pub kind: XRefKind,
    pub trailer: Trailer,
    /// The first object number that is free.
    pub next_object_number: nat,
}

/// The first object number that is free: past the declared size, and past
/// every number that the cross-reference chain speaks of, where the chain can
/// be read.
pub open spec fn first_free(bytes: Seq<u8>, startxref: nat, size: nat) -> nat {
    match chain_at(bytes, startxref, MAX_SECTIONS as nat) {
        Some(sections) => match highest_in_chain(sections) {
            Some(highest) => {
                let past = if highest < u32::MAX {
                    highest + 1
                } else {
                    highest
                };
                if size < past {
                    past
                } else {
                    size
                }
            },
            None => size,
        },
        None => size,
    }
}

/// Whether a file can be extended, and what is known of it then.
pub open spec fn open_outcome(bytes: Seq<u8>) -> Result<Opened, OpenRefusal> {
    match startxref_of(bytes) {
        None => Err(OpenRefusal::NoStartxref),
        Some(at) => match section_at(bytes, at) {
            None => Err(OpenRefusal::NoTrailer),
            Some(section) => {
                let trailer = trailer_of(section.trailer);
                if trailer.has_xref_stm {
                    Err(OpenRefusal::Hybrid)
                } else if trailer.size == u32::MAX {
                    Err(OpenRefusal::Full)
                } else if trailer.size == 0 {
                    Err(OpenRefusal::NoSize)
                } else {
                    Ok(
                        Opened {
                            original: bytes,
                            prev_startxref: at,
                            kind: section.kind,
                            trailer,
                            next_object_number: first_free(bytes, at, trailer.size),
                        },
                    )
                }
            },
        },
    }
}

/// How a refusal is reported.
pub open spec fn open_error(refusal: OpenRefusal, error: PdfWriteError) -> bool {
    match refusal {
        OpenRefusal::NoStartxref => error matches PdfWriteError::ParseError(reason) && reason@
            == "startxref not found"@,
        OpenRefusal::NoTrailer => error matches PdfWriteError::ParseError(reason) && reason@
            == "the cross-reference section could not be read"@,
        OpenRefusal::Hybrid => error is HybridXrefRefused,
        OpenRefusal::Full => error matches PdfWriteError::Unsupported(reason) && reason@
            == "the document's trailer declares /Size 4294967295, which leaves no object number free to allocate; the source document is unchanged"@,
        OpenRefusal::NoSize => error matches PdfWriteError::Unsupported(reason) && reason@
            == "the document's trailer declares /Size 0 (missing or unparseable), so there is no reliable floor for allocating new object numbers; the source document is unchanged"@,
    }
}

/// Appends updates to an existing PDF.
#[derive(Debug)]
pub struct IncrementalWriter<'a> {
    original_bytes: &'a [u8],
    prev_startxref: u64,
    xref_kind: XRefKind,
    trailer_dict: TrailerDict,
    next_object_number: u32,
}

impl<'a> View for IncrementalWriter<'a> {
    type V = Opened;

    closed spec fn view(&self) -> Opened {
        Opened {
            original: self.original_bytes@,
            prev_startxref: self.prev_startxref as nat,
            kind: self.xref_kind,
            trailer: self.trailer_dict@,
            next_object_number: self.next_object_number as nat,
        }
    }
}

impl<'a> IncrementalWriter<'a> {
    /// Opens a PDF to append to it.
    pub fn open(bytes: &'a [u8]) -> (writer: Result<Self, PdfWriteError>)
        ensures
            match open_outcome(bytes@) {
                Ok(opened) => writer matches Ok(found) && found@ == opened,
                Err(refusal) => writer matches Err(error) && open_error(refusal, error),
            },
    {
        let prev_startxref: u64 = match find_startxref_offset(bytes) {
            Some(offset) => offset,
            None => return Err(PdfWriteError::ParseError(owned("startxref not found"))),
        };
        let section = match read_section(bytes, prev_startxref) {
            Some(section) => section,
            None => return Err(
                PdfWriteError::ParseError(owned("the cross-reference section could not be read")),
            ),
        };
        let trailer_dict = read_trailer(section.trailer.as_slice());
        if trailer_dict.has_xref_stm {
            return Err(PdfWriteError::HybridXrefRefused);
        }
        if trailer_dict.size == u32::MAX {
            return Err(
                PdfWriteError::Unsupported(
                    owned(
                        "the document's trailer declares /Size 4294967295, which leaves no object number free to allocate; the source document is unchanged",
                    ),
                ),
            );
        }
        if trailer_dict.size == 0 {
            return Err(
                PdfWriteError::Unsupported(
                    owned(
                        "the document's trailer declares /Size 0 (missing or unparseable), so there is no reliable floor for allocating new object numbers; the source document is unchanged",
                    ),
                ),
            );
        }
        let highest: Option<u32> = match read_chain(bytes, prev_startxref) {
            Some(sections) => chain_highest(sections.as_slice()),
            None => None,
        };
        let next_object_number: u32 = match highest {
            Some(highest) => {
                let past: u32 = if highest < u32::MAX {
                    highest + 1
                } else {
                    highest
                };
                if trailer_dict.size < past {
                    past
                } else {
                    trailer_dict.size
                }
            },
            None => trailer_dict.size,
        };
        Ok(
            IncrementalWriter {
                original_bytes: bytes,
                prev_startxref,
                xref_kind: section.kind,
                trailer_dict,
                next_object_number,
            },
        )
    }

    /// The trailer of the file being extended.
    pub fn trailer(&self) -> (trailer: &TrailerDict)
        ensures
            trailer@ == self@.trailer,
    {
        &self.trailer_dict
    }

    /// The first object number that is free.
    pub fn next_object_number(&self) -> (number: u32)
        ensures
            number == self@.next_object_number,
    {
        self.next_object_number
    }

    /// The kind of cross-reference data that the file has.
    pub fn xref_kind(&self) -> (kind: XRefKind)
        ensures
            kind == self@.kind,
    {
        self.xref_kind
    }

    /// The offset of the cross-reference data being extended.
    pub fn prev_startxref(&self) -> (offset: u64)
        ensures
            offset == self@.prev_startxref,
    {
        self.prev_startxref
    }
}

/// An object to be written, by its value.
pub type Numbered = (u32, u16, PdfValue);

/// Objects by their values.
pub open spec fn numbered(objects: Seq<(u32, u16, PdfObject)>) -> Seq<Numbered> {
    Seq::new(objects.len(), |i: int| (objects[i].0, objects[i].1, objects[i].2@))
}

/// The line that an object starts with.
pub open spec fn object_header(obj_num: u32, gen_num: u16) -> Seq<u8> {
    decimal(obj_num as nat) + utf8(" "@) + decimal(gen_num as nat) + utf8(" obj\n"@)
}

/// An object as it stands in a file.
pub open spec fn object_bytes(object: Numbered) -> Seq<u8> {
    object_header(object.0, object.1) + pdf_bytes(object.2) + utf8("\nendobj\n"@)
}

/// The first `n` objects, one after the other.
pub open spec fn objects_bytes(objects: Seq<Numbered>, n: nat) -> Seq<u8>
    decreases n,
{
    if n == 0 || n > objects.len() {
        Seq::empty()
    } else {
        objects_bytes(objects, (n - 1) as nat) + object_bytes(objects[n - 1])
    }
}

/// Where the first `n` objects stand, when the first is written at `start`.
pub open spec fn places_of(objects: Seq<Numbered>, start: nat, n: nat) -> Seq<Place>
    decreases n,
{
    if n == 0 || n > objects.len() {
        Seq::empty()
    } else {
        places_of(objects, start, (n - 1) as nat).push(
            (
                objects[n - 1].0,
                objects[n - 1].1,
                (start + objects_bytes(objects, (n - 1) as nat).len()) as u64,
            ),
        )
    }
}

/// One past the highest number of the first `n` objects; 1 when there are none.
pub open spec fn past_highest(objects: Seq<Numbered>, n: nat) -> nat
    decreases n,
{
    if n == 0 || n > objects.len() {
        1
    } else {
        let before = past_highest(objects, (n - 1) as nat);
        if n == 1 || before <= objects[n - 1].0 {
            objects[n - 1].0 as nat + 1
        } else {
            before
        }
    }
}

/// A line of a trailer that holds a reference, when there is one.
pub open spec fn reference_line(key: Seq<char>, reference: Option<(nat, nat)>) -> Seq<u8> {
    match reference {
        Some((obj_num, gen_num)) => utf8(key) + reference_bytes(obj_num, gen_num) + utf8("\n"@),
        None => Seq::empty(),
    }
}

/// The `/ID` of an update: the first element is the file's own, the second is
/// new. A file without an identifier gets none.
pub open spec fn id_line(id: Option<Seq<Seq<u8>>>, second: Seq<u8>) -> Seq<u8> {
    match id {
        Some(id) => utf8("/ID ["@) + (if id.len() > 0 {
            hex_string_bytes(id[0])
        } else {
            Seq::empty()
        }) + hex_string_bytes(second) + utf8("]\n"@),
        None => Seq::empty(),
    }
}

/// The trailer of an update with a cross-reference table at `xref_at`.
#[verifier::opaque]
pub open spec fn table_trailer(file: Opened, size: nat, second: Seq<u8>, xref_at: nat) -> Seq<u8> {
    utf8("trailer\n<<\n/Prev "@) + decimal(file.prev_startxref) + utf8("\n"@) + reference_line(
        "/Root "@,
        file.trailer.root,
    ) + reference_line("/Info "@, file.trailer.info) + utf8("/Size "@) + decimal(size) + utf8(
        "\n"@,
    ) + id_line(file.trailer.id, second) + utf8(">>\nstartxref\n"@) + decimal(xref_at) + utf8(
        "\n%%EOF\n"@,
    )
}

/// Numbers with a space between neighbours.
pub open spec fn spaced(values: Seq<u32>, n: nat) -> Seq<u8>
    decreases n,
{
    if n == 0 || n > values.len() {
        Seq::empty()
    } else {
        spaced(values, (n - 1) as nat) + (if n > 1 {
            utf8(" "@)
        } else {
            Seq::empty()
        }) + decimal(values[n - 1] as nat)
    }
}

/// A cross-reference stream, which is an object of its own, and the end of the
/// file.
#[verifier::opaque]
pub open spec fn stream_section(
    file: Opened,
    own: nat,
    size: nat,
    rows: Seq<Row>,
    second: Seq<u8>,
    xref_at: nat,
) -> Seq<u8> {
    decimal(own) + utf8(" 0 obj\n<<\n/Type /XRef\n/Size "@) + decimal(size) + utf8(
        "\n/W [1 4 2]\n/Index ["@,
    ) + spaced(index_array(rows, 0), index_array(rows, 0).len()) + utf8("]\n"@) + reference_line(
        "/Root "@,
        file.trailer.root,
    ) + utf8("/Prev "@) + decimal(file.prev_startxref) + utf8("\n"@) + id_line(
        file.trailer.id,
        second,
    ) + reference_line("/Info "@, file.trailer.info) + utf8("/Length "@) + decimal(
        stream_data(rows, rows.len()).len(),
    ) + utf8("\n>>\nstream\n"@) + stream_data(rows, rows.len()) + utf8(
        "\nendstream\nendobj\nstartxref\n"@,
    ) + decimal(xref_at) + utf8("\n%%EOF\n"@)
}

/// Why an update cannot be written.
pub enum AppendRefusal {
    /// This object number leaves none for the cross-reference data.
    NoNumberLeft(nat),
    /// An object stands farther into the file than a row can say.
    TooFar { number: nat, offset: nat },
    /// This object number leaves no room for a size one past it.
    NoSizeLeft(nat),
}

/// The larger of two numbers.
pub open spec fn max_of(a: nat, b: nat) -> nat {
    if a < b {
        b
    } else {
        a
    }
}

/// What an update consists of when its first byte is written at `start`: the
/// bytes, and where each object stands in them; or why there is none.
pub open spec fn append_outcome(
    file: Opened,
    start: nat,
    objects: Seq<Numbered>,
    second: Seq<u8>,
) -> Result<(Seq<u8>, Seq<Place>), AppendRefusal> {
    let body = file.original + objects_bytes(objects, objects.len());
    let places = places_of(objects, start + file.original.len(), objects.len());
    let xref_at = start + body.len();
    let past = past_highest(objects, objects.len());
    if past > u32::MAX {
        Err(AppendRefusal::NoNumberLeft((past - 1) as nat))
    } else {
        let size = max_of(file.next_object_number, past);
        match file.kind {
            XRefKind::Table => Ok(
                (
                    body + table_bytes(places) + table_trailer(file, size, second, xref_at),
                    places,
                ),
            ),
            XRefKind::Stream => {
                let all = rows_of(places, (size as u32, 0, xref_at as u64));
                let rows = ordered(all, all.len());
                let far = first_far(rows, 0);
                if far < rows.len() {
                    Err(
                        AppendRefusal::TooFar {
                            number: rows[far].number as nat,
                            offset: rows[far].offset as nat,
                        },
                    )
                } else if size == u32::MAX {
                    Err(AppendRefusal::NoSizeLeft(size))
                } else {
                    Ok(
                        (
                            body + stream_section(file, size, size + 1, rows, second, xref_at),
                            places,
                        ),
                    )
                }
            },
        }
    }
}

/// How a refusal is reported.
pub open spec fn append_reason(refusal: AppendRefusal) -> Seq<char> {
    match refusal {
        AppendRefusal::NoNumberLeft(number) => "object number "@ + decimal_text(number)
            + " leaves no room for the cross-reference stream's own object number; the source document is unchanged"@,
        AppendRefusal::TooFar { number, offset } => "object "@ + decimal_text(number)
            + " lies at offset "@ + decimal_text(offset)
            + ", past the 4 GiB a /W [1 4 2] cross-reference stream can address; the source document is unchanged and this file is too large for pulpit to sign"@,
        AppendRefusal::NoSizeLeft(number) => "object number "@ + decimal_text(number)
            + " leaves no room for a /Size one past it; the source document is unchanged"@,
    }
}

/// Appends objects, and says where they stand.
fn write_objects(output: &mut Vec<u8>, objects: &[(u32, u16, PdfObject)]) -> (places: Vec<Place>)
    ensures
        final(output)@ == old(output)@ + objects_bytes(numbered(objects@), objects@.len()),
        places@ == places_of(numbered(objects@), old(output)@.len(), objects@.len()),
{
    let ghost values = numbered(objects@);
    let ghost before = output@;
    let mut places: Vec<Place> = Vec::new();
    let mut i: usize = 0;
    assert(before + objects_bytes(values, 0) =~= before);
    while i < objects.len()
        invariant
            i <= objects@.len(),
            values == numbered(objects@),
            output@ == before + objects_bytes(values, i as nat),
            places@ == places_of(values, before.len(), i as nat),
        decreases objects@.len() - i,
    {
        let obj_num: u32 = objects[i].0;
        let gen_num: u16 = objects[i].1;
        places.push((obj_num, gen_num, output.len() as u64));
        let mut object: Vec<u8> = Vec::new();
        push_decimal(&mut object, obj_num as u64);
        assert(object@ =~= decimal(obj_num as nat));
        push_text(&mut object, " ");
        push_decimal(&mut object, gen_num as u64);
        push_text(&mut object, " obj\n");
        let body = objects[i].2.to_bytes();
        push_bytes(&mut object, body.as_slice());
        push_text(&mut object, "\nendobj\n");
        assert(object@ == object_bytes(values[i as int]));
        push_bytes(output, object.as_slice());
        i += 1;
        assert(output@ =~= before + objects_bytes(values, i as nat));
    }
    places
}

fn find_past_highest(objects: &[(u32, u16, PdfObject)]) -> (past: Result<u32, u32>)
    ensures
        match past {
            Ok(n) => n == past_highest(numbered(objects@), objects@.len()),
            Err(n) => n == u32::MAX && n + 1 == past_highest(numbered(objects@), objects@.len()),
        },
{
    let ghost values = numbered(objects@);
    let mut past: u64 = 1;
    let mut i: usize = 0;
    while i < objects.len()
        invariant
            i <= objects@.len(),
            values == numbered(objects@),
            past == past_highest(values, i as nat),
            past <= 0x1_0000_0000,
        decreases objects@.len() - i,
    {
        let number: u64 = objects[i].0 as u64;
        if i == 0 || past <= number {
            past = number + 1;
        }
        i += 1;
    }
    if past > u32::MAX as u64 {
        Err(u32::MAX)
    } else {
        Ok(past as u32)
    }
}

fn push_reference_line(out: &mut Vec<u8>, key: &str, reference: Option<(u32, u16)>)
    ensures
        final(out)@ == old(out)@ + reference_line(key@, reference_view(reference)),
{
    let ghost before = out@;
    if let Some((obj_num, gen_num)) = reference {
        push_text(out, key);
        push_reference(out, obj_num, gen_num);
        push_text(out, "\n");
    }
    assert(out@ =~= before + reference_line(key@, reference_view(reference)));
}

fn push_spaced(out: &mut Vec<u8>, values: &[u32])
    ensures
        final(out)@ == old(out)@ + spaced(values@, values@.len()),
{
    let ghost before = out@;
    let mut i: usize = 0;
    assert(before + spaced(values@, 0) =~= before);
    while i < values.len()
        invariant
            i <= values@.len(),
            out@ == before + spaced(values@, i as nat),
        decreases values@.len() - i,
    {
        if i > 0 {
            push_text(out, " ");
        }
        push_decimal(out, values[i] as u64);
        i += 1;
        assert(out@ =~= before + spaced(values@, i as nat));
    }
}

fn collect_rows(places: &[Place], own: Place) -> (rows: Vec<Row>)
    ensures
        rows@ == rows_of(places@, own),
{
    let mut rows: Vec<Row> = Vec::new();
    rows.push(Row { number: 0, kind: 0, offset: 0, generation: 65535 });
    let ghost head = rows@;
    let mut i: usize = 0;
    while i < places.len()
        invariant
            i <= places@.len(),
            head == seq![Row { number: 0, kind: 0, offset: 0, generation: 65535 }],
            rows@ == head + places@.take(i as int).map_values(
                |place: Place|
                    Row { number: place.0, kind: 1, offset: place.2, generation: place.1 },
            ),
        decreases places@.len() - i,
    {
        let place: Place = places[i];
        rows.push(Row { number: place.0, kind: 1, offset: place.2, generation: place.1 });
        i += 1;
        assert(rows@ =~= head + places@.take(i as int).map_values(
            |place: Place| Row { number: place.0, kind: 1, offset: place.2, generation: place.1 },
        ));
    }
    assert(places@.take(i as int) =~= places@);
    rows.push(Row { number: own.0, kind: 1, offset: own.2, generation: own.1 });
    assert(rows@ =~= rows_of(places@, own));
    rows
}

impl<'a> IncrementalWriter<'a> {
    /// The `/ID` line of an update.
    fn push_id_line(&self, out: &mut Vec<u8>, second: &[u8])
        ensures
            final(out)@ == old(out)@ + id_line(self@.trailer.id, second@),
    {
        let ghost before = out@;
        if let Some(id) = &self.trailer_dict.id {
            push_text(out, "/ID [");
            if id.len() > 0 {
                push_hex_string(out, id[0].as_slice());
                assert(byte_views(id@)[0] == id@[0]@);
            }
            push_hex_string(out, second);
            push_text(out, "]\n");
        }
        assert(out@ =~= before + id_line(self@.trailer.id, second@));
    }

    fn write_table_trailer(&self, size: u32, second: &[u8], xref_at: u64) -> (out: Vec<u8>)
        ensures
            out@ == table_trailer(self@, size as nat, second@, xref_at as nat),
    {
        reveal(table_trailer);
        let mut out = text_bytes("trailer\n<<\n/Prev ");
        push_decimal(&mut out, self.prev_startxref);
        push_text(&mut out, "\n");
        push_reference_line(&mut out, "/Root ", self.trailer_dict.root);
        push_reference_line(&mut out, "/Info ", self.trailer_dict.info);
        push_text(&mut out, "/Size ");
        push_decimal(&mut out, size as u64);
        push_text(&mut out, "\n");
        self.push_id_line(&mut out, second);
        push_text(&mut out, ">>\nstartxref\n");
        push_decimal(&mut out, xref_at);
        push_text(&mut out, "\n%%EOF\n");
        out
    }

    /// Writes a cross-reference stream with the rows in the order of their
    /// numbers, which the runs of its `/Index` enumerate.
    fn write_xref_stream(
        &self,
        own: u32,
        size: u32,
        rows: &[Row],
        data: &[u8],
        second: &[u8],
        xref_at: u64,
    ) -> (out: Vec<u8>)
        requires
            rows@.len() <= u32::MAX,
            data@ == stream_data(rows@, rows@.len()),
        ensures
            out@ == stream_section(
                self@,
                own as nat,
                size as nat,
                rows@,
                second@,
                xref_at as nat,
            ),
    {
        reveal(stream_section);
        let index = index_of_rows(rows);
        let mut out: Vec<u8> = Vec::new();
        push_decimal(&mut out, own as u64);
        assert(out@ =~= decimal(own as nat));
        push_text(&mut out, " 0 obj\n<<\n/Type /XRef\n/Size ");
        push_decimal(&mut out, size as u64);
        push_text(&mut out, "\n/W [1 4 2]\n/Index [");
        push_spaced(&mut out, index.as_slice());
        push_text(&mut out, "]\n");
        push_reference_line(&mut out, "/Root ", self.trailer_dict.root);
        push_text(&mut out, "/Prev ");
        push_decimal(&mut out, self.prev_startxref);
        push_text(&mut out, "\n");
        self.push_id_line(&mut out, second);
        push_reference_line(&mut out, "/Info ", self.trailer_dict.info);
        push_text(&mut out, "/Length ");
        push_decimal(&mut out, data.len() as u64);
        push_text(&mut out, "\n>>\nstream\n");
        push_bytes(&mut out, data);
        push_text(&mut out, "\nendstream\nendobj\nstartxref\n");
        push_decimal(&mut out, xref_at);
        push_text(&mut out, "\n%%EOF\n");
        out
    }

    /// Appends the file and an update that holds these objects, and says where
    /// each of them stands. An update that cannot be written changes nothing.
    pub fn append_objects(
        self,
        output: &mut Vec<u8>,
        objects: &[(u32, u16, PdfObject)],
        new_id2: &[u8],
    ) -> (places: Result<Vec<Place>, PdfWriteError>)
        ensures
            match append_outcome(
                self@,
                old(output)@.len(),
                numbered(objects@),
                new_id2@,
            ) {
                Ok((bytes, stands)) => {
                    &&& places matches Ok(found)
                    &&& found@ == stands
                    &&& final(output)@ == old(output)@ + bytes
                },
                Err(refusal) => {
                    &&& places matches Err(PdfWriteError::Unsupported(reason))
                    &&& reason@ == append_reason(refusal)
                    &&& final(output)@ == old(output)@
                },
            },
    {
        let ghost before = output@;
        let ghost values = numbered(objects@);
        let ghost body = self@.original + objects_bytes(values, objects@.len());
        let past: u32 = match find_past_highest(objects) {
            Ok(past) => past,
            Err(number) => {
                let mut reason = owned("object number ");
                crate::text::push_decimal(&mut reason, number as u64);
                push_str(
                    &mut reason,
                    " leaves no room for the cross-reference stream's own object number; the source document is unchanged",
                );
                return Err(PdfWriteError::Unsupported(reason));
            },
        };
        let size: u32 = if self.next_object_number < past {
            past
        } else {
            self.next_object_number
        };
        let length: usize = output.len();
        push_bytes(output, self.original_bytes);
        let places = write_objects(output, objects);
        assert(output@ =~= before + body);
        let xref_at: u64 = output.len() as u64;
        match self.xref_kind {
            XRefKind::Table => {
                let table = write_xref_table(places.as_slice());
                push_bytes(output, table.as_slice());
                let trailer = self.write_table_trailer(size, new_id2, xref_at);
                push_bytes(output, trailer.as_slice());
                assert(output@ =~= before + (body + table@ + trailer@));
            },
            XRefKind::Stream => {
                let all = collect_rows(places.as_slice(), (size, 0, xref_at));
                let rows = order_rows(all.as_slice());
                let data = match rows_to_data(rows.as_slice()) {
                    Ok(data) => data,
                    Err(row) => {
                        let mut reason = owned("object ");
                        crate::text::push_decimal(&mut reason, row.number as u64);
                        push_str(&mut reason, " lies at offset ");
                        crate::text::push_decimal(&mut reason, row.offset);
                        push_str(
                            &mut reason,
                            ", past the 4 GiB a /W [1 4 2] cross-reference stream can address; the source document is unchanged and this file is too large for pulpit to sign",
                        );
                        output.truncate(length);
                        assert(output@ =~= before);
                        return Err(PdfWriteError::Unsupported(reason));
                    },
                };
                if size == u32::MAX {
                    let mut reason = owned("object number ");
                    crate::text::push_decimal(&mut reason, size as u64);
                    push_str(
                        &mut reason,
                        " leaves no room for a /Size one past it; the source document is unchanged",
                    );
                    output.truncate(length);
                    assert(output@ =~= before);
                    return Err(PdfWriteError::Unsupported(reason));
                }
                proof {
                    lemma_few_rows(
                        values,
                        places@,
                        (before.len() + self@.original.len()) as nat,
                        rows@,
                        (size, 0, xref_at),
                    );
                }
                let section = self.write_xref_stream(
                    size,
                    size + 1,
                    rows.as_slice(),
                    data.as_slice(),
                    new_id2,
                    xref_at,
                );
                push_bytes(output, section.as_slice());
                assert(output@ =~= before + (body + section@));
            },
        }
        Ok(places)
    }
}

proof fn lemma_place_number(objects: Seq<Numbered>, start: nat, n: nat, i: int)
    requires
        n <= objects.len(),
        0 <= i < places_of(objects, start, n).len(),
    ensures
        places_of(objects, start, n)[i].0 < past_highest(objects, n),
    decreases n,
{
    if n > 0 && i < places_of(objects, start, n).len() - 1 {
        lemma_place_number(objects, start, (n - 1) as nat, i);
    }
}

/// The rows of an update are fewer than there are object numbers.
pub proof fn lemma_few_rows(
    objects: Seq<Numbered>,
    places: Seq<Place>,
    start: nat,
    rows: Seq<Row>,
    own: Place,
)
    requires
        places == places_of(objects, start, objects.len()),
        past_highest(objects, objects.len()) <= own.0 < u32::MAX,
        rows == ordered(rows_of(places, own), rows_of(places, own).len()),
    ensures
        rows.len() <= u32::MAX,
{
    let all = rows_of(places, own);
    law_rows_are_ordered(all, all.len());
    if rows.len() > 0 {
        let last = rows.len() - 1;
        lemma_at_least(rows, last);
        assert(among(all, all.len() as int, rows[last]));
        let j = choose|j: int| 0 <= j < all.len() && #[trigger] all[j] == rows[last];
        if 0 < j < all.len() - 1 {
            lemma_place_number(objects, start, objects.len(), j - 1);
            assert(all[j].number == places[j - 1].0);
        }
        assert(rows[last].number <= own.0);
    }
}

/// The number past the highest is higher than that of any object, and one lower is
/// that of one of them.
pub proof fn law_the_number_past_the_highest_is_free(objects: Seq<Numbered>, n: nat, i: int)
    requires
        0 <= i < n <= objects.len(),
    ensures
        objects[i].0 < past_highest(objects, n),
        exists|k: int|
            0 <= k < n && (#[trigger] objects[k]).0 + 1 == past_highest(objects, n),
    decreases n,
{
    if n > 1 {
        law_the_number_past_the_highest_is_free(
            objects,
            (n - 1) as nat,
            if i < n - 1 {
                i
            } else {
                0
            },
        );
        let before = past_highest(objects, (n - 1) as nat);
        let k = choose|k: int| 0 <= k < n - 1 && (#[trigger] objects[k]).0 + 1 == before;
        assert(objects[k].0 + 1 == before);
        assert(objects[n - 1].0 < past_highest(objects, n));
    } else {
        assert(objects[0].0 + 1 == past_highest(objects, 1));
    }
}

} // verus!
