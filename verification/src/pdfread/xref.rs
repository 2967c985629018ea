//! Reading cross-reference sections and the chain they form.

use crate::bytes::{same_bytes, utf8};
use crate::number::{parse_unsigned, unsigned_of};
use crate::pdfread::dictionary::{entry, lookup, Entries};
use crate::pdfread::rows::{read_runs, read_stream_rows, rows_read, run_views, runs_of};
use crate::pdfread::value::{read_value, value_at};
use crate::pdfwrite::object::{
    entry_values, item_values, lemma_container_values, PdfObject, PdfValue,
};
use crate::pdfwrite::tokenizer::{object_tokens, token_views, tokenize};
use vstd::prelude::*;
use vstd::slice::slice_subrange;

verus! {

/// Whether a cross-reference section is a table or a stream.
#[derive(Debug, Clone, Copy, PartialEq, Eq, Structural)]
pub enum XRefKind {
    Table,
    Stream,
}

/// How many sections a chain may have.
pub const MAX_SECTIONS: usize = 1024;

/// One cross-reference section.
#[derive(Debug)]
pub struct XrefSection {
    pub kind: XRefKind,
    /// The trailer dictionary, or the dictionary of the stream.
    pub trailer: Vec<(String, PdfObject)>,
    /// Object number and offset of each object in use that the section lists.
    pub offsets: Vec<(u32, u64)>,
    /// The highest object number that the section speaks of.
    pub highest: Option<u32>,
    /// The runs of objects that the section speaks of: the first number and how
    /// many there are.
    pub runs: Vec<(u64, u64)>,
}

/// What a cross-reference section says.
pub struct Section {
    pub kind: XRefKind,
    pub trailer: Entries,
    pub offsets: Seq<(u32, u64)>,
    pub highest: Option<nat>,
    pub runs: Seq<(nat, nat)>,
}

impl View for XrefSection {
    type V = Section;

    open spec fn view(&self) -> Section {
        Section {
            kind: self.kind,
            trailer: entry_values(self.trailer@),
            offsets: self.offsets@,
            highest: match self.highest {
                Some(n) => Some(n as nat),
                None => None,
            },
            runs: run_views(self.runs@),
        }
    }
}

/// The views of a list of sections.
pub open spec fn section_views(sections: Seq<XrefSection>) -> Seq<Section> {
    sections.map_values(|section: XrefSection| section@)
}

/// The larger of two numbers, where either may be missing.
pub open spec fn larger(a: Option<nat>, b: Option<nat>) -> Option<nat> {
    match (a, b) {
        (Some(x), Some(y)) => Some(
            if x < y {
                y
            } else {
                x
            },
        ),
        (Some(x), None) => Some(x),
        (None, _) => b,
    }
}

/// The objects in use among the first `count` rows of a subsection that starts
/// with object `first`. A row is an offset, a generation and `n` or `f`.
pub open spec fn rows_in_use(tokens: Seq<Seq<u8>>, at: int, first: nat, count: nat) -> Seq<(u32, u64)>
    decreases count,
{
    if count == 0 {
        Seq::empty()
    } else {
        let before = rows_in_use(tokens, at, first, (count - 1) as nat);
        let row = at + 3 * (count - 1);
        let offset = unsigned_of(tokens[row], u64::MAX as nat);
        if tokens[row + 2] == utf8("n"@) && offset is Some {
            before.push(((first + count - 1) as u32, offset->0 as u64))
        } else {
            before
        }
    }
}

/// The subsections from token `at` to the `trailer` keyword, after those
/// before: the objects in use, the highest number and the index past the
/// keyword.
pub open spec fn table_at(
    tokens: Seq<Seq<u8>>,
    at: int,
    before: Seq<(u32, u64)>,
    highest: Option<nat>,
) -> Option<(Seq<(u32, u64)>, Option<nat>, int)>
    decreases tokens.len() - at,
{
    if !(0 <= at < tokens.len()) {
        None
    } else if tokens[at] == utf8("trailer"@) {
        Some((before, highest, at + 1))
    } else if at + 1 >= tokens.len() {
        None
    } else {
        match (unsigned_of(tokens[at], u32::MAX as nat), unsigned_of(
            tokens[at + 1],
            u32::MAX as nat,
        )) {
            (Some(first), Some(count)) => if at + 2 + 3 * count <= tokens.len() && first + count
                <= 0x1_0000_0000 {
                table_at(
                    tokens,
                    at + 2 + 3 * count,
                    before + rows_in_use(tokens, at + 2, first, count),
                    larger(
                        highest,
                        if count == 0 {
                            None
                        } else {
                            Some((first + count - 1) as nat)
                        },
                    ),
                )
            } else {
                None
            },
            _ => None,
        }
    }
}

/// The runs of objects that the subsections from token `at` on are about.
pub open spec fn table_runs(tokens: Seq<Seq<u8>>, at: int) -> Seq<(nat, nat)>
    decreases tokens.len() - at,
{
    if !(0 <= at && at + 1 < tokens.len()) || tokens[at] == utf8("trailer"@) {
        Seq::empty()
    } else {
        match (unsigned_of(tokens[at], u32::MAX as nat), unsigned_of(
            tokens[at + 1],
            u32::MAX as nat,
        )) {
            (Some(first), Some(count)) => if at + 2 + 3 * count <= tokens.len() {
                seq![(first, count)] + table_runs(tokens, at + 2 + 3 * count)
            } else {
                Seq::empty()
            },
            _ => Seq::empty(),
        }
    }
}

/// The section speaks of an object.
pub open spec fn speaks_of(section: Section, number: nat) -> bool {
    exists|k: int|
        0 <= k < section.runs.len() && (#[trigger] section.runs[k]).0 <= number < section.runs[k].0
            + section.runs[k].1
}

/// The number under a key, when it is an integer that is not negative.
pub open spec fn number_under(entries: Entries, key: Seq<char>) -> Option<nat> {
    match lookup(entries, key) {
        Some(PdfValue::Integer(n)) => if n >= 0 {
            Some(n as nat)
        } else {
            None
        },
        _ => None,
    }
}

/// The highest object number that the first `pairs` pairs of an `/Index` array
/// speak of: each is a first number and a count.
pub open spec fn highest_in_index(items: Seq<PdfValue>, pairs: nat) -> Option<nat>
    decreases pairs,
{
    if pairs == 0 || 2 * pairs > items.len() {
        None
    } else {
        larger(
            highest_in_index(items, (pairs - 1) as nat),
            match (items[2 * pairs - 2], items[2 * pairs - 1]) {
                (PdfValue::Integer(first), PdfValue::Integer(count)) => if first >= 0 && count > 0
                    && first + count <= 0x1_0000_0000 {
                    Some((first + count - 1) as nat)
                } else {
                    None
                },
                _ => None,
            },
        )
    }
}

/// The highest object number that a cross-reference stream speaks of: by its
/// `/Index`, or by its `/Size` when it has none.
pub open spec fn highest_in_stream(entries: Entries) -> Option<nat> {
    match lookup(entries, "Index"@) {
        Some(PdfValue::Array(items)) => highest_in_index(items, items.len() / 2),
        _ => match number_under(entries, "Size"@) {
            Some(size) => if 0 < size <= 0x1_0000_0000 {
                Some((size - 1) as nat)
            } else {
                None
            },
            None => None,
        },
    }
}

/// The section that these tokens are, when the file goes on like this from
/// their start: a table with its trailer, or the dictionary of a
/// cross-reference stream with the rows behind it.
pub open spec fn section_of(tokens: Seq<Seq<u8>>, rest: Seq<u8>) -> Option<Section> {
    if tokens.len() > 0 && tokens[0] == utf8("xref"@) {
        match table_at(tokens, 1, Seq::empty(), None) {
            Some((offsets, highest, at)) => match value_at(tokens, at, 0) {
                Ok((PdfValue::Dictionary(trailer), _)) => Some(
                    Section {
                        kind: XRefKind::Table,
                        trailer,
                        offsets,
                        highest,
                        runs: table_runs(tokens, 1),
                    },
                ),
                _ => None,
            },
            None => None,
        }
    } else if tokens.len() > 3 && unsigned_of(tokens[0], u32::MAX as nat) is Some && unsigned_of(
        tokens[1],
        u32::MAX as nat,
    ) is Some && tokens[2] == utf8("obj"@) {
        match value_at(tokens, 3, 0) {
            Ok((PdfValue::Dictionary(trailer), _)) => if lookup(trailer, "Type"@) == Some(
                PdfValue::Name("XRef"@),
            ) {
                Some(
                    Section {
                        kind: XRefKind::Stream,
                        trailer,
                        offsets: rows_read(trailer, rest),
                        highest: highest_in_stream(trailer),
                        runs: runs_of(trailer),
                    },
                )
            } else {
                None
            },
            _ => None,
        }
    } else {
        None
    }
}

/// The section at an offset.
#[verifier::opaque]
pub open spec fn section_at(bytes: Seq<u8>, at: nat) -> Option<Section> {
    if at > bytes.len() {
        None
    } else {
        section_of(object_tokens(bytes.skip(at as int), 0), bytes.skip(at as int))
    }
}

/// The sections of a file, from the one at `at` back along `/Prev`. A chain of
/// more than `most` sections is no chain.
pub open spec fn chain_at(bytes: Seq<u8>, at: nat, most: nat) -> Option<Seq<Section>>
    decreases most,
{
    if most == 0 {
        None
    } else {
        match section_at(bytes, at) {
            Some(section) => match number_under(section.trailer, "Prev"@) {
                Some(prev) => match chain_at(bytes, prev, (most - 1) as nat) {
                    Some(rest) => Some(seq![section] + rest),
                    None => None,
                },
                None => Some(seq![section]),
            },
            None => None,
        }
    }
}

/// The highest object number that any of the sections speaks of.
pub open spec fn highest_in_chain(sections: Seq<Section>) -> Option<nat>
    decreases sections.len(),
{
    if sections.len() == 0 {
        None
    } else {
        larger(highest_in_chain(sections.drop_last()), sections.last().highest)
    }
}

fn larger_of(a: Option<u32>, b: Option<u32>) -> (c: Option<u32>)
    ensures
        opt_nat(c) == larger(opt_nat(a), opt_nat(b)),
{
    match (a, b) {
        (Some(x), Some(y)) => if x < y {
            Some(y)
        } else {
            Some(x)
        },
        (Some(x), None) => Some(x),
        (None, _) => b,
    }
}

/// An optional number as a natural number.
pub open spec fn opt_nat(n: Option<u32>) -> Option<nat> {
    match n {
        Some(n) => Some(n as nat),
        None => None,
    }
}

fn read_table(tokens: &[Vec<u8>]) -> (table: Option<(Vec<(u32, u64)>, Option<u32>, usize)>)
    requires
        tokens@.len() > 0,
    ensures
        match table {
            Some((offsets, highest, at)) => table_at(token_views(tokens@), 1, Seq::empty(), None)
                == Some((offsets@, opt_nat(highest), at as int)),
            None => table_at(token_views(tokens@), 1, Seq::empty(), None) is None,
        },
{
    let ghost views = token_views(tokens@);
    let mut offsets: Vec<(u32, u64)> = Vec::new();
    let mut highest: Option<u32> = None;
    let mut at: usize = 1;
    let total: usize = tokens.len();
    assert(offsets@ =~= Seq::empty());
    while at < total
        invariant
            1 <= at <= total,
            total == tokens@.len(),
            views == token_views(tokens@),
            table_at(views, at as int, offsets@, opt_nat(highest)) == table_at(
                views,
                1,
                Seq::empty(),
                None,
            ),
        decreases total - at,
    {
        assert(views[at as int] == tokens@[at as int]@);
        if same_bytes(tokens[at].as_slice(), "trailer".as_bytes()) {
            return Some((offsets, highest, at + 1));
        }
        if total - at < 2 {
            return None;
        }
        assert(views[at + 1] == tokens@[at + 1]@);
        let (first, count) = match (
            parse_unsigned(tokens[at].as_slice(), u32::MAX as u64),
            parse_unsigned(tokens[at + 1].as_slice(), u32::MAX as u64),
        ) {
            (Some(first), Some(count)) => (first, count),
            _ => return None,
        };
        if count > ((total - at - 2) / 3) as u64 || first + count > 0x1_0000_0000 {
            return None;
        }
        let rows: usize = count as usize;
        let ghost before = offsets@;
        let mut k: usize = 0;
        assert(before + rows_in_use(views, at + 2, first as nat, 0) =~= before);
        while k < rows
            invariant
                k <= rows,
                rows == count,
                at + 2 + 3 * rows <= total,
                total == tokens@.len(),
                first + count <= 0x1_0000_0000,
                views == token_views(tokens@),
                offsets@ == before + rows_in_use(views, at + 2, first as nat, k as nat),
            decreases rows - k,
        {
            let row: usize = at + 2 + 3 * k;
            assert(views[row as int] == tokens@[row as int]@);
            assert(views[row + 2] == tokens@[row + 2]@);
            if same_bytes(tokens[row + 2].as_slice(), "n".as_bytes()) {
                if let Some(offset) = parse_unsigned(tokens[row].as_slice(), u64::MAX) {
                    offsets.push(((first + k as u64) as u32, offset));
                }
            }
            k += 1;
            assert(offsets@ =~= before + rows_in_use(views, at + 2, first as nat, k as nat));
        }
        if count > 0 {
            highest = larger_of(highest, Some((first + count - 1) as u32));
        } else {
            highest = larger_of(highest, None);
        }
        at = at + 2 + 3 * rows;
    }
    None
}

fn read_table_runs(tokens: &[Vec<u8>]) -> (runs: Vec<(u64, u64)>)
    requires
        tokens@.len() > 0,
    ensures
        run_views(runs@) == table_runs(token_views(tokens@), 1),
{
    let ghost views = token_views(tokens@);
    let ghost whole = table_runs(views, 1);
    let mut runs: Vec<(u64, u64)> = Vec::new();
    let mut at: usize = 1;
    let total: usize = tokens.len();
    assert(run_views(runs@) + table_runs(views, 1) =~= whole);
    while at < total && total - at >= 2
        invariant
            1 <= at <= total,
            total == tokens@.len(),
            views == token_views(tokens@),
            whole == table_runs(views, 1),
            run_views(runs@) + table_runs(views, at as int) == whole,
        decreases total - at,
    {
        assert(views[at as int] == tokens@[at as int]@);
        assert(views[at + 1] == tokens@[at + 1]@);
        if same_bytes(tokens[at].as_slice(), "trailer".as_bytes()) {
            assert(run_views(runs@) =~= whole);
            return runs;
        }
        let (first, count) = match (
            parse_unsigned(tokens[at].as_slice(), u32::MAX as u64),
            parse_unsigned(tokens[at + 1].as_slice(), u32::MAX as u64),
        ) {
            (Some(first), Some(count)) => (first, count),
            _ => {
                assert(run_views(runs@) =~= whole);
                return runs;
            },
        };
        if count > ((total - at - 2) / 3) as u64 {
            assert(run_views(runs@) =~= whole);
            return runs;
        }
        let ghost before = run_views(runs@);
        let ghost rest = table_runs(views, at + 2 + 3 * count);
        runs.push((first, count));
        assert(run_views(runs@) =~= before.push((first as nat, count as nat)));
        assert(run_views(runs@) + rest =~= before + (seq![(first as nat, count as nat)] + rest));
        at = at + 2 + 3 * count as usize;
    }
    assert(table_runs(views, at as int) =~= Seq::empty());
    assert(run_views(runs@) =~= whole);
    runs
}

/// Does the section speak of an object?
pub fn is_about(section: &XrefSection, number: u32) -> (about: bool)
    ensures
        about == speaks_of(section@, number as nat),
{
    let runs = &section.runs;
    let ghost views = run_views(runs@);
    let mut k: usize = 0;
    while k < runs.len()
        invariant
            k <= runs@.len(),
            views == run_views(runs@),
            views == section@.runs,
            forall|j: int|
                0 <= j < k ==> !((#[trigger] views[j]).0 <= number < views[j].0 + views[j].1),
        decreases runs@.len() - k,
    {
        let (first, count) = runs[k];
        assert(views[k as int] == (first as nat, count as nat));
        if first <= number as u64 && number as u64 - first < count {
            assert(section@.runs[k as int].0 <= number);
            return true;
        }
        k += 1;
    }
    false
}

fn non_negative(object: Option<&PdfObject>) -> (number: Option<u64>)
    ensures
        match object {
            Some(found) => match found@ {
                PdfValue::Integer(n) => if n >= 0 {
                    number == Some(n as u64) && n <= u64::MAX
                } else {
                    number is None
                },
                _ => number is None,
            },
            None => number is None,
        },
{
    match object {
        Some(PdfObject::Integer(n)) => if *n >= 0 {
            Some(*n as u64)
        } else {
            None
        },
        _ => None,
    }
}

/// The number under a key.
pub fn number_entry(entries: &[(String, PdfObject)], key: &str) -> (number: Option<u64>)
    ensures
        match number {
            Some(n) => number_under(entry_values(entries@), key@) == Some(n as nat),
            None => number_under(entry_values(entries@), key@) is None,
        },
{
    non_negative(entry(entries, key))
}

fn read_index(items: &[PdfObject]) -> (highest: Option<u32>)
    ensures
        opt_nat(highest) == highest_in_index(item_values(items@), items@.len() / 2),
{
    let ghost values = item_values(items@);
    let mut highest: Option<u32> = None;
    let total: usize = items.len();
    let pairs: usize = total / 2;
    let mut k: usize = 0;
    while k < pairs
        invariant
            k <= pairs,
            total == items@.len(),
            pairs == total / 2,
            values == item_values(items@),
            opt_nat(highest) == highest_in_index(values, k as nat),
        decreases pairs - k,
    {
        let mut last: Option<u32> = None;
        assert(values[2 * k] == items@[2 * k]@);
        assert(values[2 * k + 1] == items@[2 * k + 1]@);
        if let (PdfObject::Integer(first), PdfObject::Integer(count)) = (
            &items[2 * k],
            &items[2 * k + 1],
        ) {
            if *first >= 0 && *count > 0 && *first <= 0x1_0000_0000 && *count <= 0x1_0000_0000
                && *first + *count <= 0x1_0000_0000 {
                last = Some((*first + *count - 1) as u32);
            }
        }
        highest = larger_of(highest, last);
        k += 1;
    }
    highest
}

fn read_stream_highest(entries: &[(String, PdfObject)]) -> (highest: Option<u32>)
    ensures
        opt_nat(highest) == highest_in_stream(entry_values(entries@)),
{
    match entry(entries, "Index") {
        Some(PdfObject::Array(items)) => {
            proof {
                lemma_container_values(PdfObject::Array(*items));
            }
            read_index(items.as_slice())
        },
        _ => match number_entry(entries, "Size") {
            Some(size) => if 0 < size && size <= 0x1_0000_0000 {
                Some((size - 1) as u32)
            } else {
                None
            },
            None => None,
        },
    }
}

fn is_name(object: Option<&PdfObject>, name: &str) -> (is: bool)
    ensures
        is == (match object {
            Some(found) => found@ == PdfValue::Name(name@),
            None => false,
        }),
{
    match object {
        Some(PdfObject::Name(found)) => crate::text::same_text(found.as_str(), name),
        _ => false,
    }
}

/// The section at an offset.
pub fn read_section(bytes: &[u8], at: u64) -> (section: Option<XrefSection>)
    ensures
        match section {
            Some(found) => section_at(bytes@, at as nat) == Some(found@),
            None => section_at(bytes@, at as nat) is None,
        },
{
    reveal(section_at);
    if at > bytes.len() as u64 {
        return None;
    }
    let rest = slice_subrange(bytes, at as usize, bytes.len());
    assert(rest@ =~= bytes@.skip(at as int));
    let tokens = tokenize(rest);
    let ghost views = token_views(tokens@);
    if tokens.len() == 0 {
        return None;
    }
    assert(views[0] == tokens@[0]@);
    if same_bytes(tokens[0].as_slice(), "xref".as_bytes()) {
        let (offsets, highest, at) = match read_table(tokens.as_slice()) {
            Some(table) => table,
            None => return None,
        };
        let runs = read_table_runs(tokens.as_slice());
        match read_value(tokens.as_slice(), at, 0) {
            Ok((object, next)) => {
                proof {
                    lemma_container_values(object);
                }
                match object {
                    PdfObject::Dictionary(trailer) => Some(
                        XrefSection { kind: XRefKind::Table, trailer, offsets, highest, runs },
                    ),
                    _ => None,
                }
            },
            Err(_) => None,
        }
    } else {
        if tokens.len() < 4 {
            return None;
        }
        assert(views[1] == tokens@[1]@);
        assert(views[2] == tokens@[2]@);
        if parse_unsigned(tokens[0].as_slice(), u32::MAX as u64).is_none() || parse_unsigned(
            tokens[1].as_slice(),
            u32::MAX as u64,
        ).is_none() || !same_bytes(tokens[2].as_slice(), "obj".as_bytes()) {
            return None;
        }
        match read_value(tokens.as_slice(), 3, 0) {
            Ok((object, next)) => {
                proof {
                    lemma_container_values(object);
                }
                match object {
                    PdfObject::Dictionary(trailer) => {
                        if !is_name(entry(trailer.as_slice(), "Type"), "XRef") {
                            return None;
                        }
                        let highest = read_stream_highest(trailer.as_slice());
                        let offsets = read_stream_rows(trailer.as_slice(), rest);
                        let runs = read_runs(trailer.as_slice());
                        Some(XrefSection { kind: XRefKind::Stream, trailer, offsets, highest, runs })
                    },
                    _ => None,
                }
            },
            Err(_) => None,
        }
    }
}

/// A chain with other sections put before it.
pub open spec fn after(before: Seq<Section>, chain: Option<Seq<Section>>) -> Option<Seq<Section>> {
    match chain {
        Some(sections) => Some(before + sections),
        None => None,
    }
}

proof fn lemma_chain_step(bytes: Seq<u8>, at: nat, most: nat, section: Section, before: Seq<Section>)
    requires
        most > 0,
        section_at(bytes, at) == Some(section),
    ensures
        after(before, chain_at(bytes, at, most)) == match number_under(section.trailer, "Prev"@) {
            Some(prev) => after(
                before + seq![section],
                chain_at(bytes, prev, (most - 1) as nat),
            ),
            None => Some(before + seq![section]),
        },
{
    if let Some(prev) = number_under(section.trailer, "Prev"@) {
        if let Some(rest) = chain_at(bytes, prev, (most - 1) as nat) {
            assert(before + (seq![section] + rest) =~= before + seq![section] + rest);
        }
    }
}

/// The sections of a file, from the one at `at` back along `/Prev`.
pub fn read_chain(bytes: &[u8], at: u64) -> (chain: Option<Vec<XrefSection>>)
    ensures
        match chain {
            Some(sections) => chain_at(bytes@, at as nat, MAX_SECTIONS as nat) == Some(
                section_views(sections@),
            ),
            None => chain_at(bytes@, at as nat, MAX_SECTIONS as nat) is None,
        },
{
    let mut sections: Vec<XrefSection> = Vec::new();
    let mut next: u64 = at;
    let mut left: usize = MAX_SECTIONS;
    let ghost whole = chain_at(bytes@, at as nat, MAX_SECTIONS as nat);
    proof {
        assert(section_views(sections@) =~= Seq::empty());
        if let Some(all) = whole {
            assert(section_views(sections@) + all =~= all);
        }
    }
    while left > 0
        invariant
            whole == chain_at(bytes@, at as nat, MAX_SECTIONS as nat),
            whole == after(section_views(sections@), chain_at(bytes@, next as nat, left as nat)),
        decreases left,
    {
        let ghost before = section_views(sections@);
        let section = match read_section(bytes, next) {
            Some(section) => section,
            None => return None,
        };
        let prev = number_entry(section.trailer.as_slice(), "Prev");
        let ghost found = section@;
        sections.push(section);
        proof {
            assert(section_views(sections@) =~= before + seq![found]);
            lemma_chain_step(bytes@, next as nat, left as nat, found, before);
        }
        left -= 1;
        match prev {
            Some(prev) => {
                next = prev;
            },
            None => return Some(sections),
        }
    }
    None
}

/// The highest object number that any of the sections speaks of.
pub fn chain_highest(sections: &[XrefSection]) -> (highest: Option<u32>)
    ensures
        opt_nat(highest) == highest_in_chain(section_views(sections@)),
{
    let ghost views = section_views(sections@);
    let mut highest: Option<u32> = None;
    let mut i: usize = 0;
    while i < sections.len()
        invariant
            i <= sections@.len(),
            views == section_views(sections@),
            opt_nat(highest) == highest_in_chain(views.take(i as int)),
        decreases sections@.len() - i,
    {
        assert(views.take(i + 1).drop_last() =~= views.take(i as int));
        highest = larger_of(highest, sections[i].highest);
        i += 1;
    }
    assert(views.take(i as int) =~= views);
    highest
}

/// A chain of sections starts with the one that was asked for, and goes from each
/// to the one that its trailer names as the one before, down to one that names none.
pub proof fn law_a_chain_leads_back(bytes: Seq<u8>, at: nat, most: nat)
    requires
        chain_at(bytes, at, most) is Some,
    ensures
        ({
            let chain = chain_at(bytes, at, most).unwrap();
            &&& 0 < chain.len() <= most
            &&& section_at(bytes, at) == Some(chain[0])
            &&& number_under(chain.last().trailer, "Prev"@) is None
            &&& forall|i: int|
                0 <= i < chain.len() - 1 ==> #[trigger] leads_back(bytes, chain[i], chain[i + 1])
        }),
    decreases most,
{
    let section = section_at(bytes, at).unwrap();
    let chain = chain_at(bytes, at, most).unwrap();
    match number_under(section.trailer, "Prev"@) {
        Some(prev) => {
            law_a_chain_leads_back(bytes, prev, (most - 1) as nat);
            let rest = chain_at(bytes, prev, (most - 1) as nat).unwrap();
            assert(chain =~= seq![section] + rest);
            assert(chain.last() == rest.last());
            assert forall|i: int| 0 <= i < chain.len() - 1 implies #[trigger] leads_back(
                bytes,
                chain[i],
                chain[i + 1],
            ) by {
                if i > 0 {
                    assert(leads_back(bytes, rest[i - 1], rest[i - 1 + 1]));
                }
            }
        },
        None => {},
    }
}

/// The trailer of a section names where another stands.
pub open spec fn leads_back(bytes: Seq<u8>, section: Section, older: Section) -> bool {
    number_under(section.trailer, "Prev"@) matches Some(prev) && section_at(bytes, prev) == Some(
        older,
    )
}

/// The highest number in a chain is the highest of one of its sections, and none
/// has a higher.
pub proof fn law_the_highest_number_is_highest(sections: Seq<Section>, i: int)
    requires
        0 <= i < sections.len(),
    ensures
        sections[i].highest matches Some(number) ==> highest_in_chain(sections) matches Some(most)
            && number <= most,
        highest_in_chain(sections) matches Some(most) ==> exists|k: int|
            0 <= k < sections.len() && (#[trigger] sections[k]).highest == Some(most),
    decreases sections.len(),
{
    let before = sections.drop_last();
    if before.len() > 0 {
        law_the_highest_number_is_highest(
            before,
            if i < before.len() {
                i
            } else {
                0
            },
        );
    }
    let last = sections.len() - 1;
    assert(sections[last] == sections.last());
    if let Some(most) = highest_in_chain(sections) {
        if sections[last].highest != Some(most) {
            assert(highest_in_chain(before) == Some(most));
            assert(before.len() > 0);
            let k = choose|k: int|
                0 <= k < before.len() && (#[trigger] before[k]).highest == Some(most);
            assert(sections[k] == before[k]);
        }
    }
    if i < before.len() {
        assert(before[i] == sections[i]);
    }
}

} // verus!
