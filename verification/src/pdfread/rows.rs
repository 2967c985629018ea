//! The rows of a cross-reference stream.

use crate::number::{number_in, read_number};
use crate::pdfread::dictionary::{entry, lookup, Entries};
use crate::pdfread::filter::{decode, decoded};
use crate::pdfread::xref::{number_entry, number_under};
use crate::pdfwrite::object::{
    entry_values, item_values, lemma_container_values, PdfObject, PdfValue,
};
use crate::pdfwrite::tokenizer::{find_stream_tail, stream_tail};
use vstd::prelude::*;
use vstd::slice::slice_subrange;

verus! {

/// How many bytes the fields of a row have: its kind, where an object stands,
/// and its generation.
pub type Widths = (nat, nat, nat);

/// How many bytes a row has.
pub open spec fn row_width(widths: Widths) -> nat {
    widths.0 + widths.1 + widths.2
}

/// Is this a width of a field?
pub open spec fn is_width(value: PdfValue) -> bool {
    value matches PdfValue::Integer(n) && 0 <= n <= 8
}

/// The widths that a cross-reference stream declares.
pub open spec fn widths_of(entries: Entries) -> Option<Widths> {
    match lookup(entries, "W"@) {
        Some(PdfValue::Array(items)) => if items.len() >= 3 && is_width(items[0]) && is_width(
            items[1],
        ) && is_width(items[2]) {
            Some(
                (
                    items[0]->Integer_0 as nat,
                    items[1]->Integer_0 as nat,
                    items[2]->Integer_0 as nat,
                ),
            )
        } else {
            None
        },
        _ => None,
    }
}

/// A run of objects: the first number and how many there are. A pair that is
/// no run has none.
pub open spec fn run_in(first: PdfValue, count: PdfValue) -> (nat, nat) {
    match (first, count) {
        (PdfValue::Integer(first), PdfValue::Integer(count)) => if first >= 0 && count > 0 && first
            + count <= 0x1_0000_0000 {
            (first as nat, count as nat)
        } else {
            (0, 0)
        },
        _ => (0, 0),
    }
}

/// The runs that an `/Index` array speaks of.
pub open spec fn runs_in(items: Seq<PdfValue>) -> Seq<(nat, nat)> {
    Seq::new(items.len() / 2, |k: int| run_in(items[2 * k], items[2 * k + 1]))
}

/// The runs of objects that the rows of a cross-reference stream are about: by
/// its `/Index`, or all below its `/Size` when it has none.
pub open spec fn runs_of(entries: Entries) -> Seq<(nat, nat)> {
    match lookup(entries, "Index"@) {
        Some(PdfValue::Array(items)) => runs_in(items),
        _ => match number_under(entries, "Size"@) {
            Some(size) => if size <= 0x1_0000_0000 {
                seq![(0, size)]
            } else {
                Seq::empty()
            },
            None => Seq::empty(),
        },
    }
}

/// The object that the row at `at` says is in use. A row without a kind is
/// about one that is.
pub open spec fn row_at(data: Seq<u8>, widths: Widths, at: int, number: nat) -> Seq<(u32, u64)> {
    if widths.0 == 0 || number_in(data, at, widths.0) == 1 {
        seq![(number as u32, number_in(data, (at + widths.0) as int, widths.1) as u64)]
    } else {
        Seq::empty()
    }
}

/// The objects in use among the `count` rows from `at` on, which are about the
/// objects from `first` on. What is no whole row is left out.
pub open spec fn rows_from(
    data: Seq<u8>,
    widths: Widths,
    at: int,
    first: nat,
    count: nat,
) -> Seq<(u32, u64)>
    decreases count,
{
    if count == 0 || at + row_width(widths) > data.len() {
        Seq::empty()
    } else {
        row_at(data, widths, at, first) + rows_from(
            data,
            widths,
            (at + row_width(widths)) as int,
            first + 1,
            (count - 1) as nat,
        )
    }
}

/// The objects in use by the rows from `at` on, which are about the runs from
/// the one at `k` on.
pub open spec fn rows_by_run(
    data: Seq<u8>,
    widths: Widths,
    at: int,
    runs: Seq<(nat, nat)>,
    k: int,
) -> Seq<(u32, u64)>
    decreases runs.len() - k,
{
    if !(0 <= k < runs.len()) {
        Seq::empty()
    } else {
        rows_from(data, widths, at, runs[k].0, runs[k].1) + rows_by_run(
            data,
            widths,
            (at + row_width(widths) * runs[k].1) as int,
            runs,
            k + 1,
        )
    }
}

/// What the rows of a cross-reference stream say, when the file goes on like
/// this from the start of the stream.
pub open spec fn rows_read(entries: Entries, rest: Seq<u8>) -> Seq<(u32, u64)> {
    match (stream_tail(rest, 0), number_under(entries, "Length"@), widths_of(entries)) {
        (Some(tail), Some(length), Some(widths)) => if length <= tail.len() && row_width(widths)
            > 0 {
            match decoded(entries, tail.take(length as int)) {
                Some(data) => rows_by_run(data, widths, 0, runs_of(entries), 0),
                None => Seq::empty(),
            }
        } else {
            Seq::empty()
        },
        _ => Seq::empty(),
    }
}

fn width_of(item: &PdfObject) -> (width: Option<usize>)
    ensures
        match width {
            Some(n) => is_width(item@) && item@->Integer_0 == n && n <= 8,
            None => !is_width(item@),
        },
{
    match item {
        PdfObject::Integer(n) => if 0 <= *n && *n <= 8 {
            Some(*n as usize)
        } else {
            None
        },
        _ => None,
    }
}

/// The widths that a cross-reference stream declares.
fn read_widths(entries: &[(String, PdfObject)]) -> (widths: Option<(usize, usize, usize)>)
    ensures
        match widths {
            Some((a, b, c)) => widths_of(entry_values(entries@)) == Some(
                (a as nat, b as nat, c as nat),
            ) && a <= 8 && b <= 8 && c <= 8,
            None => widths_of(entry_values(entries@)) is None,
        },
{
    match entry(entries, "W") {
        Some(PdfObject::Array(items)) => {
            proof {
                lemma_container_values(PdfObject::Array(*items));
            }
            let ghost values = item_values(items@);
            if items.len() < 3 {
                return None;
            }
            assert(values[0] == items@[0]@ && values[1] == items@[1]@ && values[2] == items@[2]@);
            match (width_of(&items[0]), width_of(&items[1]), width_of(&items[2])) {
                (Some(a), Some(b), Some(c)) => Some((a, b, c)),
                _ => None,
            }
        },
        _ => None,
    }
}

/// The views of runs.
pub open spec fn run_views(runs: Seq<(u64, u64)>) -> Seq<(nat, nat)> {
    runs.map_values(|run: (u64, u64)| (run.0 as nat, run.1 as nat))
}

fn read_run(first: &PdfObject, count: &PdfObject) -> (run: (u64, u64))
    ensures
        (run.0 as nat, run.1 as nat) == run_in(first@, count@),
        run.0 + run.1 <= 0x1_0000_0000,
{
    if let (PdfObject::Integer(first), PdfObject::Integer(count)) = (first, count) {
        if *first >= 0 && *count > 0 && *first <= 0x1_0000_0000 && *count <= 0x1_0000_0000
            && *first + *count <= 0x1_0000_0000 {
            return (*first as u64, *count as u64);
        }
    }
    (0, 0)
}

/// The runs of objects that a cross-reference stream is about.
pub fn read_runs(entries: &[(String, PdfObject)]) -> (runs: Vec<(u64, u64)>)
    ensures
        run_views(runs@) == runs_of(entry_values(entries@)),
        forall|k: int| 0 <= k < runs@.len() ==> (#[trigger] runs@[k]).0 + runs@[k].1 <= 0x1_0000_0000,
{
    let mut runs: Vec<(u64, u64)> = Vec::new();
    match entry(entries, "Index") {
        Some(PdfObject::Array(items)) => {
            proof {
                lemma_container_values(PdfObject::Array(*items));
            }
            let ghost values = item_values(items@);
            let total: usize = items.len();
            let pairs: usize = total / 2;
            let mut k: usize = 0;
            while k < pairs
                invariant
                    k <= pairs,
                    total == items@.len(),
                    pairs == total / 2,
                    values == item_values(items@),
                    runs@.len() == k,
                    forall|j: int|
                        0 <= j < k ==> (#[trigger] runs@[j]).0 + runs@[j].1 <= 0x1_0000_0000 && (
                        runs@[j].0 as nat, runs@[j].1 as nat) == run_in(
                            values[2 * j],
                            values[2 * j + 1],
                        ),
                decreases pairs - k,
            {
                assert(values[2 * k] == items@[2 * k]@);
                assert(values[2 * k + 1] == items@[2 * k + 1]@);
                runs.push(read_run(&items[2 * k], &items[2 * k + 1]));
                k += 1;
            }
            assert(run_views(runs@) =~= runs_in(values));
        },
        _ => {
            match number_entry(entries, "Size") {
                Some(size) => {
                    if size <= 0x1_0000_0000 {
                        runs.push((0, size));
                    }
                },
                None => {},
            }
            assert(run_views(runs@) =~= runs_of(entry_values(entries@)));
        },
    }
    runs
}

/// Reads the rows about one run.
fn read_run_rows(
    data: &[u8],
    widths: (usize, usize, usize),
    from: usize,
    run: (u64, u64),
    out: &mut Vec<(u32, u64)>,
)
    requires
        widths.0 <= 8,
        widths.1 <= 8,
        widths.2 <= 8,
        row_width((widths.0 as nat, widths.1 as nat, widths.2 as nat)) > 0,
        from <= data@.len(),
        run.0 + run.1 <= 0x1_0000_0000,
    ensures
        final(out)@ == old(out)@ + rows_from(
            data@,
            (widths.0 as nat, widths.1 as nat, widths.2 as nat),
            from as int,
            run.0 as nat,
            run.1 as nat,
        ),
{
    let ghost w: Widths = (widths.0 as nat, widths.1 as nat, widths.2 as nat);
    let width: usize = widths.0 + widths.1 + widths.2;
    let ghost whole = rows_from(data@, w, from as int, run.0 as nat, run.1 as nat);
    let ghost before = out@;
    let total: usize = data.len();
    let mut at: usize = from;
    let mut k: u64 = 0;
    assert(out@ + whole =~= before + whole);
    while k < run.1 && total - at >= width
        invariant
            k <= run.1,
            at <= total,
            total == data@.len(),
            run.0 + run.1 <= 0x1_0000_0000,
            w == (widths.0 as nat, widths.1 as nat, widths.2 as nat),
            widths.0 <= 8,
            widths.1 <= 8,
            widths.2 <= 8,
            width == row_width(w),
            out@ + rows_from(
                data@,
                w,
                at as int,
                (run.0 + k) as nat,
                (run.1 - k) as nat,
            ) == before + whole,
        decreases run.1 - k,
    {
        let ghost now = out@;
        let ghost first = (run.0 + k) as nat;
        let ghost more = rows_from(
            data@,
            w,
            at + width,
            first + 1,
            (run.1 - k - 1) as nat,
        );
        let ghost row = row_at(data@, w, at as int, first);
        if widths.0 == 0 || read_number(data, at, widths.0) == 1 {
            let offset = read_number(data, at + widths.0, widths.1);
            out.push(((run.0 + k) as u32, offset));
        }
        proof {
            assert(out@ =~= now + row);
            assert(now + (row + more) =~= out@ + more);
        }
        at += width;
        k += 1;
    }
    proof {
        let left = rows_from(
            data@,
            w,
            at as int,
            (run.0 + k) as nat,
            (run.1 - k) as nat,
        );
        assert(left =~= Seq::empty());
        assert(out@ + left =~= out@);
    }
}

proof fn lemma_no_rows_left(
    data: Seq<u8>,
    widths: Widths,
    at: int,
    runs: Seq<(nat, nat)>,
    k: int,
)
    requires
        at + row_width(widths) > data.len(),
    ensures
        rows_by_run(data, widths, at, runs, k) == Seq::<(u32, u64)>::empty(),
    decreases runs.len() - k,
{
    if 0 <= k < runs.len() {
        let skipped = row_width(widths) * runs[k].1;
        assert(skipped >= 0) by (nonlinear_arith)
            requires
                skipped == row_width(widths) * runs[k].1,
        ;
        lemma_no_rows_left(data, widths, (at + skipped) as int, runs, k + 1);
        assert(rows_by_run(data, widths, at, runs, k) =~= Seq::empty());
    }
}

fn read_runs_rows(data: &[u8], widths: (usize, usize, usize), runs: &[(u64, u64)]) -> (out: Vec<
    (u32, u64),
>)
    requires
        widths.0 <= 8,
        widths.1 <= 8,
        widths.2 <= 8,
        row_width((widths.0 as nat, widths.1 as nat, widths.2 as nat)) > 0,
        forall|k: int|
            0 <= k < runs@.len() ==> (#[trigger] runs@[k]).0 + runs@[k].1 <= 0x1_0000_0000,
    ensures
        out@ == rows_by_run(
            data@,
            (widths.0 as nat, widths.1 as nat, widths.2 as nat),
            0,
            run_views(runs@),
            0,
        ),
{
    let ghost w: Widths = (widths.0 as nat, widths.1 as nat, widths.2 as nat);
    let width: usize = widths.0 + widths.1 + widths.2;
    let ghost views = run_views(runs@);
    let ghost whole = rows_by_run(data@, w, 0, views, 0);
    let total: usize = data.len();
    let mut out: Vec<(u32, u64)> = Vec::new();
    let mut at: usize = 0;
    let mut k: usize = 0;
    assert(out@ + whole =~= whole);
    while k < runs.len() && total - at >= width
        invariant
            k <= runs@.len(),
            at <= total,
            total == data@.len(),
            w == (widths.0 as nat, widths.1 as nat, widths.2 as nat),
            widths.0 <= 8,
            widths.1 <= 8,
            widths.2 <= 8,
            width == row_width(w),
            width > 0,
            views == run_views(runs@),
            forall|k: int|
                0 <= k < runs@.len() ==> (#[trigger] runs@[k]).0 + runs@[k].1 <= 0x1_0000_0000,
            whole == rows_by_run(data@, w, 0, views, 0),
            out@ + rows_by_run(data@, w, at as int, views, k as int) == whole,
        decreases runs@.len() - k,
    {
        let ghost now = out@;
        let run: (u64, u64) = runs[k];
        assert(views[k as int] == (run.0 as nat, run.1 as nat));
        read_run_rows(data, widths, at, run, &mut out);
        let ghost rows = rows_from(data@, w, at as int, run.0 as nat, run.1 as nat);
        let ghost next = at + row_width(w) * (run.1 as nat);
        let ghost more = rows_by_run(data@, w, next as int, views, k + 1);
        assert(rows_by_run(data@, w, at as int, views, k as int) == rows + more);
        assert(now + (rows + more) =~= out@ + more);
        let left: u64 = ((total - at) / width) as u64;
        if run.1 > left {
            proof {
                let rows_left = left as int;
                let room = (total - at) as int;
                assert(next + width > data@.len()) by (nonlinear_arith)
                    requires
                        rows_left == room / (width as int),
                        width > 0,
                        run.1 > rows_left,
                        next == at + width * run.1,
                        room == data@.len() - at,
                ;
                lemma_no_rows_left(data@, w, next as int, views, k + 1);
                assert(out@ + more =~= out@);
            }
            return out;
        }
        proof {
            let rows_left = left as int;
            let room = (total - at) as int;
            assert(width * run.1 <= room) by (nonlinear_arith)
                requires
                    rows_left == room / (width as int),
                    width > 0,
                    room >= 0,
                    run.1 <= rows_left,
            ;
        }
        at += width * (run.1 as usize);
        k += 1;
    }
    proof {
        if k < runs@.len() {
            lemma_no_rows_left(data@, w, at as int, views, k as int);
        }
        let left = rows_by_run(data@, w, at as int, views, k as int);
        assert(left =~= Seq::empty());
        assert(out@ + left =~= out@);
    }
    out
}

/// Reads the rows of a cross-reference stream.
pub fn read_stream_rows(entries: &[(String, PdfObject)], rest: &[u8]) -> (rows: Vec<(u32, u64)>)
    ensures
        rows@ == rows_read(entry_values(entries@), rest@),
{
    let none: Vec<(u32, u64)> = Vec::new();
    assert(none@ =~= Seq::empty());
    let (tail, length, widths) = match (
        find_stream_tail(rest),
        number_entry(entries, "Length"),
        read_widths(entries),
    ) {
        (Some(tail), Some(length), Some(widths)) => (tail, length, widths),
        _ => return none,
    };
    if length > tail.len() as u64 || widths.0 + widths.1 + widths.2 == 0 {
        return none;
    }
    let raw = slice_subrange(tail, 0, length as usize);
    assert(raw@ =~= tail@.take(length as int));
    match decode(entries, raw) {
        Some(data) => {
            let runs = read_runs(entries);
            read_runs_rows(data.as_slice(), widths, runs.as_slice())
        },
        None => none,
    }
}

} // verus!
