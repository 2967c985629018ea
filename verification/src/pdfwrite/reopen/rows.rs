//! The rows of a cross-reference stream, read back, and what is found by them.

use crate::number::number_in;
use crate::pdfread::rows::{row_at, row_width, rows_by_run, rows_from, Widths};
use crate::pdfwrite::reopen::table::listed;
use crate::pdfwrite::section::{
    among, below, first_far, index_array, law_rows_are_ordered,
    number_run_end, ordered, row_bytes, rows_of, stream_data, Place, Row,
};
use crate::sign::document::object_index;
use vstd::prelude::*;

verus! {

/// The widths of the rows that are written.
pub open spec fn written_widths() -> Widths {
    (1, 4, 2)
}

/// The objects in use by the rows from `from` on.
pub open spec fn in_use(rows: Seq<Row>, from: int) -> Seq<(u32, u64)>
    decreases rows.len() - from,
{
    if !(0 <= from < rows.len()) {
        Seq::empty()
    } else {
        (if rows[from].kind == 1 {
            seq![(rows[from].number, rows[from].offset)]
        } else {
            Seq::empty()
        }) + in_use(rows, from + 1)
    }
}

/// Each row stands where four bytes can say.
pub open spec fn are_near(rows: Seq<Row>) -> bool {
    forall|i: int| 0 <= i < rows.len() ==> (#[trigger] rows[i]).offset <= u32::MAX
}

/// The runs that an `/Index` array of numbers speaks of.
pub open spec fn index_runs(index: Seq<u32>) -> Seq<(nat, nat)> {
    Seq::new(index.len() / 2, |k: int| (index[2 * k] as nat, index[2 * k + 1] as nat))
}

/// A pair of an `/Index` array is a run that has objects.
pub open spec fn has_objects(index: Seq<u32>, k: int) -> bool {
    index[2 * k + 1] > 0 && index[2 * k] + index[2 * k + 1] <= 0x1_0000_0000
}

/// Rows that no row is too far for are near.
pub proof fn lemma_near(rows: Seq<Row>, from: int)
    requires
        0 <= from <= rows.len(),
        first_far(rows, from) == rows.len(),
    ensures
        forall|i: int| from <= i < rows.len() ==> (#[trigger] rows[i]).offset <= u32::MAX,
    decreases rows.len() - from,
{
    if from < rows.len() {
        lemma_near(rows, from + 1);
    }
}

proof fn lemma_run(rows: Seq<Row>, from: int, at: int)
    requires
        0 <= from < at <= rows.len(),
        forall|k: int| from <= k < at ==> #[trigger] rows[k].number == rows[from].number + (k - from),
    ensures
        at <= number_run_end(rows, at) <= rows.len(),
        forall|k: int|
            from <= k < number_run_end(rows, at) ==> #[trigger] rows[k].number == rows[from].number + (k
                - from),
    decreases rows.len() - at,
{
    if at < rows.len() && rows[at].number == rows[at - 1].number + 1 {
        lemma_run(rows, from, at + 1);
    }
}

/// Each pair of an `/Index` array is a run that has objects.
pub proof fn lemma_index_is_read(rows: Seq<Row>, from: int)
    requires
        0 <= from <= rows.len() <= u32::MAX,
    ensures
        ({
            let index = index_array(rows, from);
            &&& index.len() % 2 == 0
            &&& forall|k: int| 0 <= k < index.len() / 2 ==> #[trigger] has_objects(index, k)
        }),
    decreases rows.len() - from,
{
    if from < rows.len() {
        lemma_run(rows, from, from + 1);
        let to = number_run_end(rows, from + 1);
        lemma_index_is_read(rows, to);
        let index = index_array(rows, from);
        let more = index_array(rows, to);
        assert(index == seq![rows[from].number, (to - from) as u32] + more);
        assert(rows[to - 1].number == rows[from].number + (to - 1 - from));
        assert forall|k: int| 0 <= k < index.len() / 2 implies #[trigger] has_objects(
            index,
            k,
        ) by {
            if k > 0 {
                assert(has_objects(more, k - 1));
                assert(index[2 * k] == more[2 * (k - 1)]);
                assert(index[2 * k + 1] == more[2 * (k - 1) + 1]);
            }
        }
    }
}

proof fn lemma_data(rows: Seq<Row>, n: nat, k: int, i: int)
    requires
        0 <= k < n <= rows.len(),
        0 <= i < 7,
    ensures
        stream_data(rows, n).len() == 7 * n,
        stream_data(rows, n)[7 * k + i] == row_bytes(rows[k])[i],
    decreases n,
{
    lemma_data_len(rows, n);
    lemma_data_len(rows, (n - 1) as nat);
    if k < n - 1 {
        lemma_data(rows, (n - 1) as nat, k, i);
    }
}

proof fn lemma_data_len(rows: Seq<Row>, n: nat)
    requires
        n <= rows.len(),
    ensures
        stream_data(rows, n).len() == 7 * n,
    decreases n,
{
    if n > 0 {
        lemma_data_len(rows, (n - 1) as nat);
    }
}

/// A row is read as it was written.
proof fn lemma_row_is_read(rows: Seq<Row>, k: int)
    requires
        0 <= k < rows.len(),
        rows[k].offset <= u32::MAX,
    ensures
        row_at(
            stream_data(rows, rows.len()),
            written_widths(),
            7 * k,
            rows[k].number as nat,
        ) == if rows[k].kind == 1 {
            seq![(rows[k].number, rows[k].offset)]
        } else {
            Seq::<(u32, u64)>::empty()
        },
{
    let data = stream_data(rows, rows.len());
    let row = rows[k];
    let at = 7 * k;
    lemma_data(rows, rows.len(), k, 0);
    lemma_data(rows, rows.len(), k, 1);
    lemma_data(rows, rows.len(), k, 2);
    lemma_data(rows, rows.len(), k, 3);
    lemma_data(rows, rows.len(), k, 4);
    let bytes = row_bytes(row);
    let n = row.offset as nat;
    assert(bytes[0] == row.kind);
    assert(bytes[1] == (n / 0x100_0000) as u8);
    assert(bytes[2] == (n / 0x1_0000 % 0x100) as u8);
    assert(bytes[3] == (n / 0x100 % 0x100) as u8);
    assert(bytes[4] == (n % 0x100) as u8);
    reveal_with_fuel(number_in, 5);
    assert(number_in(data, at, 1) == row.kind);
    assert(number_in(data, at + 1, 4) == ((bytes[1] as nat * 256 + bytes[2] as nat) * 256
        + bytes[3] as nat) * 256 + bytes[4] as nat);
    assert(number_in(data, at + 1, 4) == n);
}

/// The rows of a run are read as they were written.
proof fn lemma_run_is_read(rows: Seq<Row>, from: int, to: int)
    requires
        0 <= from <= to <= rows.len(),
        are_near(rows),
        from < to ==> forall|k: int|
            from <= k < to ==> #[trigger] rows[k].number == rows[from].number + (k - from),
    ensures
        from < to ==> rows_from(
            stream_data(rows, rows.len()),
            written_widths(),
            7 * from,
            rows[from].number as nat,
            (to - from) as nat,
        ) + in_use(rows, to) == in_use(rows, from),
    decreases to - from,
{
    if from < to {
        let data = stream_data(rows, rows.len());
        let w = written_widths();
        lemma_data_len(rows, rows.len());
        assert(rows[from].offset <= u32::MAX);
        lemma_row_is_read(rows, from);
        let row = row_at(data, w, 7 * from, rows[from].number as nat);
        let more = rows_from(
            data,
            w,
            7 * (from + 1),
            rows[from].number as nat + 1,
            (to - from - 1) as nat,
        );
        assert(row_width(w) == 7);
        assert(rows_from(
            data,
            w,
            7 * from,
            rows[from].number as nat,
            (to - from) as nat,
        ) == row + more);
        if from + 1 < to {
            assert(rows[from + 1].number == rows[from].number + 1);
            lemma_run_is_read(rows, from + 1, to);
        } else {
            assert(more =~= Seq::empty());
            assert(more + in_use(rows, to) =~= in_use(rows, to));
        }
        assert(row + more + in_use(rows, to) =~= row + (more + in_use(rows, to)));
    }
}

/// The rows of a cross-reference stream are read back, by the runs of its
/// `/Index`: the objects in use are those that the rows say are.
pub proof fn law_rows_are_read_back(
    rows: Seq<Row>,
    data: Seq<u8>,
    runs: Seq<(nat, nat)>,
    k: int,
    from: int,
)
    requires
        0 <= from <= rows.len() <= u32::MAX,
        are_near(rows),
        data == stream_data(rows, rows.len()),
        0 <= k <= runs.len(),
        runs.skip(k) == index_runs(index_array(rows, from)),
    ensures
        rows_by_run(data, written_widths(), 7 * from, runs, k) == in_use(rows, from),
    decreases rows.len() - from,
{
    if from < rows.len() {
        lemma_run(rows, from, from + 1);
        let to = number_run_end(rows, from + 1);
        let index = index_array(rows, from);
        let more = index_array(rows, to);
        assert(index == seq![rows[from].number, (to - from) as u32] + more);
        assert(index_runs(index).len() == index.len() / 2);
        assert(runs.skip(k).len() > 0);
        assert(runs[k] == runs.skip(k)[0]);
        assert(runs[k] == (rows[from].number as nat, (to - from) as nat));
        assert(runs.skip(k + 1) =~= index_runs(more)) by {
            assert forall|j: int| 0 <= j < index_runs(more).len() implies runs.skip(k + 1)[j]
                == index_runs(more)[j] by {
                assert(runs.skip(k + 1)[j] == runs.skip(k)[j + 1]);
                assert(index[2 * (j + 1)] == more[2 * j]);
                assert(index[2 * (j + 1) + 1] == more[2 * j + 1]);
            }
        }
        law_rows_are_read_back(rows, data, runs, k + 1, to);
        lemma_run_is_read(rows, from, to);
        let count = (to - from) as nat;
        let width = row_width(written_widths());
        assert(7 * from + width * count == 7 * to) by (nonlinear_arith)
            requires
                width == 7,
                count == to - from,
        ;
    } else {
        assert(index_runs(index_array(rows, from)).len() == 0);
        assert(runs.skip(k).len() == runs.len() - k);
    }
}

/// Where the first object of a number stands.
pub open spec fn offset_of(offsets: Seq<(u32, u64)>, number: nat) -> Option<u64> {
    let index = object_index(offsets, number, 0);
    if index < offsets.len() {
        Some(offsets[index].1)
    } else {
        None
    }
}

pub proof fn lemma_object_index(objects: Seq<(u32, u64)>, number: nat, from: int)
    requires
        0 <= from <= objects.len(),
    ensures
        from <= object_index(objects, number, from) <= objects.len(),
        object_index(objects, number, from) < objects.len() ==> objects[object_index(
            objects,
            number,
            from,
        )].0 == number,
        forall|i: int|
            from <= i < object_index(objects, number, from) ==> (#[trigger] objects[i]).0
                != number,
    decreases objects.len() - from,
{
    if from < objects.len() && objects[from].0 != number {
        lemma_object_index(objects, number, from + 1);
    }
}

/// Of rows with the same number the first stays when rows are put in order.
proof fn lemma_first_stays(rows: Seq<Row>, n: nat, j: int)
    requires
        0 <= j < n <= rows.len(),
        forall|i: int| 0 <= i < j ==> (#[trigger] rows[i]).number != rows[j].number,
    ensures
        ordered(rows, n).contains(rows[j]),
    decreases n,
{
    let before = ordered(rows, (n - 1) as nat);
    let row = rows[n - 1];
    let at = below(before, row.number) as int;
    let after = ordered(rows, n);
    law_rows_are_ordered(rows, (n - 1) as nat);
    crate::pdfwrite::section::lemma_below_len(before, row.number);
    if j == n - 1 {
        if at < before.len() && before[at].number == row.number {
            assert(among(rows, n - 1, before[at]));
            let i = choose|i: int| 0 <= i < n - 1 && #[trigger] rows[i] == before[at];
            assert(rows[i].number == row.number);
        } else {
            assert(after[at] == row);
        }
    } else {
        lemma_first_stays(rows, (n - 1) as nat, j);
        let k = choose|k: int| 0 <= k < before.len() && before[k] == rows[j];
        if after != before {
            if k < at {
                assert(after[k] == rows[j]);
            } else {
                assert(after[k + 1] == rows[j]);
            }
        }
    }
}

/// A row from `from` on says that this object is in use.
spec fn says_in_use(rows: Seq<Row>, from: int, object: (u32, u64)) -> bool {
    exists|j: int|
        from <= j < rows.len() && (#[trigger] rows[j]).kind == 1 && rows[j].number == object.0
            && rows[j].offset == object.1
}

/// What is in use by rows is one of the rows, and a row in use is among it.
proof fn lemma_in_use(rows: Seq<Row>, from: int)
    requires
        0 <= from <= rows.len(),
    ensures
        forall|i: int|
            0 <= i < in_use(rows, from).len() ==> says_in_use(
                rows,
                from,
                #[trigger] in_use(rows, from)[i],
            ),
        forall|j: int|
            from <= j < rows.len() && (#[trigger] rows[j]).kind == 1 ==> in_use(
                rows,
                from,
            ).contains((rows[j].number, rows[j].offset)),
    decreases rows.len() - from,
{
    if from < rows.len() {
        lemma_in_use(rows, from + 1);
        let all = in_use(rows, from);
        let more = in_use(rows, from + 1);
        let head = all.len() - more.len();
        assert forall|i: int| 0 <= i < all.len() implies says_in_use(
            rows,
            from,
            #[trigger] all[i],
        ) by {
            if i >= head {
                assert(all[i] == more[i - head]);
                let j = choose|j: int|
                    from + 1 <= j < rows.len() && (#[trigger] rows[j]).kind == 1 && rows[j].number
                        == all[i].0 && rows[j].offset == all[i].1;
                assert(rows[j].number == all[i].0);
            } else {
                assert(rows[from].number == all[i].0);
            }
        }
        assert forall|j: int| from <= j < rows.len() && (#[trigger] rows[j]).kind == 1 implies all.contains(
            (rows[j].number, rows[j].offset),
        ) by {
            if j == from {
                assert(all[0] == (rows[j].number, rows[j].offset));
            } else {
                let i = choose|i: int|
                    0 <= i < more.len() && more[i] == (rows[j].number, rows[j].offset);
                assert(all[head + i] == more[i]);
            }
        }
    }
}

/// By the rows of an update an object is found where its place says: the first,
/// where a number stands twice. An object that the update does not hold is not
/// found by them.
pub proof fn law_rows_lead_to_their_objects(places: Seq<Place>, own: Place, number: u32)
    requires
        number != 0,
        number != own.0,
    ensures
        ({
            let all = rows_of(places, own);
            offset_of(in_use(ordered(all, all.len()), 0), number as nat) == offset_of(
                listed(places),
                number as nat,
            )
        }),
{
    let all = rows_of(places, own);
    let rows = ordered(all, all.len());
    let found = in_use(rows, 0);
    let list = listed(places);
    law_rows_are_ordered(all, all.len());
    lemma_in_use(rows, 0);
    lemma_object_index(found, number as nat, 0);
    lemma_object_index(list, number as nat, 0);
    let i = object_index(found, number as nat, 0);
    let p = object_index(list, number as nat, 0);
    if p < list.len() {
        let row = all[p + 1];
        assert(list[p] == (places[p].0, places[p].2));
        assert(row.number == number && row.kind == 1 && row.offset == list[p].1);
        assert forall|k: int| 0 <= k < p + 1 implies (#[trigger] all[k]).number != row.number by {
            if k > 0 {
                assert(list[k - 1] == (places[k - 1].0, places[k - 1].2));
            }
        }
        lemma_first_stays(all, all.len(), p + 1);
        let r = choose|r: int| 0 <= r < rows.len() && rows[r] == row;
        assert(found.contains((rows[r].number, rows[r].offset)));
        let w = choose|w: int| 0 <= w < found.len() && found[w] == (row.number, row.offset);
        assert(found[w].0 == number);
        assert(i <= w);
        assert(says_in_use(rows, 0, found[i]));
        let j = choose|j: int|
            0 <= j < rows.len() && (#[trigger] rows[j]).kind == 1 && rows[j].number == found[i].0
                && rows[j].offset == found[i].1;
        assert(rows[j].number == rows[r].number);
        assert(j == r) by {
            if j < r {
                assert(rows[j].number < rows[r].number);
            } else if r < j {
                assert(rows[r].number < rows[j].number);
            }
        }
    } else if i < found.len() {
        assert(says_in_use(rows, 0, found[i]));
        let j = choose|j: int|
            0 <= j < rows.len() && (#[trigger] rows[j]).kind == 1 && rows[j].number == found[i].0
                && rows[j].offset == found[i].1;
        assert(among(all, all.len() as int, rows[j]));
        let a = choose|a: int| 0 <= a < all.len() && #[trigger] all[a] == rows[j];
        assert(all[a].number == number);
        if 0 < a < all.len() - 1 {
            assert(list[a - 1] == (places[a - 1].0, places[a - 1].2));
            assert(list[a - 1].0 == number);
        }
    }
}

} // verus!
