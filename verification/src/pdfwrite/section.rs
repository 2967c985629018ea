//! The cross-reference data of an update: how rows are ordered, grouped and
//! written, as a table and as a stream.

use crate::bytes::{
    decimal, padded_decimal, push_bytes, push_decimal, push_padded_decimal, push_text, text_bytes,
    utf8,
};
use vstd::prelude::*;

verus! {

/// Where an object stands: its number, its generation and its offset.
pub type Place = (u32, u16, u64);

/// The end of the run of consecutive object numbers that `at - 1` belongs to.
pub open spec fn run_end(places: Seq<Place>, at: int) -> int
    decreases places.len() - at,
{
    if !(1 <= at < places.len()) || places[at].0 != places[at - 1].0 + 1 {
        at
    } else {
        run_end(places, at + 1)
    }
}

/// One row of a table: ten digits of offset, five of generation.
pub open spec fn table_row(place: Place) -> Seq<u8> {
    padded_decimal(place.2 as nat, 10) + utf8(" "@) + padded_decimal(place.1 as nat, 5) + utf8(
        " n \n"@,
    )
}

/// The rows from `from` to `to`.
pub open spec fn table_rows(places: Seq<Place>, from: int, to: int) -> Seq<u8>
    decreases to - from,
{
    if from >= to {
        Seq::empty()
    } else {
        table_rows(places, from, to - 1) + table_row(places[to - 1])
    }
}

/// The subsections from `from` on, one for each run of consecutive numbers:
/// the first number, how many there are, and their rows.
pub open spec fn subsections(places: Seq<Place>, from: int) -> Seq<u8>
    decreases places.len() - from,
{
    if !(0 <= from < places.len()) {
        Seq::empty()
    } else {
        let to = run_end(places, from + 1);
        if from < to <= places.len() {
            decimal(places[from].0 as nat) + utf8(" "@) + decimal((to - from) as nat) + utf8("\n"@)
                + table_rows(places, from, to) + subsections(places, to)
        } else {
            Seq::empty()
        }
    }
}

/// A cross-reference table. It starts with the head of the free list, which is
/// object 0.
pub open spec fn table_bytes(places: Seq<Place>) -> Seq<u8> {
    utf8("xref\n0 1\n0000000000 65535 f \n"@) + subsections(places, 0)
}

/// Where the run of consecutive numbers that starts at `from` ends.
fn find_run_end(places: &[Place], from: usize) -> (to: usize)
    requires
        from < places@.len(),
    ensures
        to == run_end(places@, from + 1),
        from < to <= places@.len(),
{
    let total: usize = places.len();
    let mut to: usize = from + 1;
    while to < total && places[to - 1].0 < u32::MAX && places[to].0 == places[to - 1].0 + 1
        invariant
            from < to <= places@.len(),
            total == places@.len(),
            run_end(places@, to as int) == run_end(places@, from + 1),
        decreases places@.len() - to,
    {
        to += 1;
    }
    to
}

/// Writes a cross-reference table.
pub fn write_xref_table(places: &[Place]) -> (out: Vec<u8>)
    ensures
        out@ == table_bytes(places@),
{
    let mut out = text_bytes("xref\n0 1\n0000000000 65535 f \n");
    let ghost head = out@;
    let mut from: usize = 0;
    let mut body: Vec<u8> = Vec::new();
    assert(body@ + subsections(places@, 0) =~= subsections(places@, 0));
    while from < places.len()
        invariant
            from <= places@.len(),
            body@ + subsections(places@, from as int) == subsections(places@, 0),
        decreases places@.len() - from,
    {
        let to = find_run_end(places, from);
        let ghost before = body@;
        let mut block: Vec<u8> = Vec::new();
        push_decimal(&mut block, places[from].0 as u64);
        assert(block@ =~= decimal(places@[from as int].0 as nat));
        push_text(&mut block, " ");
        push_decimal(&mut block, (to - from) as u64);
        push_text(&mut block, "\n");
        let ghost first_line = block@;
        let mut k: usize = from;
        assert(first_line + table_rows(places@, from as int, from as int) =~= first_line);
        while k < to
            invariant
                from <= k <= to <= places@.len(),
                block@ == first_line + table_rows(places@, from as int, k as int),
            decreases to - k,
        {
            let ghost longer = block@;
            push_padded_decimal(&mut block, places[k].2, 10);
            push_text(&mut block, " ");
            push_padded_decimal(&mut block, places[k].1 as u64, 5);
            push_text(&mut block, " n \n");
            assert(block@ =~= longer + table_row(places@[k as int]));
            k += 1;
            assert(block@ =~= first_line + table_rows(places@, from as int, k as int));
        }
        push_bytes(&mut body, block.as_slice());
        proof {
            assert(subsections(places@, from as int) == block@ + subsections(places@, to as int));
            assert(before + (block@ + subsections(places@, to as int)) =~= body@ + subsections(
                places@,
                to as int,
            ));
        }
        from = to;
    }
    assert(body@ =~= subsections(places@, 0));
    push_bytes(&mut out, body.as_slice());
    out
}

/// A row of a cross-reference stream.
#[derive(Debug, Clone, Copy, PartialEq, Eq, Structural)]
pub struct Row {
    pub number: u32,
    /// 0 for a free object, 1 for one in use.
    pub kind: u8,
    pub offset: u64,
    pub generation: u16,
}

/// The rows of an update before they are put in order: the head of the free
/// list, the objects, and the stream itself.
pub open spec fn rows_of(places: Seq<Place>, own: Place) -> Seq<Row> {
    seq![Row { number: 0, kind: 0, offset: 0, generation: 65535 }] + places.map_values(
        |place: Place| Row { number: place.0, kind: 1, offset: place.2, generation: place.1 },
    ) + seq![Row { number: own.0, kind: 1, offset: own.2, generation: own.1 }]
}

/// How many rows at the front of an ordered list have a number below `number`.
pub open spec fn below(rows: Seq<Row>, number: u32) -> nat
    decreases rows.len(),
{
    if rows.len() == 0 {
        0
    } else if rows.last().number < number {
        rows.len()
    } else {
        below(rows.drop_last(), number)
    }
}

/// The first `n` rows in the order of their numbers. Of rows with the same
/// number, the first stays.
pub open spec fn ordered(rows: Seq<Row>, n: nat) -> Seq<Row>
    decreases n,
{
    if n == 0 || n > rows.len() {
        Seq::empty()
    } else {
        let before = ordered(rows, (n - 1) as nat);
        let row = rows[n - 1];
        let at = below(before, row.number) as int;
        if at < before.len() && before[at].number == row.number {
            before
        } else {
            before.insert(at, row)
        }
    }
}

/// Numbers that grow from row to row.
pub open spec fn increasing(rows: Seq<Row>) -> bool {
    forall|i: int, j: int| 0 <= i < j < rows.len() ==> #[trigger] rows[i].number < #[trigger] rows[j].number
}

/// In strictly increasing numbers a row has no number below its place.
pub proof fn lemma_at_least(rows: Seq<Row>, i: int)
    requires
        increasing(rows),
        0 <= i < rows.len(),
    ensures
        rows[i].number >= i,
    decreases i,
{
    if i > 0 {
        lemma_at_least(rows, i - 1);
        assert(rows[i - 1].number < rows[i].number);
    }
}

proof fn lemma_below(rows: Seq<Row>, number: u32)
    requires
        increasing(rows),
    ensures
        below(rows, number) <= rows.len(),
        forall|i: int| 0 <= i < below(rows, number) ==> #[trigger] rows[i].number < number,
        forall|i: int| below(rows, number) <= i < rows.len() ==> #[trigger] rows[i].number >= number,
    decreases rows.len(),
{
    if rows.len() > 0 {
        if rows.last().number < number {
            assert forall|i: int| 0 <= i < rows.len() implies #[trigger] rows[i].number < number by {
                if i < rows.len() - 1 {
                    assert(rows[i].number < rows[rows.len() - 1].number);
                }
            }
        } else {
            assert(increasing(rows.drop_last()));
            lemma_below(rows.drop_last(), number);
            assert forall|i: int| below(rows, number) <= i < rows.len() implies #[trigger] rows[i].number
                >= number by {
                if i < rows.len() - 1 {
                    assert(rows.drop_last()[i].number >= number);
                }
            }
            assert forall|i: int| 0 <= i < below(rows, number) implies #[trigger] rows[i].number
                < number by {
                assert(rows.drop_last()[i].number < number);
            }
        }
    }
}

/// One of the first `n` rows is this one.
pub open spec fn among(rows: Seq<Row>, n: int, row: Row) -> bool {
    exists|j: int| 0 <= j < n && #[trigger] rows[j] == row
}

/// One of the rows has this number.
pub open spec fn has_number(rows: Seq<Row>, number: u32) -> bool {
    exists|j: int| 0 <= j < rows.len() && #[trigger] rows[j].number == number
}

proof fn lemma_insert(before: Seq<Row>, row: Row)
    requires
        increasing(before),
        !has_number(before, row.number),
    ensures
        ({
            let at = below(before, row.number) as int;
            let after = before.insert(at, row);
            &&& 0 <= at <= before.len()
            &&& increasing(after)
            &&& after[at] == row
            &&& forall|i: int| 0 <= i < at ==> #[trigger] after[i] == before[i]
            &&& forall|i: int| at < i < after.len() ==> #[trigger] after[i] == before[i - 1]
        }),
{
    let at = below(before, row.number) as int;
    lemma_below(before, row.number);
    let after = before.insert(at, row);
    assert forall|i: int, j: int| 0 <= i < j < after.len() implies #[trigger] after[i].number
        < #[trigger] after[j].number by {
        if j < at {
            assert(after[i] == before[i] && after[j] == before[j]);
        } else if j == at {
            assert(after[i] == before[i]);
        } else if i < at {
            assert(after[i] == before[i] && after[j] == before[j - 1]);
        } else if i == at {
            assert(after[j] == before[j - 1]);
            assert(before[j - 1].number != row.number);
        } else {
            assert(after[i] == before[i - 1] && after[j] == before[j - 1]);
        }
    }
}

/// Rows come out in strictly increasing order of their numbers, each is one
/// that went in, and every number that went in comes out.
pub proof fn law_rows_are_ordered(rows: Seq<Row>, n: nat)
    requires
        n <= rows.len(),
    ensures
        increasing(ordered(rows, n)),
        forall|i: int|
            0 <= i < ordered(rows, n).len() ==> among(rows, n as int, #[trigger] ordered(rows, n)[i]),
        forall|j: int| 0 <= j < n ==> has_number(ordered(rows, n), #[trigger] rows[j].number),
    decreases n,
{
    if n > 0 {
        let before = ordered(rows, (n - 1) as nat);
        let row = rows[n - 1];
        let at = below(before, row.number) as int;
        law_rows_are_ordered(rows, (n - 1) as nat);
        lemma_below(before, row.number);
        let after = ordered(rows, n);
        if at < before.len() && before[at].number == row.number {
            assert(after == before);
            assert forall|i: int| 0 <= i < after.len() implies among(
                rows,
                n as int,
                #[trigger] after[i],
            ) by {
                assert(among(rows, n - 1, before[i]));
            }
        } else {
            assert(!has_number(before, row.number)) by {
                assert forall|i: int| 0 <= i < before.len() implies #[trigger] before[i].number
                    != row.number by {
                    if at < i {
                        assert(before[at].number < before[i].number);
                    }
                }
            }
            lemma_insert(before, row);
            assert(after == before.insert(at, row));
            assert forall|i: int| 0 <= i < after.len() implies among(
                rows,
                n as int,
                #[trigger] after[i],
            ) by {
                if i == at {
                    assert(rows[n - 1] == after[i]);
                } else if i < at {
                    assert(among(rows, n - 1, before[i]));
                } else {
                    assert(among(rows, n - 1, before[i - 1]));
                }
            }
            assert forall|j: int| 0 <= j < n implies has_number(
                after,
                #[trigger] rows[j].number,
            ) by {
                if j == n - 1 {
                    assert(after[at].number == rows[j].number);
                } else {
                    assert(has_number(before, rows[j].number));
                    let b = choose|b: int|
                        0 <= b < before.len() && #[trigger] before[b].number == rows[j].number;
                    if b < at {
                        assert(after[b].number == rows[j].number);
                    } else {
                        assert(after[b + 1].number == rows[j].number);
                    }
                }
            }
        }
    }
}

pub proof fn lemma_below_len(rows: Seq<Row>, number: u32)
    ensures
        below(rows, number) <= rows.len(),
    decreases rows.len(),
{
    if rows.len() > 0 && !(rows.last().number < number) {
        lemma_below_len(rows.drop_last(), number);
    }
}

/// Puts rows in the order of their numbers.
pub fn order_rows(rows: &[Row]) -> (out: Vec<Row>)
    ensures
        out@ == ordered(rows@, rows@.len()),
{
    let mut out: Vec<Row> = Vec::new();
    let mut n: usize = 0;
    while n < rows.len()
        invariant
            n <= rows@.len(),
            out@ == ordered(rows@, n as nat),
        decreases rows@.len() - n,
    {
        let row: Row = rows[n];
        let mut at: usize = out.len();
        let ghost before = out@;
        assert(before.take(at as int) =~= before);
        while at > 0 && !(out[at - 1].number < row.number)
            invariant
                at <= out@.len(),
                out@ == before,
                below(before.take(at as int), row.number) == below(before, row.number),
            decreases at,
        {
            assert(before.take(at as int).drop_last() =~= before.take(at - 1));
            at -= 1;
        }
        proof {
            assert(at == below(before, row.number));
        }
        if at < out.len() && out[at].number == row.number {
            n += 1;
        } else {
            out.insert(at, row);
            n += 1;
        }
    }
    out
}

/// The numbers of rows that stand one after the other.
pub open spec fn numbers(rows: Seq<Row>) -> Seq<u32> {
    rows.map_values(|row: Row| row.number)
}

/// The end of the run of consecutive numbers that `at - 1` belongs to.
pub open spec fn number_run_end(rows: Seq<Row>, at: int) -> int
    decreases rows.len() - at,
{
    if !(1 <= at < rows.len()) || rows[at].number != rows[at - 1].number + 1 {
        at
    } else {
        number_run_end(rows, at + 1)
    }
}

/// The `/Index` array of rows from `from` on: for each run of consecutive
/// numbers its first number and how many there are.
pub open spec fn index_array(rows: Seq<Row>, from: int) -> Seq<u32>
    decreases rows.len() - from,
{
    if !(0 <= from < rows.len()) {
        Seq::empty()
    } else {
        let to = number_run_end(rows, from + 1);
        if from < to <= rows.len() {
            seq![rows[from].number, (to - from) as u32] + index_array(rows, to)
        } else {
            Seq::empty()
        }
    }
}

/// The object numbers that an `/Index` array enumerates, pair by pair.
pub open spec fn enumerated(index: Seq<u32>) -> Seq<u32>
    decreases index.len(),
{
    if index.len() < 2 {
        Seq::empty()
    } else {
        Seq::new(index[1] as nat, |k: int| (index[0] + k) as u32) + enumerated(index.skip(2))
    }
}

proof fn lemma_number_run_end(rows: Seq<Row>, from: int, at: int)
    requires
        0 <= from < at <= rows.len(),
        forall|k: int| from <= k < at ==> #[trigger] rows[k].number == rows[from].number + (k - from),
    ensures
        at <= number_run_end(rows, at) <= rows.len(),
        forall|k: int|
            from <= k < number_run_end(rows, at) ==> #[trigger] rows[k].number == rows[from].number + (k
                - from),
    decreases rows.len() - at,
{
    if at < rows.len() && rows[at].number == rows[at - 1].number + 1 {
        lemma_number_run_end(rows, from, at + 1);
    }
}

/// The `/Index` array enumerates the numbers of the rows, in the order the
/// rows are written in.
pub proof fn law_index_enumerates_the_rows(rows: Seq<Row>, from: int)
    requires
        0 <= from <= rows.len() <= u32::MAX,
    ensures
        enumerated(index_array(rows, from)) == numbers(rows.skip(from)),
    decreases rows.len() - from,
{
    if from < rows.len() {
        lemma_number_run_end(rows, from, from + 1);
        let to = number_run_end(rows, from + 1);
        law_index_enumerates_the_rows(rows, to);
        let index = index_array(rows, from);
        assert(index.skip(2) =~= index_array(rows, to));
        let run = Seq::new(index[1] as nat, |k: int| (index[0] + k) as u32);
        assert(run.len() == to - from);
        assert forall|k: int| 0 <= k < run.len() implies #[trigger] run[k] == numbers(
            rows.skip(from),
        )[k] by {
            assert(rows[from + k].number == rows[from].number + k);
        }
        assert(numbers(rows.skip(from)) =~= run + numbers(rows.skip(to)));
    } else {
        assert(numbers(rows.skip(from)) =~= Seq::empty());
        assert(enumerated(Seq::<u32>::empty()) =~= Seq::empty());
    }
}

/// The `/Index` array of rows.
pub fn index_of_rows(rows: &[Row]) -> (index: Vec<u32>)
    requires
        rows@.len() <= u32::MAX,
    ensures
        index@ == index_array(rows@, 0),
{
    let mut index: Vec<u32> = Vec::new();
    let mut from: usize = 0;
    assert(index@ + index_array(rows@, 0) =~= index_array(rows@, 0));
    while from < rows.len()
        invariant
            from <= rows@.len() <= u32::MAX,
            index@ + index_array(rows@, from as int) == index_array(rows@, 0),
        decreases rows@.len() - from,
    {
        let mut to: usize = from + 1;
        while to < rows.len() && rows[to - 1].number < u32::MAX && rows[to].number == rows[to
            - 1].number + 1
            invariant
                from < to <= rows@.len(),
                number_run_end(rows@, to as int) == number_run_end(rows@, from + 1),
            decreases rows@.len() - to,
        {
            to += 1;
        }
        let ghost before = index@;
        index.push(rows[from].number);
        index.push((to - from) as u32);
        proof {
            let pair = seq![rows@[from as int].number, (to - from) as u32];
            assert(index_array(rows@, from as int) == pair + index_array(rows@, to as int));
            assert(before + (pair + index_array(rows@, to as int)) =~= index@ + index_array(
                rows@,
                to as int,
            ));
        }
        from = to;
    }
    assert(index@ =~= index_array(rows@, 0));
    index
}

/// A number as four bytes, most significant first.
pub open spec fn be32(n: nat) -> Seq<u8> {
    seq![
        (n / 0x100_0000) as u8,
        (n / 0x1_0000 % 0x100) as u8,
        (n / 0x100 % 0x100) as u8,
        (n % 0x100) as u8,
    ]
}

/// A row as seven bytes: one of kind, four of offset and two of generation.
pub open spec fn row_bytes(row: Row) -> Seq<u8> {
    seq![row.kind] + be32(row.offset as nat) + seq![
        (row.generation / 256) as u8,
        (row.generation % 256) as u8,
    ]
}

/// The first `n` rows, one after the other.
pub open spec fn stream_data(rows: Seq<Row>, n: nat) -> Seq<u8>
    decreases n,
{
    if n == 0 || n > rows.len() {
        Seq::empty()
    } else {
        stream_data(rows, (n - 1) as nat) + row_bytes(rows[n - 1])
    }
}

/// The first row whose offset four bytes cannot hold, or the end.
pub open spec fn first_far(rows: Seq<Row>, at: int) -> int
    decreases rows.len() - at,
{
    if at >= rows.len() || rows[at].offset > u32::MAX {
        at
    } else {
        first_far(rows, at + 1)
    }
}

/// The data of a cross-reference stream, or the row that does not fit.
pub fn rows_to_data(rows: &[Row]) -> (data: Result<Vec<u8>, Row>)
    ensures
        match data {
            Ok(bytes) => first_far(rows@, 0) == rows@.len() && bytes@ == stream_data(
                rows@,
                rows@.len(),
            ),
            Err(row) => first_far(rows@, 0) < rows@.len() && row == rows@[first_far(rows@, 0)],
        },
{
    let mut bytes: Vec<u8> = Vec::new();
    let mut n: usize = 0;
    while n < rows.len()
        invariant
            n <= rows@.len(),
            bytes@ == stream_data(rows@, n as nat),
            first_far(rows@, n as int) == first_far(rows@, 0),
        decreases rows@.len() - n,
    {
        let row: Row = rows[n];
        if row.offset > u32::MAX as u64 {
            return Err(row);
        }
        let ghost before = bytes@;
        bytes.push(row.kind);
        bytes.push((row.offset / 0x100_0000) as u8);
        bytes.push((row.offset / 0x1_0000 % 0x100) as u8);
        bytes.push((row.offset / 0x100 % 0x100) as u8);
        bytes.push((row.offset % 0x100) as u8);
        bytes.push((row.generation / 256) as u8);
        bytes.push((row.generation % 256) as u8);
        n += 1;
        assert(bytes@ =~= before + row_bytes(row));
    }
    Ok(bytes)
}

} // verus!
