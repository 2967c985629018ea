//! What a stream holds once its filter is undone.

use crate::pdfread::dictionary::{entry, lookup, Entries};
use crate::pdfwrite::object::{
    entry_values, item_values, lemma_container_values, PdfObject, PdfValue,
};
use crate::text::same_text;
use flate2::{Decompress, FlushDecompress};
use vstd::prelude::*;

verus! {

/// How many bytes a stream may hold once it is decoded.
pub const MAX_DECODED: usize = 0x400_0000;

/// What one call of `flate2::Decompress::decompress`, asked to finish, makes of
/// a zlib stream when it may write `most` bytes; nothing where it fails.
pub uninterp spec fn inflated(data: Seq<u8>, most: nat) -> Option<Seq<u8>>;

/// `flate2::Decompress::decompress`, once, from a zlib stream into `most` bytes:
/// those that it wrote, unless it reports an error.
#[verifier::external_body]
fn inflate(data: &[u8], most: usize) -> (out: Option<Vec<u8>>)
    requires
        most <= MAX_DECODED,
    ensures
        match out {
            Some(bytes) => inflated(data@, most as nat) == Some(bytes@),
            None => inflated(data@, most as nat) is None,
        },
{
    let mut out = vec![0u8; most];
    let mut inflater = Decompress::new(true);
    inflater.decompress(data, &mut out, FlushDecompress::Finish).ok()?;
    out.truncate(inflater.total_out() as usize);
    Some(out)
}

/// How far apart two numbers are.
pub open spec fn apart(a: int, b: int) -> int {
    if a < b {
        b - a
    } else {
        a - b
    }
}

/// Of the bytes to the left, above and above to the left, the one nearest to
/// the first two less the third.
pub open spec fn nearest(left: u8, above: u8, corner: u8) -> u8 {
    let guess = left + above - corner;
    let a = apart(guess, left as int);
    let b = apart(guess, above as int);
    let c = apart(guess, corner as int);
    if a <= b && a <= c {
        left
    } else if b <= c {
        above
    } else {
        corner
    }
}

/// What a row of a kind adds to a byte, by the bytes to the left, above and
/// above to the left: nothing, the first, the second, their mean, or the
/// nearest of the three.
pub open spec fn guessed(kind: u8, left: u8, above: u8, corner: u8) -> u8 {
    if kind == 1 {
        left
    } else if kind == 2 {
        above
    } else if kind == 3 {
        ((left + above) / 2) as u8
    } else if kind == 4 {
        nearest(left, above, corner)
    } else {
        0
    }
}

/// The first `n` bytes of a row of a kind, below the row above it.
pub open spec fn row_of(kind: u8, row: Seq<u8>, above: Seq<u8>, n: nat) -> Seq<u8>
    decreases n,
{
    if n == 0 {
        Seq::empty()
    } else {
        let before = row_of(kind, row, above, (n - 1) as nat);
        let left = if n > 1 {
            before[n - 2]
        } else {
            0
        };
        let corner = if n > 1 {
            above[n - 2]
        } else {
            0
        };
        before.push(((row[n - 1] + guessed(kind, left, above[n - 1], corner)) % 256) as u8)
    }
}

/// The rows from `at` on, each one byte of kind and `columns` bytes. What is no
/// whole row is left out.
pub open spec fn rows_below(data: Seq<u8>, columns: nat, at: int, above: Seq<u8>) -> Seq<u8>
    decreases data.len() - at,
{
    if at < 0 || at + 1 + columns > data.len() {
        Seq::empty()
    } else {
        let row = row_of(
            data[at],
            data.subrange(at + 1, (at + 1 + columns) as int),
            above,
            columns,
        );
        row + rows_below(data, columns, (at + 1 + columns) as int, row)
    }
}

/// The integer under a key, or another where there is none.
pub open spec fn integer_or(entries: Entries, key: Seq<char>, other: int) -> int {
    match lookup(entries, key) {
        Some(PdfValue::Integer(n)) => n,
        _ => other,
    }
}

/// Data without its predictor: as it is where there is none, and row by row
/// where each row says how it is to be read. Only bytes of one component are
/// known.
pub open spec fn unpredicted(parameters: Entries, data: Seq<u8>) -> Option<Seq<u8>> {
    let predictor = integer_or(parameters, "Predictor"@, 1);
    let columns = integer_or(parameters, "Columns"@, 1);
    if predictor == 1 {
        Some(data)
    } else if 10 <= predictor <= 15 && columns > 0 && integer_or(parameters, "Colors"@, 1) == 1
        && integer_or(parameters, "BitsPerComponent"@, 8) == 8 {
        Some(
            rows_below(data, columns as nat, 0, Seq::new(columns as nat, |i: int| 0u8)),
        )
    } else {
        None
    }
}

/// What stands under a key that may hold one value or an array of one.
pub open spec fn only_value(entries: Entries, key: Seq<char>) -> Option<PdfValue> {
    match lookup(entries, key) {
        Some(PdfValue::Array(items)) => if items.len() == 1 {
            Some(items[0])
        } else if items.len() == 0 {
            Some(PdfValue::Null)
        } else {
            None
        },
        Some(value) => Some(value),
        None => Some(PdfValue::Null),
    }
}

/// The parameters of a stream's filter.
pub open spec fn parameters_of(entries: Entries) -> Entries {
    match only_value(entries, "DecodeParms"@) {
        Some(PdfValue::Dictionary(parameters)) => parameters,
        _ => Seq::empty(),
    }
}

/// What a stream with these entries holds. A stream without a filter holds what
/// stands in the file; of filters only `FlateDecode` is known.
pub open spec fn decoded(entries: Entries, data: Seq<u8>) -> Option<Seq<u8>> {
    match only_value(entries, "Filter"@) {
        Some(PdfValue::Null) => Some(data),
        Some(PdfValue::Name(name)) => if name == "FlateDecode"@ {
            match inflated(data, MAX_DECODED as nat) {
                Some(plain) => unpredicted(parameters_of(entries), plain),
                None => None,
            }
        } else {
            None
        },
        _ => None,
    }
}

fn distance(a: i16, b: i16) -> (d: i16)
    requires
        -255 <= a <= 510,
        0 <= b <= 255,
    ensures
        d == apart(a as int, b as int),
{
    if a < b {
        b - a
    } else {
        a - b
    }
}

fn guess(kind: u8, left: u8, above: u8, corner: u8) -> (byte: u8)
    ensures
        byte == guessed(kind, left, above, corner),
{
    match kind {
        1 => left,
        2 => above,
        3 => ((left as u16 + above as u16) / 2) as u8,
        4 => {
            let near: i16 = left as i16 + above as i16 - corner as i16;
            let a = distance(near, left as i16);
            let b = distance(near, above as i16);
            let c = distance(near, corner as i16);
            if a <= b && a <= c {
                left
            } else if b <= c {
                above
            } else {
                corner
            }
        },
        _ => 0,
    }
}

fn read_row(kind: u8, data: &[u8], from: usize, columns: usize, above: &Vec<u8>) -> (row: Vec<u8>)
    requires
        from + columns <= data@.len(),
        above@.len() == columns,
    ensures
        row@ == row_of(
            kind,
            data@.subrange(from as int, from + columns),
            above@,
            columns as nat,
        ),
        row@.len() == columns,
{
    let ghost bytes = data@.subrange(from as int, from + columns);
    let mut row: Vec<u8> = Vec::new();
    let total: usize = data.len();
    let mut i: usize = 0;
    while i < columns
        invariant
            i <= columns,
            total == data@.len(),
            from + columns <= total,
            above@.len() == columns,
            bytes == data@.subrange(from as int, from + columns),
            row@ == row_of(kind, bytes, above@, i as nat),
            row@.len() == i,
        decreases columns - i,
    {
        let left: u8 = if i > 0 {
            row[i - 1]
        } else {
            0
        };
        let corner: u8 = if i > 0 {
            above[i - 1]
        } else {
            0
        };
        assert(bytes[i as int] == data@[from + i]);
        let byte: u16 = data[from + i] as u16 + guess(kind, left, above[i], corner) as u16;
        row.push((byte % 256) as u8);
        i += 1;
    }
    row
}

fn read_rows(data: &[u8], columns: usize) -> (out: Vec<u8>)
    ensures
        out@ == rows_below(data@, columns as nat, 0, Seq::new(columns as nat, |i: int| 0u8)),
{
    let mut out: Vec<u8> = Vec::new();
    let total: usize = data.len();
    if columns >= total {
        return out;
    }
    let ghost zeros = Seq::new(columns as nat, |i: int| 0u8);
    let mut above: Vec<u8> = Vec::new();
    while above.len() < columns
        invariant
            above@.len() <= columns,
            forall|i: int| 0 <= i < above@.len() ==> above@[i] == 0,
        decreases columns - above@.len(),
    {
        above.push(0);
    }
    assert(above@ =~= zeros);
    let ghost whole = rows_below(data@, columns as nat, 0, zeros);
    let mut at: usize = 0;
    assert(out@ + whole =~= whole);
    while total - at > columns
        invariant
            at <= total,
            total == data@.len(),
            columns < total,
            above@.len() == columns,
            out@ + rows_below(data@, columns as nat, at as int, above@) == whole,
        decreases total - at,
    {
        let ghost before = out@;
        let row = read_row(data[at], data, at + 1, columns, &above);
        crate::bytes::push_bytes(&mut out, row.as_slice());
        at = at + 1 + columns;
        proof {
            let rest = rows_below(data@, columns as nat, at as int, row@);
            assert(before + (row@ + rest) =~= out@ + rest);
        }
        above = row;
    }
    assert(out@ =~= whole);
    out
}

fn integer_entry(entries: &[(String, PdfObject)], key: &str, other: i64) -> (n: i64)
    ensures
        n == integer_or(entry_values(entries@), key@, other as int),
{
    match entry(entries, key) {
        Some(PdfObject::Integer(n)) => *n,
        _ => other,
    }
}

fn undo_predictor(parameters: &[(String, PdfObject)], data: Vec<u8>) -> (out: Option<Vec<u8>>)
    ensures
        match out {
            Some(plain) => unpredicted(entry_values(parameters@), data@) == Some(plain@),
            None => unpredicted(entry_values(parameters@), data@) is None,
        },
{
    let predictor = integer_entry(parameters, "Predictor", 1);
    let columns = integer_entry(parameters, "Columns", 1);
    if predictor == 1 {
        return Some(data);
    }
    if predictor < 10 || predictor > 15 || columns <= 0 || integer_entry(parameters, "Colors", 1)
        != 1 || integer_entry(parameters, "BitsPerComponent", 8) != 8 {
        return None;
    }
    if columns as u64 >= data.len() as u64 {
        let out: Vec<u8> = Vec::new();
        assert(out@ =~= Seq::empty());
        return Some(out);
    }
    Some(read_rows(data.as_slice(), columns as usize))
}

fn only_entry<'a>(entries: &'a [(String, PdfObject)], key: &str) -> (value: Option<Option<&'a PdfObject>>)
    ensures
        match value {
            Some(Some(found)) => only_value(entry_values(entries@), key@) == Some(found@),
            Some(None) => only_value(entry_values(entries@), key@) == Some(PdfValue::Null),
            None => only_value(entry_values(entries@), key@) is None,
        },
{
    match entry(entries, key) {
        Some(found) => {
            proof {
                lemma_container_values(*found);
            }
            match found {
                PdfObject::Array(items) => {
                    if items.len() == 1 {
                        assert(item_values(items@)[0] == items@[0]@);
                        Some(Some(&items[0]))
                    } else if items.len() == 0 {
                        Some(None)
                    } else {
                        None
                    }
                },
                _ => Some(Some(found)),
            }
        },
        None => Some(None),
    }
}

/// Decodes the data of a stream.
pub fn decode(entries: &[(String, PdfObject)], data: &[u8]) -> (out: Option<Vec<u8>>)
    ensures
        match out {
            Some(plain) => decoded(entry_values(entries@), data@) == Some(plain@),
            None => decoded(entry_values(entries@), data@) is None,
        },
{
    match only_entry(entries, "Filter") {
        None => None,
        Some(None) => Some(crate::bytes::copy_bytes(data)),
        Some(Some(PdfObject::Null)) => Some(crate::bytes::copy_bytes(data)),
        Some(Some(PdfObject::Name(name))) => {
            if !same_text(name.as_str(), "FlateDecode") {
                return None;
            }
            let plain = match inflate(data, MAX_DECODED) {
                Some(plain) => plain,
                None => return None,
            };
            match only_entry(entries, "DecodeParms") {
                Some(Some(found)) => {
                    proof {
                        lemma_container_values(*found);
                    }
                    match found {
                        PdfObject::Dictionary(parameters) => undo_predictor(
                            parameters.as_slice(),
                            plain,
                        ),
                        _ => {
                            assert(unpredicted(Seq::empty(), plain@) == Some(plain@));
                            Some(plain)
                        },
                    }
                },
                _ => {
                    assert(unpredicted(Seq::empty(), plain@) == Some(plain@));
                    Some(plain)
                },
            }
        },
        Some(Some(_)) => None,
    }
}

/// Of the three bytes beside one, the nearest to what they suggest is taken, and of
/// those that are equally near the one to the left first, and then the one above.
pub proof fn law_the_nearest_byte_is_taken(left: u8, above: u8, corner: u8)
    ensures
        ({
            let guess = left + above - corner;
            let taken = nearest(left, above, corner);
            let off = if taken >= guess {
                taken - guess
            } else {
                guess - taken
            };
            &&& taken == left || taken == above || taken == corner
            &&& -off <= left - guess <= off ==> taken == left
            &&& -off <= above - guess <= off ==> taken == above || taken == left
            &&& left - guess <= -off || left - guess >= off
            &&& above - guess <= -off || above - guess >= off
            &&& corner - guess <= -off || corner - guess >= off
        }),
{
}

/// Each kind of row is undone: a byte less what was left of it is nothing, the byte
/// to the left, the byte above, the mean of both, or the nearest of the three, all
/// as they come out. Before the first column stand zeros.
pub proof fn law_rows_are_undone(kind: u8, row: Seq<u8>, above: Seq<u8>, n: nat, k: int)
    requires
        n <= row.len(),
        n <= above.len(),
        0 <= k < n,
    ensures
        ({
            let out = row_of(kind, row, above, n);
            let left = if k > 0 {
                out[k - 1] as int
            } else {
                0
            };
            let corner = if k > 0 {
                above[k - 1] as int
            } else {
                0
            };
            let added = (out[k] - row[k]) % 256;
            &&& out.len() == n
            &&& kind == 0 ==> added == 0
            &&& kind == 1 ==> added == left
            &&& kind == 2 ==> added == above[k]
            &&& kind == 3 ==> left + above[k] - 1 <= 2 * added <= left + above[k]
            &&& kind == 4 ==> added == nearest(left as u8, above[k], corner as u8)
        }),
    decreases n,
{
    let out = row_of(kind, row, above, n);
    let before = row_of(kind, row, above, (n - 1) as nat);
    if k < n - 1 {
        law_rows_are_undone(kind, row, above, (n - 1) as nat, k);
        assert(out[k] == before[k]);
        if k > 0 {
            assert(out[k - 1] == before[k - 1]);
        }
    } else {
        if n > 1 {
            law_rows_are_undone(kind, row, above, (n - 1) as nat, k - 1);
            assert(out[k - 1] == before[k - 1]);
        }
    }
}

/// The row of this number among rows of so many columns.
pub open spec fn row_in(data: Seq<u8>, columns: nat, row: nat) -> Seq<u8> {
    data.subrange((row * columns) as int, ((row + 1) * columns) as int)
}

/// Rows come out one behind the other: each as its first byte says, below the one
/// that came out before it, and the first below the one that is given.
pub proof fn law_each_row_is_below_the_one_before(
    data: Seq<u8>,
    columns: nat,
    at: int,
    above: Seq<u8>,
    row: nat,
)
    requires
        0 <= at,
        above.len() == columns,
        at + (row + 1) * (1 + columns) <= data.len(),
    ensures
        ({
            let out = rows_below(data, columns, at, above);
            let start = at + row * (1 + columns);
            &&& (row + 1) * columns <= out.len()
            &&& row_in(out, columns, row) == row_of(
                data[start],
                data.subrange(start + 1, start + 1 + columns),
                if row == 0 {
                    above
                } else {
                    row_in(out, columns, (row - 1) as nat)
                },
                columns,
            )
        }),
    decreases row,
{
    let out = rows_below(data, columns, at, above);
    let next = at + 1 + columns;
    assert((row + 1) * (1 + columns) == row * (1 + columns) + 1 + columns) by (nonlinear_arith);
    assert(row * (1 + columns) >= 0) by (nonlinear_arith);
    let first = row_of(data[at], data.subrange(at + 1, next as int), above, columns);
    let rest = rows_below(data, columns, next as int, first);
    lemma_row_length(data[at], data.subrange(at + 1, next as int), above, columns);
    assert(out == first + rest);
    assert(0 * columns == 0 && 1 * columns == columns) by (nonlinear_arith);
    if row == 0 {
        assert(0 * (1 + columns) == 0) by (nonlinear_arith);
        assert(row_in(out, columns, 0) =~= first);
    } else {
        let r = (row - 1) as nat;
        assert((r + 1) * (1 + columns) == row * (1 + columns));
        assert(row * (1 + columns) == r * (1 + columns) + 1 + columns) by (nonlinear_arith)
            requires
                row == r + 1,
        ;
        law_each_row_is_below_the_one_before(data, columns, next as int, first, r);
        assert(row * columns == r * columns + columns) by (nonlinear_arith)
            requires
                row == r + 1,
        ;
        assert((row + 1) * columns == row * columns + columns) by (nonlinear_arith);
        assert((r + 1) * columns == row * columns);
        assert(0 <= r * columns) by (nonlinear_arith);
        assert(row_in(out, columns, row) =~= row_in(rest, columns, r));
        if r == 0 {
            assert(row_in(out, columns, 0) =~= first);
        } else {
            let q = (r - 1) as nat;
            assert(r * columns == q * columns + columns) by (nonlinear_arith)
                requires
                    r == q + 1,
            ;
            assert((q + 1) * columns == r * columns);
            assert(0 <= q * columns) by (nonlinear_arith);
            assert(row_in(out, columns, r) =~= row_in(rest, columns, q));
        }
    }
}

proof fn lemma_row_length(kind: u8, row: Seq<u8>, above: Seq<u8>, n: nat)
    ensures
        row_of(kind, row, above, n).len() == n,
    decreases n,
{
    if n > 0 {
        lemma_row_length(kind, row, above, (n - 1) as nat);
    }
}

} // verus!
