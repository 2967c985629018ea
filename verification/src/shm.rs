//! The names and sizes of the memory that frames are handed over in.

use crate::bytes::utf8;
use crate::number::{parse_unsigned, unsigned_of};
use crate::pdfwrite::laws::{law_decimal_reads_back, lemma_decimal_len, pow10};
use crate::protocol::{names_a_path, path_like, ProtocolError, ProtocolFault, MAX_REGION_BYTES};
use crate::text::{
    chars_of, decimal_text, is_hexadecimal, law_a_text_is_cut_at_its_separators,
    lemma_decimal_bytes, lemma_pieces, lemma_sixteen_digits, owned, padded_hexadecimal, pieces,
    push_decimal, push_padded_hexadecimal, push_str, split, text_between, views,
};
use vstd::prelude::*;
use vstd::utf8::is_ascii_chars_encode_utf8;

verus! {

/// The first of these parts from `i` on that is the number of a process. The
/// last part never is: it tells regions of one process apart.
pub open spec fn process_in(parts: Seq<Seq<char>>, i: int) -> Option<u32>
    decreases parts.len() - i,
{
    if i + 1 >= parts.len() {
        None
    } else {
        match unsigned_of(utf8(parts[i]), u32::MAX as nat) {
            Some(process) => Some(process as u32),
            None => process_in(parts, i + 1),
        }
    }
}

/// Does a name start as those of regions do?
pub open spec fn names_region(name: Seq<char>) -> bool {
    name.len() >= 7 && name.take(7) == seq!['p', 'u', 'l', 'p', 'i', 't', '-']
}

/// The process that a region belongs to, by its name: `pulpit-<process>-…`, or
/// `pulpit-<label>-<process>-…` with a label that is no number.
pub open spec fn owner_of(name: Seq<char>) -> Option<u32> {
    if names_region(name) {
        process_in(pieces(name.skip(7), seq!['-']), 0)
    } else {
        None
    }
}

/// The process that a region belongs to, by its name.
pub fn extract_pid_from_region_name(filename: &str) -> (process: Option<u32>)
    ensures
        process == owner_of(filename@),
{
    let chars = chars_of(filename);
    let length: usize = chars.len();
    if length < 7 {
        return None;
    }
    let starts = chars[0] == 'p' && chars[1] == 'u' && chars[2] == 'l' && chars[3] == 'p'
        && chars[4] == 'i' && chars[5] == 't' && chars[6] == '-';
    assert(starts == (filename@.take(7) =~= seq!['p', 'u', 'l', 'p', 'i', 't', '-']));
    if !starts {
        return None;
    }
    let rest = text_between(chars.as_slice(), 7, length);
    assert(rest@ =~= filename@.skip(7));
    let parts = split(rest.as_str(), &['-']);
    assert(['-']@ =~= seq!['-']);
    let ghost all = pieces(rest@, seq!['-']);
    let count: usize = parts.len();
    let mut i: usize = 0;
    while i < count && count - i > 1
        invariant
            i <= count,
            count == parts@.len(),
            views(parts@) == all,
            names_region(filename@),
            all == pieces(filename@.skip(7), seq!['-']),
            process_in(all, i as int) == process_in(all, 0),
        decreases count - i,
    {
        assert(views(parts@)[i as int] == parts@[i as int]@);
        if let Some(process) = parse_unsigned(parts[i].as_str().as_bytes(), u32::MAX as u64) {
            return Some(process as u32);
        }
        i += 1;
    }
    None
}

/// Is a region left behind by a process that is gone? Those of this process are
/// never touched.
pub fn is_stale(filename: &str, current: u32, owner_alive: bool) -> (stale: bool)
    ensures
        stale == match owner_of(filename@) {
            Some(process) => process != current && !owner_alive,
            None => false,
        },
{
    match extract_pid_from_region_name(filename) {
        Some(process) => process != current && !owner_alive,
        None => false,
    }
}

/// What `format!` writes for a text with `{:?}`: quoted, with escapes.
pub uninterp spec fn quoted(text: Seq<char>) -> Seq<char>;

/// `format!` of the standard library, with `{:?}` and a text.
#[verifier::external_body]
fn quote(text: &str) -> (out: String)
    ensures
        out@ == quoted(text@),
{
    format!("{text:?}")
}

/// May a region have this name?
pub open spec fn safe_name(name: Seq<char>) -> bool {
    &&& name.len() > 0
    &&& utf8(name).len() <= 256
    &&& !names_a_path(name)
}

/// Refuses the name of a region that could lead anywhere else.
pub fn check_name(name: &str) -> (checked: Result<(), ProtocolError>)
    ensures
        match checked {
            Ok(()) => safe_name(name@),
            Err(error) => !safe_name(name@) && error@ == ProtocolFault::Malformed(
                "unsafe region name "@ + quoted(name@),
            ),
        },
{
    if chars_of(name).len() == 0 || name.as_bytes().len() > 256 || path_like(name) {
        let mut reason = owned("unsafe region name ");
        push_str(&mut reason, quote(name).as_str());
        return Err(ProtocolError::Malformed(reason));
    }
    Ok(())
}

fn out_of_range(start: &str, bytes: u64) -> (error: ProtocolError)
    ensures
        error@ == ProtocolFault::Malformed(
            start@ + decimal_text(bytes as nat) + " out of range"@,
        ),
{
    let mut reason = owned(start);
    push_decimal(&mut reason, bytes);
    push_str(&mut reason, " out of range");
    ProtocolError::Malformed(reason)
}

/// Decides whether a region of this name and size may be made.
pub fn check_creation(name: &str, bytes: u64) -> (checked: Result<(), ProtocolError>)
    ensures
        match checked {
            Ok(()) => 0 < bytes <= MAX_REGION_BYTES && safe_name(name@),
            Err(error) => if bytes == 0 || bytes > MAX_REGION_BYTES {
                error@ == ProtocolFault::Malformed(
                    "region size "@ + decimal_text(bytes as nat) + " out of range"@,
                )
            } else {
                !safe_name(name@) && error@ == ProtocolFault::Malformed(
                    "unsafe region name "@ + quoted(name@),
                )
            },
        },
{
    if bytes == 0 || bytes > MAX_REGION_BYTES {
        return Err(out_of_range("region size ", bytes));
    }
    check_name(name)
}

/// Decides whether a region has to grow, and whether it may.
pub fn plan_growth(length: usize, bytes: u64) -> (grow: Result<bool, ProtocolError>)
    ensures
        match grow {
            Ok(needed) => needed == (bytes > length) && (needed ==> bytes <= MAX_REGION_BYTES),
            Err(error) => bytes > length && bytes > MAX_REGION_BYTES && error@
                == ProtocolFault::Malformed(
                "region size "@ + decimal_text(bytes as nat) + " out of range"@,
            ),
        },
{
    if bytes <= length as u64 {
        return Ok(false);
    }
    if bytes > MAX_REGION_BYTES {
        return Err(out_of_range("region size ", bytes));
    }
    Ok(true)
}

/// Decides whether a region of this name may be opened for a frame of this size.
pub fn check_opening(name: &str, expected: u64) -> (checked: Result<(), ProtocolError>)
    ensures
        match checked {
            Ok(()) => 0 < expected <= MAX_REGION_BYTES && safe_name(name@),
            Err(error) => if expected == 0 || expected > MAX_REGION_BYTES {
                error@ == ProtocolFault::Malformed(
                    "declared size "@ + decimal_text(expected as nat) + " out of range"@,
                )
            } else {
                !safe_name(name@) && error@ == ProtocolFault::Malformed(
                    "unsafe region name "@ + quoted(name@),
                )
            },
        },
{
    if expected == 0 || expected > MAX_REGION_BYTES {
        return Err(out_of_range("declared size ", expected));
    }
    check_name(name)
}

/// Refuses a region that is smaller than the frame that it is said to hold.
pub fn check_length(name: &str, length: u64, expected: u64) -> (checked: Result<
    (),
    ProtocolError,
>)
    ensures
        match checked {
            Ok(()) => length >= expected,
            Err(error) => length < expected && error@ == ProtocolFault::Malformed(
                "region "@ + name@ + " holds "@ + decimal_text(length as nat) + " bytes but "@
                    + decimal_text(expected as nat) + " were declared"@,
            ),
        },
{
    if length < expected {
        let mut reason = owned("region ");
        push_str(&mut reason, name);
        push_str(&mut reason, " holds ");
        push_decimal(&mut reason, length);
        push_str(&mut reason, " bytes but ");
        push_decimal(&mut reason, expected);
        push_str(&mut reason, " were declared");
        return Err(ProtocolError::Malformed(reason));
    }
    Ok(())
}

/// Names the regions of one process.
#[derive(Debug)]
pub struct RegionNamer {
    prefix: String,
}

impl RegionNamer {
    /// What the names start with.
    pub closed spec fn start(self) -> Seq<char> {
        self.prefix@
    }

    /// Names the regions of this process.
    pub fn new(process: u32) -> (namer: RegionNamer)
        ensures
            namer.start() == "pulpit-"@ + decimal_text(process as nat),
    {
        let mut prefix = owned("pulpit-");
        push_decimal(&mut prefix, process as u64);
        RegionNamer { prefix }
    }

    /// A name that this mark tells apart.
    pub fn next(&self, mark: u64) -> (name: String)
        ensures
            name@ == self.start() + "-"@ + padded_hexadecimal(mark as nat, 16),
    {
        let mut name = owned(self.prefix.as_str());
        push_str(&mut name, "-");
        push_padded_hexadecimal(&mut name, mark, 16);
        name
    }
}

/// A region belongs to the process whose number its name starts with, whatever
/// follows; and so does one with a label before the number, as long as the label
/// is no number itself.
pub proof fn law_a_region_names_its_process(process: u32, label: Seq<char>, mark: Seq<char>)
    requires
        !label.contains('-'),
        unsigned_of(utf8(label), u32::MAX as nat) is None,
    ensures
        owner_of("pulpit-"@ + decimal_text(process as nat) + "-"@ + mark) == Some(process),
        owner_of("pulpit-"@ + label + "-"@ + decimal_text(process as nat) + "-"@ + mark) == Some(
            process,
        ),
{
    let digits = decimal_text(process as nat);
    let dash = seq!['-'];
    reveal_strlit("pulpit-");
    reveal_strlit("-");
    lemma_decimal_bytes(process as nat);
    law_decimal_reads_back(process as nat);
    assert(unsigned_of(utf8(digits), u32::MAX as nat) == Some(process as nat));
    assert forall|j: int| 0 <= j < digits.len() implies !dash.contains(#[trigger] digits[j]) by {
        assert('0' <= digits[j] <= '9');
    }
    assert(dash[0] == '-');
    assert(dash.contains('-'));
    law_a_text_is_cut_at_its_separators(digits, '-', mark, dash);
    lemma_pieces(mark, dash, 0, 0);
    let short = digits.push('-') + mark;
    let one = "pulpit-"@ + digits + "-"@ + mark;
    assert(one.take(7) =~= seq!['p', 'u', 'l', 'p', 'i', 't', '-']);
    assert(one.skip(7) =~= short);
    let parts = pieces(short, dash);
    assert(parts[0] == digits);
    assert(parts.len() >= 2);
    assert(process_in(parts, 0) == Some(process));
    assert forall|j: int| 0 <= j < label.len() implies !dash.contains(#[trigger] label[j]) by {
        assert(label.contains(label[j]));
    }
    law_a_text_is_cut_at_its_separators(label, '-', short, dash);
    let two = "pulpit-"@ + label + "-"@ + digits + "-"@ + mark;
    assert(two.take(7) =~= seq!['p', 'u', 'l', 'p', 'i', 't', '-']);
    assert(two.skip(7) =~= label.push('-') + short);
    let more = pieces(label.push('-') + short, dash);
    assert(more =~= seq![label] + parts);
    assert(more[0] == label);
    assert(more[1] == digits);
    assert(process_in(more, 1) == Some(process));
}

/// The names that regions are given are names that regions may have, and they tell
/// the process that they are of.
pub proof fn law_given_names_are_safe(process: u32, mark: u64)
    ensures
        ({
            let name = "pulpit-"@ + decimal_text(process as nat) + "-"@ + padded_hexadecimal(
                mark as nat,
                16,
            );
            safe_name(name) && owner_of(name) == Some(process)
        }),
{
    let digits = decimal_text(process as nat);
    let end = padded_hexadecimal(mark as nat, 16);
    let name = "pulpit-"@ + digits + "-"@ + end;
    reveal_strlit("pulpit-");
    reveal_strlit("-");
    lemma_decimal_bytes(process as nat);
    lemma_sixteen_digits(mark);
    assert(0x1_0000_0000 <= pow10(10)) by {
        reveal_with_fuel(pow10, 11);
    }
    lemma_decimal_len(process as nat, 10, 0x1_0000_0000);
    assert forall|i: int| 0 <= i < name.len() implies '-' <= #[trigger] name[i] <= 'z' && name[i]
        != '/' && name[i] != '\\' by {
        if i < 7 {
            assert(name[i] == "pulpit-"@[i]);
        } else if i < 7 + digits.len() {
            assert(name[i] == digits[i - 7]);
        } else if i == 7 + digits.len() {
            assert(name[i] == "-"@[0]);
        } else {
            assert(name[i] == end[i - 8 - digits.len()]);
            assert(is_hexadecimal(end[i - 8 - digits.len()]));
        }
    }
    is_ascii_chars_encode_utf8(name);
    assert(!names_a_path(name));
    let label = Seq::<char>::empty();
    assert(unsigned_of(utf8(label), u32::MAX as nat) is None) by {
        is_ascii_chars_encode_utf8(label);
    }
    law_a_region_names_its_process(process, label, end);
}

} // verus!
