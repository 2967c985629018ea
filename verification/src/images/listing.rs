//! Entries of an image document, sorted.

use crate::bytes::copy_bytes;
use crate::images::order::{
    law_page_order_carries_over, law_pages_are_told_apart, page_rank, rank_pages, Rank,
};
use vstd::prelude::*;
use vstd::slice::slice_subrange;

verus! {

/// One page of an image document, as the file system describes it.
///
/// The length and the time of change only ever feed the digest.
#[derive(Debug, Clone, PartialEq, Eq)]
pub struct ImageEntry {
    /// The name, as the file system keeps it.
    pub name: Vec<u8>,
    pub len: u64,
    /// When the file was last changed, in nanoseconds since the start of 1970.
    pub modified: Option<i128>,
}

/// One page, as a value.
#[verifier::ext_equal]
pub struct EntryValue {
    pub name: Seq<u8>,
    pub len: u64,
    pub modified: Option<i128>,
}

impl View for ImageEntry {
    type V = EntryValue;

    open spec fn view(&self) -> EntryValue {
        EntryValue { name: self.name@, len: self.len, modified: self.modified }
    }
}

/// The values of a list of entries.
pub open spec fn entry_list(entries: Seq<ImageEntry>) -> Seq<EntryValue> {
    entries.map_values(|entry: ImageEntry| entry@)
}

/// Two sorted lists as one, from entry `i` of the first and `j` of the second
/// on. Where two entries are ranked alike, that of the first list comes first.
pub open spec fn merged(a: Seq<EntryValue>, i: int, b: Seq<EntryValue>, j: int) -> Seq<EntryValue>
    decreases (a.len() - i) + (b.len() - j),
{
    if i >= a.len() {
        b.skip(j)
    } else if j >= b.len() {
        a.skip(i)
    } else if page_rank(a[i].name, b[j].name) != Rank::After {
        seq![a[i]] + merged(a, i + 1, b, j)
    } else {
        seq![b[j]] + merged(a, i, b, j + 1)
    }
}

/// A list of entries in the order of their pages.
pub open spec fn sorted(entries: Seq<EntryValue>) -> Seq<EntryValue>
    decreases entries.len(),
{
    if entries.len() <= 1 {
        entries
    } else {
        let half = entries.len() as int / 2;
        merged(sorted(entries.take(half)), 0, sorted(entries.skip(half)), 0)
    }
}

fn copy_entry(entry: &ImageEntry) -> (copy: ImageEntry)
    ensures
        copy@ == entry@,
{
    ImageEntry { name: copy_bytes(entry.name.as_slice()), len: entry.len, modified: entry.modified }
}

fn merge(a: &[ImageEntry], b: &[ImageEntry]) -> (out: Vec<ImageEntry>)
    ensures
        entry_list(out@) == merged(entry_list(a@), 0, entry_list(b@), 0),
{
    let ghost x = entry_list(a@);
    let ghost y = entry_list(b@);
    let mut out: Vec<ImageEntry> = Vec::new();
    let mut i: usize = 0;
    let mut j: usize = 0;
    assert(entry_list(out@) + merged(x, 0, y, 0) =~= merged(x, 0, y, 0));
    while i < a.len() || j < b.len()
        invariant
            i <= a@.len(),
            j <= b@.len(),
            x == entry_list(a@),
            y == entry_list(b@),
            entry_list(out@) + merged(x, i as int, y, j as int) == merged(x, 0, y, 0),
        decreases (a@.len() - i) + (b@.len() - j),
    {
        let ghost before = entry_list(out@);
        let first = j >= b.len() || (i < a.len() && rank_pages(
            a[i].name.as_slice(),
            b[j].name.as_slice(),
        ) != Rank::After);
        if first {
            out.push(copy_entry(&a[i]));
            proof {
                let rest = merged(x, i + 1, y, j as int);
                assert(x[i as int] == a@[i as int]@);
                assert(entry_list(out@) =~= before.push(x[i as int]));
                if j >= b.len() {
                    assert(merged(x, i as int, y, j as int) =~= seq![x[i as int]] + rest) by {
                        if i + 1 >= a.len() {
                            assert(rest =~= Seq::empty());
                            assert(x.skip(i as int) =~= seq![x[i as int]]);
                        } else {
                            assert(x.skip(i as int) =~= seq![x[i as int]] + x.skip(i + 1));
                        }
                    }
                }
                assert(entry_list(out@) + rest =~= before + (seq![x[i as int]] + rest));
            }
            i += 1;
        } else {
            out.push(copy_entry(&b[j]));
            proof {
                let rest = merged(x, i as int, y, j + 1);
                assert(y[j as int] == b@[j as int]@);
                assert(entry_list(out@) =~= before.push(y[j as int]));
                if i >= a.len() {
                    assert(y.skip(j as int) =~= seq![y[j as int]] + y.skip(j + 1));
                }
                assert(entry_list(out@) + rest =~= before + (seq![y[j as int]] + rest));
            }
            j += 1;
        }
    }
    assert(entry_list(out@) + merged(x, i as int, y, j as int) =~= entry_list(out@));
    out
}

/// Sorts entries in the order of their pages.
pub fn sort(entries: &[ImageEntry]) -> (out: Vec<ImageEntry>)
    ensures
        entry_list(out@) == sorted(entry_list(entries@)),
    decreases entries@.len(),
{
    let length: usize = entries.len();
    if length == 0 {
        let out: Vec<ImageEntry> = Vec::new();
        assert(entry_list(out@) =~= entry_list(entries@));
        return out;
    }
    if length == 1 {
        let mut out: Vec<ImageEntry> = Vec::new();
        out.push(copy_entry(&entries[0]));
        assert(entry_list(out@) =~= entry_list(entries@));
        return out;
    }
    let half: usize = length / 2;
    let left = sort(slice_subrange(entries, 0, half));
    let right = sort(slice_subrange(entries, half, length));
    proof {
        let all = entry_list(entries@);
        assert(entry_list(entries@.subrange(0, half as int)) =~= all.take(half as int));
        assert(entry_list(entries@.subrange(half as int, length as int)) =~= all.skip(
            half as int,
        ));
    }
    merge(left.as_slice(), right.as_slice())
}

/// Do these entries stand in the order of their pages?
pub open spec fn in_order(entries: Seq<EntryValue>) -> bool {
    forall|i: int, j: int|
        #![trigger entries[i], entries[j]]
        0 <= i < j < entries.len() ==> page_rank(entries[i].name, entries[j].name) != Rank::After
}

proof fn lemma_merged_multiset(a: Seq<EntryValue>, i: int, b: Seq<EntryValue>, j: int)
    requires
        0 <= i <= a.len(),
        0 <= j <= b.len(),
    ensures
        merged(a, i, b, j).to_multiset() == a.skip(i).to_multiset().add(b.skip(j).to_multiset()),
    decreases (a.len() - i) + (b.len() - j),
{
    broadcast use vstd::seq_lib::group_to_multiset_ensures;

    if i >= a.len() {
        assert(a.skip(i) =~= Seq::empty());
        assert(a.skip(i).to_multiset().add(b.skip(j).to_multiset()) =~= b.skip(j).to_multiset());
    } else if j >= b.len() {
        assert(b.skip(j) =~= Seq::empty());
        assert(a.skip(i).to_multiset().add(b.skip(j).to_multiset()) =~= a.skip(i).to_multiset());
    } else if page_rank(a[i].name, b[j].name) != Rank::After {
        lemma_merged_multiset(a, i + 1, b, j);
        let rest = merged(a, i + 1, b, j);
        vstd::seq_lib::lemma_multiset_commutative(seq![a[i]], rest);
        vstd::seq_lib::lemma_multiset_commutative(seq![a[i]], a.skip(i + 1));
        assert(a.skip(i) =~= seq![a[i]] + a.skip(i + 1));
        assert(merged(a, i, b, j).to_multiset() =~= a.skip(i).to_multiset().add(
            b.skip(j).to_multiset(),
        ));
    } else {
        lemma_merged_multiset(a, i, b, j + 1);
        let rest = merged(a, i, b, j + 1);
        vstd::seq_lib::lemma_multiset_commutative(seq![b[j]], rest);
        vstd::seq_lib::lemma_multiset_commutative(seq![b[j]], b.skip(j + 1));
        assert(b.skip(j) =~= seq![b[j]] + b.skip(j + 1));
        assert(merged(a, i, b, j).to_multiset() =~= a.skip(i).to_multiset().add(
            b.skip(j).to_multiset(),
        ));
    }
}

/// Sorting keeps every entry, each as often as it was there.
pub proof fn law_sorting_keeps_the_entries(entries: Seq<EntryValue>)
    ensures
        sorted(entries).to_multiset() == entries.to_multiset(),
        sorted(entries).len() == entries.len(),
    decreases entries.len(),
{
    broadcast use vstd::seq_lib::group_to_multiset_ensures;

    if entries.len() > 1 {
        let half = entries.len() as int / 2;
        let left = entries.take(half);
        let right = entries.skip(half);
        law_sorting_keeps_the_entries(left);
        law_sorting_keeps_the_entries(right);
        lemma_merged_multiset(sorted(left), 0, sorted(right), 0);
        assert(sorted(left).skip(0) =~= sorted(left));
        assert(sorted(right).skip(0) =~= sorted(right));
        vstd::seq_lib::lemma_multiset_commutative(left, right);
        assert(entries =~= left + right);
    }
    assert(sorted(entries).len() == sorted(entries).to_multiset().len());
    assert(entries.len() == entries.to_multiset().len());
}

/// Is this entry among those from `i` on?
pub open spec fn is_among(entries: Seq<EntryValue>, i: int, entry: EntryValue) -> bool {
    exists|m: int| i <= m < entries.len() && #[trigger] entries[m] == entry
}

proof fn lemma_merged_members(a: Seq<EntryValue>, i: int, b: Seq<EntryValue>, j: int)
    requires
        0 <= i <= a.len(),
        0 <= j <= b.len(),
    ensures
        forall|k: int|
            #![trigger merged(a, i, b, j)[k]]
            0 <= k < merged(a, i, b, j).len() ==> is_among(a, i, merged(a, i, b, j)[k])
                || is_among(b, j, merged(a, i, b, j)[k]),
    decreases (a.len() - i) + (b.len() - j),
{
    let all = merged(a, i, b, j);
    if i >= a.len() {
        assert forall|k: int| #![trigger all[k]] 0 <= k < all.len() implies is_among(b, j, all[k]) by {
            assert(b[j + k] == all[k]);
        }
    } else if j >= b.len() {
        assert forall|k: int| #![trigger all[k]] 0 <= k < all.len() implies is_among(a, i, all[k]) by {
            assert(a[i + k] == all[k]);
        }
    } else if page_rank(a[i].name, b[j].name) != Rank::After {
        lemma_merged_members(a, i + 1, b, j);
        let rest = merged(a, i + 1, b, j);
        assert forall|k: int| #![trigger all[k]] 0 <= k < all.len() implies is_among(a, i, all[k])
            || is_among(b, j, all[k]) by {
            if k == 0 {
                assert(a[i] == all[0]);
            } else {
                assert(all[k] == rest[k - 1]);
                if is_among(a, i + 1, rest[k - 1]) {
                    let m = choose|m: int| i + 1 <= m < a.len() && #[trigger] a[m] == rest[k - 1];
                    assert(a[m] == all[k]);
                }
            }
        }
    } else {
        lemma_merged_members(a, i, b, j + 1);
        let rest = merged(a, i, b, j + 1);
        assert forall|k: int| #![trigger all[k]] 0 <= k < all.len() implies is_among(a, i, all[k])
            || is_among(b, j, all[k]) by {
            if k == 0 {
                assert(b[j] == all[0]);
            } else {
                assert(all[k] == rest[k - 1]);
                if is_among(b, j + 1, rest[k - 1]) {
                    let m = choose|m: int| j + 1 <= m < b.len() && #[trigger] b[m] == rest[k - 1];
                    assert(b[m] == all[k]);
                }
            }
        }
    }
}

proof fn lemma_head_in_order(head: EntryValue, rest: Seq<EntryValue>)
    requires
        in_order(rest),
        forall|k: int|
            0 <= k < rest.len() ==> page_rank(head.name, (#[trigger] rest[k]).name) != Rank::After,
    ensures
        in_order(seq![head] + rest),
{
    let all = seq![head] + rest;
    assert forall|x: int, y: int|
        #![trigger all[x], all[y]]
        0 <= x < y < all.len() implies page_rank(all[x].name, all[y].name) != Rank::After by {
        assert(all[y] == rest[y - 1]);
        if x > 0 {
            assert(all[x] == rest[x - 1]);
        }
    }
}

proof fn lemma_merged_in_order(a: Seq<EntryValue>, i: int, b: Seq<EntryValue>, j: int)
    requires
        0 <= i <= a.len(),
        0 <= j <= b.len(),
        in_order(a),
        in_order(b),
    ensures
        in_order(merged(a, i, b, j)),
    decreases (a.len() - i) + (b.len() - j),
{
    if i >= a.len() {
        assert forall|x: int, y: int|
            #![trigger b.skip(j)[x], b.skip(j)[y]]
            0 <= x < y < b.skip(j).len() implies page_rank(
            b.skip(j)[x].name,
            b.skip(j)[y].name,
        ) != Rank::After by {
            assert(b.skip(j)[x] == b[j + x] && b.skip(j)[y] == b[j + y]);
        }
    } else if j >= b.len() {
        assert forall|x: int, y: int|
            #![trigger a.skip(i)[x], a.skip(i)[y]]
            0 <= x < y < a.skip(i).len() implies page_rank(
            a.skip(i)[x].name,
            a.skip(i)[y].name,
        ) != Rank::After by {
            assert(a.skip(i)[x] == a[i + x] && a.skip(i)[y] == a[i + y]);
        }
    } else if page_rank(a[i].name, b[j].name) != Rank::After {
        let rest = merged(a, i + 1, b, j);
        lemma_merged_in_order(a, i + 1, b, j);
        lemma_merged_members(a, i + 1, b, j);
        assert forall|k: int| 0 <= k < rest.len() implies page_rank(
            a[i].name,
            (#[trigger] rest[k]).name,
        ) != Rank::After by {
            if is_among(a, i + 1, rest[k]) {
                let m = choose|m: int| i + 1 <= m < a.len() && #[trigger] a[m] == rest[k];
                assert(page_rank(a[i].name, a[m].name) != Rank::After);
            } else {
                let m = choose|m: int| j <= m < b.len() && #[trigger] b[m] == rest[k];
                if m > j {
                    assert(page_rank(b[j].name, b[m].name) != Rank::After);
                    law_page_order_carries_over(a[i].name, b[j].name, b[m].name);
                }
            }
        }
        lemma_head_in_order(a[i], rest);
    } else {
        let rest = merged(a, i, b, j + 1);
        lemma_merged_in_order(a, i, b, j + 1);
        lemma_merged_members(a, i, b, j + 1);
        law_pages_are_told_apart(a[i].name, b[j].name);
        assert forall|k: int| 0 <= k < rest.len() implies page_rank(
            b[j].name,
            (#[trigger] rest[k]).name,
        ) != Rank::After by {
            if is_among(b, j + 1, rest[k]) {
                let m = choose|m: int| j + 1 <= m < b.len() && #[trigger] b[m] == rest[k];
                assert(page_rank(b[j].name, b[m].name) != Rank::After);
            } else {
                let m = choose|m: int| i <= m < a.len() && #[trigger] a[m] == rest[k];
                if m > i {
                    assert(page_rank(a[i].name, a[m].name) != Rank::After);
                    law_page_order_carries_over(b[j].name, a[i].name, a[m].name);
                }
            }
        }
        lemma_head_in_order(b[j], rest);
    }
}

/// Sorted entries stand in the order of their pages.
pub proof fn law_sorted_entries_are_in_order(entries: Seq<EntryValue>)
    ensures
        in_order(sorted(entries)),
    decreases entries.len(),
{
    if entries.len() > 1 {
        let half = entries.len() as int / 2;
        let left = entries.take(half);
        let right = entries.skip(half);
        law_sorted_entries_are_in_order(left);
        law_sorted_entries_are_in_order(right);
        lemma_merged_in_order(sorted(left), 0, sorted(right), 0);
    }
}

proof fn lemma_merged_as_joined(a: Seq<EntryValue>, i: int, b: Seq<EntryValue>)
    requires
        0 <= i <= a.len(),
        forall|x: int, y: int|
            #![trigger a[x], b[y]]
            0 <= x < a.len() && 0 <= y < b.len() ==> page_rank(a[x].name, b[y].name) != Rank::After,
    ensures
        merged(a, i, b, 0) == a.skip(i) + b,
    decreases a.len() - i,
{
    if i >= a.len() {
        assert(b.skip(0) =~= a.skip(i) + b);
    } else if b.len() == 0 {
        assert(a.skip(i) =~= a.skip(i) + b);
    } else {
        assert(page_rank(a[i].name, b[0].name) != Rank::After);
        lemma_merged_as_joined(a, i + 1, b);
        assert(seq![a[i]] + (a.skip(i + 1) + b) =~= a.skip(i) + b);
    }
}

/// Sorting changes nothing where the entries stand in order already.
pub proof fn law_sorting_again_changes_nothing(entries: Seq<EntryValue>)
    requires
        in_order(entries),
    ensures
        sorted(entries) == entries,
    decreases entries.len(),
{
    if entries.len() > 1 {
        let half = entries.len() as int / 2;
        let left = entries.take(half);
        let right = entries.skip(half);
        assert forall|x: int, y: int|
            #![trigger left[x], left[y]]
            0 <= x < y < left.len() implies page_rank(left[x].name, left[y].name) != Rank::After by {
            assert(left[x] == entries[x] && left[y] == entries[y]);
        }
        assert forall|x: int, y: int|
            #![trigger right[x], right[y]]
            0 <= x < y < right.len() implies page_rank(right[x].name, right[y].name)
            != Rank::After by {
            assert(right[x] == entries[half + x] && right[y] == entries[half + y]);
        }
        law_sorting_again_changes_nothing(left);
        law_sorting_again_changes_nothing(right);
        assert forall|x: int, y: int|
            #![trigger left[x], right[y]]
            0 <= x < left.len() && 0 <= y < right.len() implies page_rank(
            left[x].name,
            right[y].name,
        ) != Rank::After by {
            assert(left[x] == entries[x] && right[y] == entries[half + y]);
        }
        lemma_merged_as_joined(left, 0, right);
        assert(left.skip(0) + right =~= entries);
    }
}

/// Has every entry a name of its own?
pub open spec fn distinct_names(entries: Seq<EntryValue>) -> bool {
    forall|i: int, j: int|
        #![trigger entries[i], entries[j]]
        0 <= i < j < entries.len() ==> entries[i].name != entries[j].name
}

proof fn lemma_one_order(x: Seq<EntryValue>, y: Seq<EntryValue>)
    requires
        x.to_multiset() == y.to_multiset(),
        in_order(x),
        in_order(y),
        distinct_names(x),
    ensures
        x == y,
    decreases x.len(),
{
    broadcast use vstd::seq_lib::group_to_multiset_ensures;

    assert(x.len() == x.to_multiset().len());
    assert(y.len() == y.to_multiset().len());
    if x.len() == 0 {
        assert(x =~= y);
    } else {
        assert(x.to_multiset().count(x[0]) > 0) by {
            assert(x.contains(x[0]));
        }
        assert(y.contains(x[0]));
        assert(y.to_multiset().count(y[0]) > 0) by {
            assert(y.contains(y[0]));
        }
        assert(x.contains(y[0]));
        let k = choose|k: int| 0 <= k < y.len() && y[k] == x[0];
        let m = choose|m: int| 0 <= m < x.len() && x[m] == y[0];
        law_pages_are_told_apart(x[0].name, y[0].name);
        law_pages_are_told_apart(x[0].name, x[0].name);
        if m > 0 {
            assert(page_rank(x[0].name, x[m].name) != Rank::After);
        }
        if k > 0 {
            assert(page_rank(y[0].name, y[k].name) != Rank::After);
        }
        assert(x[0].name == y[0].name);
        assert(m == 0);
        let s = x.drop_first();
        let t = y.drop_first();
        assert(x =~= seq![x[0]] + s);
        assert(y =~= seq![y[0]] + t);
        vstd::seq_lib::lemma_multiset_commutative(seq![x[0]], s);
        vstd::seq_lib::lemma_multiset_commutative(seq![y[0]], t);
        assert forall|e: EntryValue| s.to_multiset().count(e) == t.to_multiset().count(e) by {
            assert(x.to_multiset().count(e) == seq![x[0]].to_multiset().count(e)
                + s.to_multiset().count(e));
            assert(y.to_multiset().count(e) == seq![y[0]].to_multiset().count(e)
                + t.to_multiset().count(e));
        }
        assert(s.to_multiset() =~= t.to_multiset());
        assert(in_order(s)) by {
            assert forall|i: int, j: int|
                #![trigger s[i], s[j]]
                0 <= i < j < s.len() implies page_rank(s[i].name, s[j].name) != Rank::After by {
                assert(s[i] == x[i + 1] && s[j] == x[j + 1]);
            }
        }
        assert(in_order(t)) by {
            assert forall|i: int, j: int|
                #![trigger t[i], t[j]]
                0 <= i < j < t.len() implies page_rank(t[i].name, t[j].name) != Rank::After by {
                assert(t[i] == y[i + 1] && t[j] == y[j + 1]);
            }
        }
        assert(distinct_names(s)) by {
            assert forall|i: int, j: int|
                #![trigger s[i], s[j]]
                0 <= i < j < s.len() implies s[i].name != s[j].name by {
                assert(s[i] == x[i + 1] && s[j] == x[j + 1]);
            }
        }
        lemma_one_order(s, t);
    }
}

proof fn lemma_sorted_distinct(entries: Seq<EntryValue>)
    requires
        distinct_names(entries),
    ensures
        distinct_names(sorted(entries)),
{
    broadcast use vstd::seq_lib::group_to_multiset_ensures;

    law_sorting_keeps_the_entries(entries);
    let out = sorted(entries);
    assert forall|i: int, j: int|
        #![trigger out[i], out[j]]
        0 <= i < j < out.len() implies out[i].name != out[j].name by {
        if out[i].name == out[j].name {
            assert(out.contains(out[i]) && out.contains(out[j]));
            assert(out.to_multiset().count(out[i]) > 0 && out.to_multiset().count(out[j]) > 0);
            assert(entries.contains(out[i]) && entries.contains(out[j]));
            let k = choose|k: int| 0 <= k < entries.len() && entries[k] == out[i];
            let m = choose|m: int| 0 <= m < entries.len() && entries[m] == out[j];
            if k != m {
                assert(entries[k].name != entries[m].name);
            }
            assert(out[i] == out[j]);
            assert(entries.no_duplicates()) by {
                assert forall|p: int, q: int|
                    0 <= p < entries.len() && 0 <= q < entries.len() && p != q implies entries[p]
                    != entries[q] by {
                    if p < q {
                        assert(entries[p].name != entries[q].name);
                    } else {
                        assert(entries[q].name != entries[p].name);
                    }
                }
            }
            entries.lemma_multiset_has_no_duplicates();
            out.lemma_multiset_has_no_duplicates_conv();
            assert(false);
        }
    }
}

/// In whatever order a folder is listed, its pages come out in the same one.
pub proof fn law_listing_order_does_not_matter(one: Seq<EntryValue>, two: Seq<EntryValue>)
    requires
        one.to_multiset() == two.to_multiset(),
        distinct_names(one),
    ensures
        sorted(one) == sorted(two),
{
    law_sorting_keeps_the_entries(one);
    law_sorting_keeps_the_entries(two);
    law_sorted_entries_are_in_order(one);
    law_sorted_entries_are_in_order(two);
    lemma_sorted_distinct(one);
    lemma_one_order(sorted(one), sorted(two));
}

} // verus!
