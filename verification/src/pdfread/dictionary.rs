//! Looking things up in dictionaries, and changing them.

use crate::pdfwrite::object::{entry_values, PdfObject, PdfValue};
use crate::text::{owned, same_text};
use vstd::prelude::*;

verus! {

/// The entries of a dictionary, as values.
pub type Entries = Seq<(Seq<char>, PdfValue)>;

/// The first entry at or after `from` that has this key, or the end.
pub open spec fn entry_index(entries: Entries, key: Seq<char>, from: int) -> int
    decreases entries.len() - from,
{
    if from >= entries.len() || entries[from].0 == key {
        from
    } else {
        entry_index(entries, key, from + 1)
    }
}

/// The value under a key. Where a key stands twice, the first counts.
pub open spec fn lookup(entries: Entries, key: Seq<char>) -> Option<PdfValue> {
    let index = entry_index(entries, key, 0);
    if index < entries.len() {
        Some(entries[index].1)
    } else {
        None
    }
}

/// A dictionary with a value set: in place when the key is there already, so
/// that the order of the entries survives, and at the end when it is not.
pub open spec fn with_entry(entries: Entries, key: Seq<char>, value: PdfValue) -> Entries {
    let index = entry_index(entries, key, 0);
    if index < entries.len() {
        entries.update(index, (entries[index].0, value))
    } else {
        entries.push((key, value))
    }
}

/// A dictionary without the entries under a key.
pub open spec fn without_key(entries: Entries, key: Seq<char>) -> Entries
    decreases entries.len(),
{
    if entries.len() == 0 {
        Seq::empty()
    } else if entries.last().0 == key {
        without_key(entries.drop_last(), key)
    } else {
        without_key(entries.drop_last(), key).push(entries.last())
    }
}

/// Looking for a key stops at an entry with that key, or at the end.
pub proof fn lemma_entry_index(entries: Entries, key: Seq<char>, from: int)
    requires
        0 <= from <= entries.len(),
    ensures
        from <= entry_index(entries, key, from) <= entries.len(),
        entry_index(entries, key, from) < entries.len() ==> entries[entry_index(
            entries,
            key,
            from,
        )].0 == key,
    decreases entries.len() - from,
{
    if from < entries.len() && entries[from].0 != key {
        lemma_entry_index(entries, key, from + 1);
    }
}

proof fn lemma_index_after_update(entries: Entries, key: Seq<char>, at: int, value: PdfValue, from: int)
    requires
        0 <= from <= at < entries.len(),
        entry_index(entries, key, from) == at,
    ensures
        entry_index(entries.update(at, (entries[at].0, value)), key, from) == at,
    decreases at - from,
{
    lemma_entry_index(entries, key, from);
    if from < at {
        lemma_index_after_update(entries, key, at, value, from + 1);
    }
}

/// Of two values set under a key that is there, the second stays.
pub proof fn law_the_last_value_stays(
    entries: Entries,
    key: Seq<char>,
    first: PdfValue,
    second: PdfValue,
)
    ensures
        with_entry(with_entry(entries, key, first), key, second) == with_entry(
            entries,
            key,
            second,
        ),
        lookup(with_entry(entries, key, second), key) == Some(second),
{
    lemma_entry_index(entries, key, 0);
    let at = entry_index(entries, key, 0);
    if at < entries.len() {
        lemma_index_after_update(entries, key, at, first, 0);
        lemma_index_after_update(entries, key, at, second, 0);
        assert(with_entry(with_entry(entries, key, first), key, second) =~= with_entry(
            entries,
            key,
            second,
        ));
    } else {
        lemma_index_after_push(entries, key, first, 0);
        lemma_index_after_push(entries, key, second, 0);
        assert(with_entry(with_entry(entries, key, first), key, second) =~= with_entry(
            entries,
            key,
            second,
        ));
    }
}

proof fn lemma_index_after_push(entries: Entries, key: Seq<char>, value: PdfValue, from: int)
    requires
        0 <= from <= entries.len(),
        entry_index(entries, key, from) == entries.len(),
    ensures
        entry_index(entries.push((key, value)), key, from) == entries.len(),
    decreases entries.len() - from,
{
    if from < entries.len() {
        lemma_index_after_push(entries, key, value, from + 1);
    }
}

/// Where the first entry with this key stands.
fn position(entries: &[(String, PdfObject)], key: &str) -> (index: usize)
    ensures
        index == entry_index(entry_values(entries@), key@, 0),
        index <= entries@.len(),
{
    let mut i: usize = 0;
    while i < entries.len() && !same_text(entries[i].0.as_str(), key)
        invariant
            i <= entries@.len(),
            entry_index(entry_values(entries@), key@, i as int) == entry_index(
                entry_values(entries@),
                key@,
                0,
            ),
        decreases entries@.len() - i,
    {
        i += 1;
    }
    i
}

/// The value under a key.
pub fn entry<'a>(entries: &'a [(String, PdfObject)], key: &str) -> (found: Option<&'a PdfObject>)
    ensures
        match found {
            Some(object) => lookup(entry_values(entries@), key@) == Some(object@),
            None => lookup(entry_values(entries@), key@) is None,
        },
        found matches Some(object) ==> exists|i: int|
            0 <= i < entries@.len() && #[trigger] entries@[i].1 == *object,
{
    let index = position(entries, key);
    if index < entries.len() {
        Some(&entries[index].1)
    } else {
        None
    }
}

/// Sets the value under a key.
pub fn set_entry(entries: &mut Vec<(String, PdfObject)>, key: &str, value: PdfObject)
    ensures
        entry_values(final(entries)@) == with_entry(entry_values(old(entries)@), key@, value@),
{
    let ghost before = entry_values(entries@);
    let index = position(entries.as_slice(), key);
    proof {
        lemma_entry_index(before, key@, 0);
    }
    if index < entries.len() {
        let mut slot: (String, PdfObject) = (owned(key), value);
        std::mem::swap(&mut entries[index], &mut slot);
        assert(entry_values(entries@) =~= with_entry(before, key@, value@));
    } else {
        entries.push((owned(key), value));
        assert(entry_values(entries@) =~= with_entry(before, key@, value@));
    }
}

/// Takes the value under a key out, and leaves `null` there.
pub fn take_entry(entries: &mut Vec<(String, PdfObject)>, key: &str) -> (taken: Option<PdfObject>)
    ensures
        match taken {
            Some(object) => lookup(entry_values(old(entries)@), key@) == Some(object@)
                && entry_values(final(entries)@) == with_entry(
                entry_values(old(entries)@),
                key@,
                PdfValue::Null,
            ),
            None => lookup(entry_values(old(entries)@), key@) is None && final(entries)@ == old(
                entries,
            )@,
        },
{
    let ghost before = entry_values(entries@);
    let index = position(entries.as_slice(), key);
    proof {
        lemma_entry_index(before, key@, 0);
    }
    if index < entries.len() {
        let mut slot: (String, PdfObject) = (owned(key), PdfObject::Null);
        std::mem::swap(&mut entries[index], &mut slot);
        assert(entry_values(entries@) =~= with_entry(before, key@, PdfValue::Null));
        Some(slot.1)
    } else {
        None
    }
}

/// Removes the entries under a key.
pub fn remove_entry(entries: Vec<(String, PdfObject)>, key: &str) -> (kept: Vec<
    (String, PdfObject),
>)
    ensures
        entry_values(kept@) == without_key(entry_values(entries@), key@),
{
    let ghost all = entry_values(entries@);
    let mut kept: Vec<(String, PdfObject)> = Vec::new();
    let mut rest = entries;
    assert(all.take(0) =~= Seq::empty());
    assert(entry_values(kept@) =~= Seq::empty());
    let mut i: usize = 0;
    let count: usize = rest.len();
    while i < count
        invariant
            i <= count,
            count == all.len(),
            rest@.len() == count - i,
            entry_values(rest@) == all.skip(i as int),
            entry_values(kept@) == without_key(all.take(i as int), key@),
        decreases count - i,
    {
        let ghost left = entry_values(rest@);
        let ghost objects = rest@;
        let first = rest.remove(0);
        proof {
            assert((first.0@, first.1@) == left[0]);
            assert forall|j: int| 0 <= j < rest@.len() implies #[trigger] entry_values(rest@)[j]
                == all[i + 1 + j] by {
                assert(rest@[j] == objects[j + 1]);
                assert(left[j + 1] == all.skip(i as int)[j + 1]);
            }
            assert(entry_values(rest@) =~= all.skip(i + 1));
            assert(all.take(i + 1).drop_last() =~= all.take(i as int));
            assert(all.take(i + 1).last() == (first.0@, first.1@));
        }
        if !same_text(first.0.as_str(), key) {
            let ghost shorter = entry_values(kept@);
            kept.push(first);
            assert(entry_values(kept@) =~= shorter.push((first.0@, first.1@)));
        }
        i += 1;
    }
    assert(all.take(count as int) =~= all);
    kept
}

proof fn lemma_index_in_both(entries: Entries, more: Entries, key: Seq<char>, from: int)
    requires
        0 <= from <= entries.len(),
    ensures
        entry_index(entries, key, from) < entries.len() ==> entry_index(entries + more, key, from)
            == entry_index(entries, key, from),
        entry_index(entries, key, from) >= entries.len() ==> entry_index(entries + more, key, from)
            == entries.len() + entry_index(more, key, 0),
    decreases entries.len() - from,
{
    let all = entries + more;
    if from < entries.len() {
        assert(all[from] == entries[from]);
        if entries[from].0 != key {
            lemma_index_in_both(entries, more, key, from + 1);
        }
    } else {
        lemma_index_behind(entries, more, key, 0);
    }
}

proof fn lemma_index_behind(entries: Entries, more: Entries, key: Seq<char>, from: int)
    requires
        0 <= from <= more.len(),
    ensures
        entry_index(entries + more, key, entries.len() + from) == entries.len() + entry_index(
            more,
            key,
            from,
        ),
    decreases more.len() - from,
{
    if from < more.len() {
        assert((entries + more)[entries.len() + from] == more[from]);
        if more[from].0 != key {
            lemma_index_behind(entries, more, key, from + 1);
        }
    }
}

/// In two dictionaries, one after the other, the first that has a key counts.
pub proof fn law_the_first_value_counts(entries: Entries, more: Entries, key: Seq<char>)
    ensures
        lookup(entries + more, key) == (match lookup(entries, key) {
            Some(value) => Some(value),
            None => lookup(more, key),
        }),
{
    lemma_entry_index(entries, key, 0);
    lemma_entry_index(more, key, 0);
    lemma_index_in_both(entries, more, key, 0);
    let i = entry_index(entries, key, 0);
    if i < entries.len() {
        assert((entries + more)[i] == entries[i]);
    } else {
        let j = entry_index(more, key, 0);
        if j < more.len() {
            assert((entries + more)[entries.len() + j] == more[j]);
        }
    }
}

/// What stands under the one key of a dictionary.
pub proof fn lemma_only_entry(name: Seq<char>, value: PdfValue, key: Seq<char>)
    ensures
        lookup(seq![(name, value)], key) == (if name == key {
            Some(value)
        } else {
            None
        }),
        lookup(Seq::empty(), key) is None,
{
    reveal_with_fuel(entry_index, 2);
}

/// The same for one entry that is pushed.
pub proof fn lemma_pushed_entry(entries: Entries, name: Seq<char>, value: PdfValue, key: Seq<char>)
    ensures
        lookup(entries.push((name, value)), key) == (match lookup(entries, key) {
            Some(found) => Some(found),
            None => if name == key {
                Some(value)
            } else {
                None
            },
        }),
{
    assert(entries.push((name, value)) =~= entries + seq![(name, value)]);
    law_the_first_value_counts(entries, seq![(name, value)], key);
    lemma_only_entry(name, value, key);
}

proof fn lemma_index_of_same_keys(entries: Entries, other: Entries, key: Seq<char>, from: int)
    requires
        entries.len() == other.len(),
        forall|i: int| 0 <= i < entries.len() ==> (#[trigger] entries[i]).0 == other[i].0,
        0 <= from <= entries.len(),
    ensures
        entry_index(entries, key, from) == entry_index(other, key, from),
    decreases entries.len() - from,
{
    if from < entries.len() {
        assert(entries[from].0 == other[from].0);
        if entries[from].0 != key {
            lemma_index_of_same_keys(entries, other, key, from + 1);
        }
    }
}

/// A value that is set leaves what stands under every other key.
pub proof fn law_other_values_stay(
    entries: Entries,
    key: Seq<char>,
    value: PdfValue,
    other: Seq<char>,
)
    requires
        key != other,
    ensures
        lookup(with_entry(entries, key, value), other) == lookup(entries, other),
{
    let at = entry_index(entries, key, 0);
    lemma_entry_index(entries, key, 0);
    if at < entries.len() {
        let changed = with_entry(entries, key, value);
        lemma_index_of_same_keys(entries, changed, other, 0);
        lemma_entry_index(entries, other, 0);
    } else {
        lemma_pushed_entry(entries, key, value, other);
    }
}

/// A key that is taken out is gone, and what stands under every other key stays.
pub proof fn law_a_key_is_taken_out(entries: Entries, key: Seq<char>, other: Seq<char>)
    ensures
        lookup(without_key(entries, key), key) is None,
        key != other ==> lookup(without_key(entries, key), other) == lookup(entries, other),
    decreases entries.len(),
{
    if entries.len() > 0 {
        let before = entries.drop_last();
        let (name, value) = entries.last();
        law_a_key_is_taken_out(before, key, other);
        assert(entries =~= before.push((name, value)));
        lemma_pushed_entry(before, name, value, other);
        lemma_pushed_entry(without_key(before, key), name, value, other);
        lemma_pushed_entry(without_key(before, key), name, value, key);
    }
}

proof fn lemma_index_at(entries: Entries, i: int, from: int)
    requires
        0 <= from <= i < entries.len(),
        forall|j: int| 0 <= j < i ==> (#[trigger] entries[j]).0 != entries[i].0,
    ensures
        entry_index(entries, entries[i].0, from) == i,
    decreases i - from,
{
    if from < i {
        assert(entries[from].0 != entries[i].0);
        lemma_index_at(entries, i, from + 1);
    }
}

/// A key that stands nowhere before leads to its own value.
pub proof fn lemma_entry_at(entries: Entries, i: int)
    requires
        0 <= i < entries.len(),
        forall|j: int| 0 <= j < i ==> (#[trigger] entries[j]).0 != entries[i].0,
    ensures
        lookup(entries, entries[i].0) == Some(entries[i].1),
{
    lemma_index_at(entries, i, 0);
}

/// A key that stands nowhere leads to nothing.
pub proof fn lemma_no_entry(entries: Entries, key: Seq<char>)
    requires
        forall|j: int| 0 <= j < entries.len() ==> (#[trigger] entries[j]).0 != key,
    ensures
        lookup(entries, key) is None,
{
    lemma_entry_index(entries, key, 0);
    let at = entry_index(entries, key, 0);
    if at < entries.len() {
        assert(entries[at].0 == key);
    }
}

} // verus!
