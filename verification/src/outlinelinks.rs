//! How the bookmarks of a document are linked: each to those beside it, above it
//! and below it.

use crate::bytes::utf8;
use crate::pdfoutline::{
    child_entries, item_entries, lemma_level_grows, law_bookmarks_are_numbered_in_order, level_len,
    level_objects, number_of, target_entries, with_link, OutlineEntry,
};
use crate::pdfread::dictionary::{
    law_the_first_value_counts, lemma_only_entry, lemma_pushed_entry, lookup, Entries,
};
use crate::pdfwrite::object::PdfValue;
use crate::pdfwrite::writer::Numbered;
use crate::sign::appearance::reference_to;
use vstd::prelude::*;

verus! {

/// What stands under a key of an object that is a dictionary.
pub open spec fn entry_of(object: Numbered, key: Seq<char>) -> Option<PdfValue> {
    match object.2 {
        PdfValue::Dictionary(entries) => lookup(entries, key),
        _ => None,
    }
}

/// An object names another under a key.
pub open spec fn names(object: Numbered, key: Seq<char>, other: Numbered) -> bool {
    entry_of(object, key) == Some(reference_to(other.0 as nat))
}

/// The object of the bookmark at `i` among the objects of its level.
pub open spec fn object_at(objects: Seq<Numbered>, entries: Seq<OutlineEntry>, i: int) -> Numbered {
    objects[level_len(entries, i as nat) as int]
}

proof fn lemma_object_of_a_bookmark(
    entries: Seq<OutlineEntry>,
    n: nat,
    first: nat,
    parent: nat,
    pages: Seq<u32>,
    i: int,
)
    requires
        0 <= i < n <= entries.len(),
        first + level_len(entries, n) <= u32::MAX,
    ensures
        ({
            let objects = level_objects(entries, n, first, parent, pages);
            let children = entries[i].children@;
            let number = number_of(entries, i, first);
            let at = level_len(entries, i as nat) as int;
            let below = level_objects(children, children.len(), number + 1, number, pages);
            &&& at + 1 + level_len(children, children.len()) <= objects.len()
            &&& objects[at].0 == number
            &&& objects[at].2 == PdfValue::Dictionary(item_entries(entries, i, first, parent, pages))
            &&& objects.subrange(at + 1, at + 1 + below.len()) == below
            &&& below.len() == level_len(children, children.len())
        }),
    decreases n,
{
    lemma_level_grows(entries, i as nat, n);
    lemma_level_grows(entries, (i + 1) as nat, n);
    law_bookmarks_are_numbered_in_order(entries, n, first, parent, pages);
    let objects = level_objects(entries, n, first, parent, pages);
    let before = level_objects(entries, (n - 1) as nat, first, parent, pages);
    law_bookmarks_are_numbered_in_order(entries, (n - 1) as nat, first, parent, pages);
    let children = entries[i].children@;
    let number = number_of(entries, i, first);
    let at = level_len(entries, i as nat) as int;
    let below = level_objects(children, children.len(), number + 1, number, pages);
    law_bookmarks_are_numbered_in_order(children, children.len(), number + 1, number, pages);
    if i < n - 1 {
        lemma_object_of_a_bookmark(entries, (n - 1) as nat, first, parent, pages, i);
        assert(objects[at] == before[at]);
        assert(objects.subrange(at + 1, at + 1 + below.len()) =~= before.subrange(
            at + 1,
            at + 1 + below.len(),
        ));
    } else {
        assert(objects.subrange(at + 1, at + 1 + below.len()) =~= below);
    }
}

proof fn lemma_link(entries: Entries, name: Seq<char>, number: Option<nat>, key: Seq<char>)
    ensures
        lookup(with_link(entries, name, number), key) == (match lookup(entries, key) {
            Some(found) => Some(found),
            None => match number {
                Some(n) => if name == key {
                    Some(reference_to(n))
                } else {
                    None
                },
                None => None,
            },
        }),
{
    if let Some(n) = number {
        lemma_pushed_entry(entries, name, reference_to(n), key);
    }
}

proof fn lemma_child_entries(children: Seq<OutlineEntry>, first: nat, key: Seq<char>)
    ensures
        lookup(child_entries(children, first), key) == (if children.len() == 0 {
            None
        } else if key == "First"@ {
            Some(reference_to(first))
        } else if key == "Last"@ {
            Some(reference_to(number_of(children, children.len() - 1, first)))
        } else if key == "Count"@ {
            Some(PdfValue::Integer(level_len(children, children.len()) as int))
        } else {
            None
        }),
{
    lemma_keys();
    let none: Entries = Seq::empty();
    let one = reference_to(first);
    let two = reference_to(number_of(children, children.len() - 1, first));
    let three = PdfValue::Integer(level_len(children, children.len()) as int);
    lemma_only_entry("First"@, one, key);
    lemma_pushed_entry(none, "First"@, one, key);
    lemma_pushed_entry(none.push(("First"@, one)), "Last"@, two, key);
    lemma_pushed_entry(
        none.push(("First"@, one)).push(("Last"@, two)),
        "Count"@,
        three,
        key,
    );
    if children.len() > 0 {
        assert(child_entries(children, first) =~= none.push(("First"@, one)).push(
            ("Last"@, two),
        ).push(("Count"@, three)));
    }
}

/// The keys of a bookmark are all different.
proof fn lemma_keys()
    ensures
        "First"@ != "Last"@,
        "First"@ != "Count"@,
        "Last"@ != "Count"@,
        "Title"@ != "Parent"@,
        "Title"@ != "Prev"@,
        "Title"@ != "Next"@,
        "Title"@ != "First"@,
        "Title"@ != "Last"@,
        "Title"@ != "Count"@,
        "Parent"@ != "Prev"@,
        "Parent"@ != "Next"@,
        "Parent"@ != "First"@,
        "Parent"@ != "Last"@,
        "Parent"@ != "Count"@,
        "Prev"@ != "Next"@,
        "Prev"@ != "First"@,
        "Prev"@ != "Last"@,
        "Prev"@ != "Count"@,
        "Next"@ != "First"@,
        "Next"@ != "Last"@,
        "Next"@ != "Count"@,
        "Dest"@ != "Title"@,
        "Dest"@ != "Parent"@,
        "Dest"@ != "Prev"@,
        "Dest"@ != "Next"@,
        "Dest"@ != "First"@,
        "Dest"@ != "Last"@,
        "Dest"@ != "Count"@,
        "A"@ != "Title"@,
        "A"@ != "Parent"@,
        "A"@ != "Prev"@,
        "A"@ != "Next"@,
        "A"@ != "First"@,
        "A"@ != "Last"@,
        "A"@ != "Count"@,
        "A"@ != "Dest"@,
{
    reveal_strlit("Title");
    reveal_strlit("Parent");
    reveal_strlit("Prev");
    reveal_strlit("Next");
    reveal_strlit("First");
    reveal_strlit("Last");
    reveal_strlit("Count");
    reveal_strlit("Dest");
    reveal_strlit("A");
    assert("Title"@.len() == 5 && "First"@.len() == 5 && "Count"@.len() == 5);
    assert("Prev"@.len() == 4 && "Next"@.len() == 4 && "Last"@.len() == 4 && "Dest"@.len() == 4);
    assert("Parent"@.len() == 6 && "A"@.len() == 1);
    assert("Title"@[0] == 'T' && "First"@[0] == 'F' && "Count"@[0] == 'C');
    assert("Prev"@[0] == 'P' && "Next"@[0] == 'N' && "Last"@[0] == 'L' && "Dest"@[0] == 'D');
}

/// What stands in the dictionary of a bookmark: its title, the one above it, those
/// beside it where there are any, the first and the last below it and how many are
/// below it in all where there are any, and where it leads.
proof fn lemma_item(
    entries: Seq<OutlineEntry>,
    i: int,
    first: nat,
    parent: nat,
    pages: Seq<u32>,
)
    requires
        0 <= i < entries.len(),
    ensures
        ({
            let item = item_entries(entries, i, first, parent, pages);
            let children = entries[i].children@;
            let number = number_of(entries, i, first);
            let below = child_entries(children, number + 1);
            let target = target_entries(entries[i].target, pages);
            &&& lookup(item, "Title"@) == Some(PdfValue::String(utf8(entries[i].title@)))
            &&& lookup(item, "Parent"@) == Some(reference_to(parent))
            &&& lookup(item, "Prev"@) == (if i > 0 {
                Some(reference_to(number_of(entries, i - 1, first)))
            } else {
                None
            })
            &&& lookup(item, "Next"@) == (if i + 1 < entries.len() {
                Some(reference_to(number_of(entries, i + 1, first)))
            } else {
                None
            })
            &&& lookup(item, "First"@) == lookup(below, "First"@)
            &&& lookup(item, "Last"@) == lookup(below, "Last"@)
            &&& lookup(item, "Count"@) == lookup(below, "Count"@)
            &&& lookup(item, "Dest"@) == lookup(target, "Dest"@)
            &&& lookup(item, "A"@) == lookup(target, "A"@)
        }),
{
    lemma_item_key(entries, i, first, parent, pages, "Title"@);
    lemma_item_key(entries, i, first, parent, pages, "Parent"@);
    lemma_item_key(entries, i, first, parent, pages, "Prev"@);
    lemma_item_key(entries, i, first, parent, pages, "Next"@);
    lemma_item_key(entries, i, first, parent, pages, "First"@);
    lemma_item_key(entries, i, first, parent, pages, "Last"@);
    lemma_item_key(entries, i, first, parent, pages, "Count"@);
    lemma_item_key(entries, i, first, parent, pages, "Dest"@);
    lemma_item_key(entries, i, first, parent, pages, "A"@);
    lemma_keys();
    let children = entries[i].children@;
    let number = number_of(entries, i, first);
    lemma_child_entries(children, number + 1, "Prev"@);
    lemma_child_entries(children, number + 1, "Next"@);
    lemma_child_entries(children, number + 1, "Dest"@);
    lemma_child_entries(children, number + 1, "A"@);
}

proof fn lemma_target_keys(target: crate::pdfoutline::OutlineTarget, pages: Seq<u32>, key: Seq<char>)
    requires
        key != "Dest"@,
        key != "A"@,
    ensures
        lookup(target_entries(target, pages), key) is None,
{
    let found = target_entries(target, pages);
    if found.len() == 1 {
        lemma_only_entry(found[0].0, found[0].1, key);
        assert(found =~= seq![(found[0].0, found[0].1)]);
    } else {
        lemma_only_entry("A"@, PdfValue::Null, key);
        assert(found =~= Seq::empty());
    }
}

proof fn lemma_item_key(
    entries: Seq<OutlineEntry>,
    i: int,
    first: nat,
    parent: nat,
    pages: Seq<u32>,
    key: Seq<char>,
)
    requires
        0 <= i < entries.len(),
    ensures
        ({
            let children = entries[i].children@;
            let below = child_entries(children, number_of(entries, i, first) + 1);
            let target = target_entries(entries[i].target, pages);
            lookup(item_entries(entries, i, first, parent, pages), key) == (if key == "Title"@ {
                Some(PdfValue::String(utf8(entries[i].title@)))
            } else if key == "Parent"@ {
                Some(reference_to(parent))
            } else if key == "Prev"@ && i > 0 {
                Some(reference_to(number_of(entries, i - 1, first)))
            } else if key == "Next"@ && i + 1 < entries.len() {
                Some(reference_to(number_of(entries, i + 1, first)))
            } else {
                match lookup(below, key) {
                    Some(value) => Some(value),
                    None => if key == "Dest"@ || key == "A"@ {
                        lookup(target, key)
                    } else {
                        None
                    },
                }
            })
        }),
{
    lemma_keys();
    let title = PdfValue::String(utf8(entries[i].title@));
    let start = seq![("Title"@, title), ("Parent"@, reference_to(parent))];
    lemma_only_entry("Title"@, title, key);
    lemma_pushed_entry(seq![("Title"@, title)], "Parent"@, reference_to(parent), key);
    assert(start =~= seq![("Title"@, title)].push(("Parent"@, reference_to(parent))));
    let earlier: Option<nat> = if i > 0 {
        Some(number_of(entries, i - 1, first))
    } else {
        None
    };
    let later: Option<nat> = if i + 1 < entries.len() {
        Some(number_of(entries, i + 1, first))
    } else {
        None
    };
    lemma_link(start, "Prev"@, earlier, key);
    lemma_link(with_link(start, "Prev"@, earlier), "Next"@, later, key);
    let linked = with_link(with_link(start, "Prev"@, earlier), "Next"@, later);
    let children = entries[i].children@;
    let number = number_of(entries, i, first);
    let below = child_entries(children, number + 1);
    lemma_child_entries(children, number + 1, key);
    law_the_first_value_counts(linked, below, key);
    law_the_first_value_counts(linked + below, target_entries(entries[i].target, pages), key);
    if key != "Dest"@ && key != "A"@ {
        lemma_target_keys(entries[i].target, pages, key);
    }
}

/// Bookmarks that follow each other on a level name each other, the first has none
/// before it and the last none behind it, and all name the one above them. Each
/// carries its title.
pub proof fn law_bookmarks_of_a_level_are_linked(
    entries: Seq<OutlineEntry>,
    first: nat,
    parent: nat,
    pages: Seq<u32>,
    i: int,
)
    requires
        0 <= i < entries.len(),
        first + level_len(entries, entries.len()) <= u32::MAX,
    ensures
        ({
            let objects = level_objects(entries, entries.len(), first, parent, pages);
            let own = object_at(objects, entries, i);
            &&& entry_of(own, "Title"@) == Some(PdfValue::String(utf8(entries[i].title@)))
            &&& entry_of(own, "Parent"@) == Some(reference_to(parent))
            &&& i == 0 ==> entry_of(own, "Prev"@) is None
            &&& i > 0 ==> names(own, "Prev"@, object_at(objects, entries, i - 1))
            &&& i + 1 == entries.len() ==> entry_of(own, "Next"@) is None
            &&& i + 1 < entries.len() ==> names(own, "Next"@, object_at(objects, entries, i + 1))
            &&& entry_of(own, "Dest"@) == lookup(
                target_entries(entries[i].target, pages),
                "Dest"@,
            )
            &&& entry_of(own, "A"@) == lookup(target_entries(entries[i].target, pages), "A"@)
        }),
{
    let n = entries.len();
    lemma_object_of_a_bookmark(entries, n, first, parent, pages, i);
    if i > 0 {
        lemma_object_of_a_bookmark(entries, n, first, parent, pages, i - 1);
    }
    if i + 1 < n {
        lemma_object_of_a_bookmark(entries, n, first, parent, pages, i + 1);
    }
    lemma_item(entries, i, first, parent, pages);
}

/// A bookmark names the first and the last of those right below it and counts all
/// that are below it; one with none below it does neither. Those below it name it.
pub proof fn law_bookmarks_are_linked_to_those_below(
    entries: Seq<OutlineEntry>,
    first: nat,
    parent: nat,
    pages: Seq<u32>,
    i: int,
    j: int,
)
    requires
        0 <= i < entries.len(),
        first + level_len(entries, entries.len()) <= u32::MAX,
    ensures
        ({
            let objects = level_objects(entries, entries.len(), first, parent, pages);
            let own = object_at(objects, entries, i);
            let children = entries[i].children@;
            let count = level_len(children, children.len());
            let at = level_len(entries, i as nat) as int;
            let below = objects.subrange(at + 1, at + 1 + count);
            &&& children.len() == 0 ==> entry_of(own, "First"@) is None && entry_of(own, "Last"@)
                is None && entry_of(own, "Count"@) is None
            &&& children.len() > 0 ==> {
                &&& names(own, "First"@, object_at(below, children, 0))
                &&& names(own, "Last"@, object_at(below, children, children.len() - 1))
                &&& entry_of(own, "Count"@) == Some(PdfValue::Integer(below.len() as int))
            }
            &&& 0 <= j < children.len() ==> names(object_at(below, children, j), "Parent"@, own)
        }),
{
    let n = entries.len();
    let children = entries[i].children@;
    let number = number_of(entries, i, first);
    lemma_object_of_a_bookmark(entries, n, first, parent, pages, i);
    lemma_item(entries, i, first, parent, pages);
    lemma_child_entries(children, number + 1, "First"@);
    lemma_child_entries(children, number + 1, "Last"@);
    lemma_child_entries(children, number + 1, "Count"@);
    lemma_keys();
    lemma_level_grows(entries, (i + 1) as nat, n);
    if children.len() > 0 {
        let m = children.len();
        lemma_object_of_a_bookmark(children, m, number + 1, number, pages, 0);
        lemma_object_of_a_bookmark(children, m, number + 1, number, pages, m - 1);
    }
    if 0 <= j < children.len() {
        lemma_object_of_a_bookmark(children, children.len(), number + 1, number, pages, j);
        lemma_item(children, j, number + 1, number, pages);
    }
}

} // verus!
