//! What the pages of a document are: the leaves of its page tree, from left to
//! right.

use crate::bytes::utf8;
use crate::pdfoutline::{pages_below, pages_of, pages_of_kids, target_entries, OutlineTarget};
use crate::pdfread::dictionary::{
    entry_index, lemma_entry_at, lemma_entry_index, lemma_no_entry, lookup, Entries,
};
use crate::pdfread::value::{entries_at, items_at, value_at};
use crate::pdfwrite::object::PdfValue;
use crate::pdfwrite::tokenizer::object_tokens;
use crate::pdfwrite::writer::reference_under;
use crate::sign::appearance::reference_to;
use crate::sign::document::{dictionary_of, object_bytes_at, value_start, Layout};
use vstd::prelude::*;
use vstd::utf8::decode_utf8;

verus! {

/// The children of a node of the page tree, where it has an array of them.
pub open spec fn kids_of(bytes: Seq<u8>, layout: Layout, node: nat) -> Option<Seq<PdfValue>> {
    match dictionary_of(bytes, layout, node) {
        Ok(entries) => match lookup(entries, "Kids"@) {
            Some(PdfValue::Array(kids)) => Some(kids),
            _ => None,
        },
        Err(_) => None,
    }
}

/// An object is a page of the tree: a dictionary that has no array of children.
pub open spec fn is_leaf(bytes: Seq<u8>, layout: Layout, node: nat) -> bool {
    dictionary_of(bytes, layout, node) is Ok && kids_of(bytes, layout, node) is None
}

/// From one node of the tree down to another leads a way of children.
pub open spec fn leads_to(bytes: Seq<u8>, layout: Layout, path: Seq<nat>) -> bool {
    forall|i: int|
        0 <= i && i + 1 < path.len() ==> (kids_of(bytes, layout, #[trigger] path[i]) matches Some(
            kids,
        ) && names_child(kids, path[i + 1]))
}

/// One of the children is this object.
pub open spec fn names_child(kids: Seq<PdfValue>, child: nat) -> bool {
    exists|k: int|
        0 <= k < kids.len() && (#[trigger] kids[k] matches PdfValue::IndirectRef { obj_num, .. }
            && obj_num == child)
}

/// A way leads from one node down to another.
pub open spec fn lies_below(bytes: Seq<u8>, layout: Layout, node: nat, page: nat) -> bool {
    exists|path: Seq<nat>|
        #[trigger] leads_to(bytes, layout, path) && path.len() > 0 && path[0] == node
            && path.last() == page
}

/// References in an array have numbers of the size that references have.
spec fn items_fit(items: Seq<PdfValue>) -> bool {
    forall|i: int|
        0 <= i < items.len() ==> (#[trigger] items[i] matches PdfValue::IndirectRef { obj_num, .. }
            ==> obj_num <= u32::MAX)
}

/// So have those in the arrays of a dictionary.
spec fn arrays_fit(entries: Entries) -> bool {
    forall|i: int|
        0 <= i < entries.len() ==> ((#[trigger] entries[i]).1 matches PdfValue::Array(items)
            ==> items_fit(items))
}

proof fn lemma_items_fit(tokens: Seq<Seq<u8>>, at: int, depth: nat, before: Seq<PdfValue>)
    requires
        items_fit(before),
    ensures
        items_at(tokens, at, depth, before) matches Ok((items, _)) ==> items_fit(items),
    decreases tokens.len() - at,
{
    if 0 <= at < tokens.len() && tokens[at] != utf8("]"@) {
        if let Ok((value, next)) = value_at(tokens, at, depth + 1) {
            if at < next <= tokens.len() {
                let longer = before.push(value);
                assert forall|i: int| 0 <= i < longer.len() implies (
                #[trigger] longer[i] matches PdfValue::IndirectRef { obj_num, .. } ==> obj_num
                    <= u32::MAX) by {
                    if i < before.len() {
                        assert(longer[i] == before[i]);
                    }
                }
                lemma_items_fit(tokens, next, depth, longer);
            }
        }
    }
}

proof fn lemma_arrays_fit(tokens: Seq<Seq<u8>>, at: int, depth: nat, before: Entries)
    requires
        arrays_fit(before),
    ensures
        entries_at(tokens, at, depth, before) matches Ok((entries, _)) ==> arrays_fit(entries),
    decreases tokens.len() - at,
{
    if 0 <= at < tokens.len() && tokens[at] != utf8(">>"@) {
        if let Ok((value, next)) = value_at(tokens, at + 1, depth + 1) {
            if at + 1 < next <= tokens.len() {
                lemma_items_fit(tokens, at + 2, depth + 1, Seq::empty());
                let longer = before.push((decode_utf8(tokens[at]).drop_first(), value));
                assert forall|i: int| 0 <= i < longer.len() implies ((
                #[trigger] longer[i]).1 matches PdfValue::Array(items) ==> items_fit(items)) by {
                    if i < before.len() {
                        assert(longer[i] == before[i]);
                    }
                }
                lemma_arrays_fit(tokens, next, depth, longer);
            }
        }
    }
}

proof fn lemma_kids_fit(bytes: Seq<u8>, layout: Layout, node: nat)
    ensures
        kids_of(bytes, layout, node) matches Some(kids) ==> items_fit(kids),
{
    if let Ok(entries) = dictionary_of(bytes, layout, node) {
        let tokens = object_tokens(object_bytes_at(bytes, layout, node)->0, 0);
        let start = value_start(tokens);
        lemma_arrays_fit(tokens, start + 1, 0, Seq::empty());
        lemma_entry_index(entries, "Kids"@, 0);
        assert(arrays_fit(entries));
        assert(entry_index(entries, "Kids"@, 0) >= 0);
    }
}

/// What one child of a node adds to its pages: those below it, where it is a
/// reference.
pub open spec fn added_by(bytes: Seq<u8>, layout: Layout, kid: PdfValue, left: nat) -> Seq<u32> {
    match kid {
        PdfValue::IndirectRef { obj_num, .. } => pages_below(bytes, layout, obj_num, left)->Ok_0,
        _ => Seq::empty(),
    }
}

proof fn lemma_kids_add(bytes: Seq<u8>, layout: Layout, kids: Seq<PdfValue>, n: nat, left: nat)
    requires
        n <= kids.len(),
        pages_of_kids(bytes, layout, kids, n, left) is Ok,
    ensures
        pages_of_kids(bytes, layout, kids, n, left)->Ok_0 == kids.take(n as int).map_values(
            |kid: PdfValue| added_by(bytes, layout, kid, left),
        ).flatten(),
        forall|k: int|
            0 <= k < n ==> (#[trigger] kids[k] matches PdfValue::IndirectRef { obj_num, .. }
                ==> pages_below(bytes, layout, obj_num, left) is Ok),
    decreases n,
{
    let gives = |kid: PdfValue| added_by(bytes, layout, kid, left);
    let parts = kids.take(n as int).map_values(gives);
    if n == 0 {
        assert(parts =~= Seq::empty());
        parts.lemma_flatten_and_flatten_alt_are_equivalent();
    } else {
        lemma_kids_add(bytes, layout, kids, (n - 1) as nat, left);
        let before = kids.take(n - 1).map_values(gives);
        assert(parts.drop_last() =~= before);
        assert(parts.last() == gives(kids[n - 1]));
        parts.lemma_flatten_and_flatten_alt_are_equivalent();
        before.lemma_flatten_and_flatten_alt_are_equivalent();
        let all = pages_of_kids(bytes, layout, kids, n, left)->Ok_0;
        let first = pages_of_kids(bytes, layout, kids, (n - 1) as nat, left)->Ok_0;
        assert(all =~= first + gives(kids[n - 1]));
    }
}

/// A node with children has the pages of its children, one after the other, and
/// nothing else; a dictionary without children is a page itself.
pub proof fn law_a_node_has_the_pages_of_its_children(
    bytes: Seq<u8>,
    layout: Layout,
    node: nat,
    left: nat,
)
    requires
        pages_below(bytes, layout, node, left) is Ok,
        node <= u32::MAX,
    ensures
        ({
            let pages = pages_below(bytes, layout, node, left)->Ok_0;
            match kids_of(bytes, layout, node) {
                Some(kids) => left > 0 && pages == kids.map_values(
                    |kid: PdfValue| added_by(bytes, layout, kid, (left - 1) as nat),
                ).flatten(),
                None => pages.len() == 1 && pages[0] == node && is_leaf(bytes, layout, node),
            }
        }),
{
    if let Some(kids) = kids_of(bytes, layout, node) {
        lemma_kids_add(bytes, layout, kids, kids.len(), (left - 1) as nat);
        assert(kids.take(kids.len() as int) =~= kids);
    }
}

proof fn lemma_pages_are_leaves(bytes: Seq<u8>, layout: Layout, node: nat, left: nat, page: u32)
    requires
        pages_below(bytes, layout, node, left) is Ok,
        pages_below(bytes, layout, node, left)->Ok_0.contains(page),
        node <= u32::MAX,
    ensures
        is_leaf(bytes, layout, page as nat),
        lies_below(bytes, layout, node, page as nat),
    decreases left, 1nat, 0nat,
{
    match kids_of(bytes, layout, node) {
        Some(kids) => {
            lemma_kids_fit(bytes, layout, node);
            let child = lemma_kids_are_leaves(
                bytes,
                layout,
                kids,
                kids.len(),
                (left - 1) as nat,
                page,
            );
            let below = choose|path: Seq<nat>|
                #[trigger] leads_to(bytes, layout, path) && path.len() > 0 && path[0] == child
                    && path.last() == page;
            let path = seq![node] + below;
            assert forall|i: int| 0 <= i && i + 1 < path.len() implies (kids_of(
                bytes,
                layout,
                #[trigger] path[i],
            ) matches Some(kids) && names_child(kids, path[i + 1])) by {
                if i > 0 {
                    assert(path[i] == below[i - 1]);
                    assert(path[i + 1] == below[i - 1 + 1]);
                }
            }
            assert(leads_to(bytes, layout, path));
            assert(path.last() == page);
        },
        None => {
            let path = seq![node];
            assert(leads_to(bytes, layout, path));
            assert(path.last() == page);
        },
    }
}

proof fn lemma_kids_are_leaves(
    bytes: Seq<u8>,
    layout: Layout,
    kids: Seq<PdfValue>,
    n: nat,
    left: nat,
    page: u32,
) -> (child: nat)
    requires
        n <= kids.len(),
        items_fit(kids),
        pages_of_kids(bytes, layout, kids, n, left) is Ok,
        pages_of_kids(bytes, layout, kids, n, left)->Ok_0.contains(page),
    ensures
        names_child(kids, child),
        is_leaf(bytes, layout, page as nat),
        lies_below(bytes, layout, child, page as nat),
    decreases left, 2nat, n,
{
    assert(n > 0);
    let before = pages_of_kids(bytes, layout, kids, (n - 1) as nat, left)->Ok_0;
    let all = pages_of_kids(bytes, layout, kids, n, left)->Ok_0;
    if before.contains(page) {
        lemma_kids_are_leaves(bytes, layout, kids, (n - 1) as nat, left, page)
    } else {
        let k = choose|k: int| 0 <= k < all.len() && all[k] == page;
        match kids[n - 1] {
            PdfValue::IndirectRef { obj_num, gen_num } => {
                let below = pages_below(bytes, layout, obj_num, left)->Ok_0;
                if k < before.len() {
                    assert(before[k] == page);
                }
                assert(below[k - before.len()] == page);
                assert(names_child(kids, obj_num));
                lemma_pages_are_leaves(bytes, layout, obj_num, left, page);
                obj_num
            },
            _ => {
                assert(all == before);
                0
            },
        }
    }
}

/// The object that a catalog names as the root of its page tree.
pub open spec fn tree_root(catalog: Entries) -> nat {
    match reference_under(catalog, "Pages"@) {
        Some((number, _)) => number,
        None => 0,
    }
}

/// Every page of a document is a leaf of its page tree, to which a way of children
/// leads from the root.
pub proof fn law_pages_are_the_leaves_of_the_tree(
    bytes: Seq<u8>,
    layout: Layout,
    catalog: Entries,
    i: int,
)
    requires
        pages_of(bytes, layout, catalog) is Ok,
        0 <= i < pages_of(bytes, layout, catalog)->Ok_0.len(),
        tree_root(catalog) <= u32::MAX,
    ensures
        ({
            let page = pages_of(bytes, layout, catalog)->Ok_0[i] as nat;
            &&& is_leaf(bytes, layout, page)
            &&& lies_below(bytes, layout, tree_root(catalog), page)
        }),
{
    let pages = pages_of(bytes, layout, catalog)->Ok_0;
    let root = tree_root(catalog);
    assert(pages.contains(pages[i]));
    lemma_pages_are_leaves(
        bytes,
        layout,
        root,
        crate::pdfoutline::MAX_TREE_DEPTH as nat,
        pages[i],
    );
}

proof fn lemma_leaves_are_pages(
    bytes: Seq<u8>,
    layout: Layout,
    path: Seq<nat>,
    left: nat,
)
    requires
        leads_to(bytes, layout, path),
        path.len() > 0,
        is_leaf(bytes, layout, path.last()),
        path.last() <= u32::MAX,
        pages_below(bytes, layout, path[0], left) is Ok,
    ensures
        pages_below(bytes, layout, path[0], left)->Ok_0.contains(path.last() as u32),
    decreases path.len(),
{
    let pages = pages_below(bytes, layout, path[0], left)->Ok_0;
    if path.len() == 1 {
        assert(pages[0] == path.last() as u32);
    } else {
        let kids = kids_of(bytes, layout, path[0])->0;
        assert(names_child(kids, path[0int + 1]));
        let k = choose|k: int|
            0 <= k < kids.len() && (#[trigger] kids[k] matches PdfValue::IndirectRef {
                obj_num,
                ..
            } && obj_num == path[1]);
        let rest = path.drop_first();
        assert forall|i: int| 0 <= i && i + 1 < rest.len() implies (kids_of(
            bytes,
            layout,
            #[trigger] rest[i],
        ) matches Some(kids) && names_child(kids, rest[i + 1])) by {
            assert(rest[i] == path[i + 1]);
            assert(rest[i + 1] == path[i + 1 + 1]);
        }
        lemma_kids_add(bytes, layout, kids, kids.len(), (left - 1) as nat);
        assert(rest[0] == path[1] && rest.last() == path.last());
        lemma_leaves_are_pages(bytes, layout, rest, (left - 1) as nat);
        lemma_kid_adds(bytes, layout, kids, kids.len(), (left - 1) as nat, k, path.last() as u32);
    }
}

proof fn lemma_kid_adds(
    bytes: Seq<u8>,
    layout: Layout,
    kids: Seq<PdfValue>,
    n: nat,
    left: nat,
    k: int,
    page: u32,
)
    requires
        0 <= k < n <= kids.len(),
        pages_of_kids(bytes, layout, kids, n, left) is Ok,
        kids[k] is IndirectRef,
        added_by(bytes, layout, kids[k], left).contains(page),
    ensures
        pages_of_kids(bytes, layout, kids, n, left)->Ok_0.contains(page),
    decreases n,
{
    let before = pages_of_kids(bytes, layout, kids, (n - 1) as nat, left)->Ok_0;
    let all = pages_of_kids(bytes, layout, kids, n, left)->Ok_0;
    if k < n - 1 {
        lemma_kid_adds(bytes, layout, kids, (n - 1) as nat, left, k, page);
        let i = choose|i: int| 0 <= i < before.len() && before[i] == page;
        assert(all[i] == page);
    } else {
        let below = added_by(bytes, layout, kids[k], left);
        let i = choose|i: int| 0 <= i < below.len() && below[i] == page;
        assert(all == before + below);
        assert(all[before.len() + i] == page);
    }
}

/// Every leaf to which a way of children leads from the root is a page of the
/// document.
pub proof fn law_every_leaf_is_a_page(
    bytes: Seq<u8>,
    layout: Layout,
    catalog: Entries,
    page: u32,
)
    requires
        pages_of(bytes, layout, catalog) is Ok,
        is_leaf(bytes, layout, page as nat),
        lies_below(bytes, layout, tree_root(catalog), page as nat),
    ensures
        pages_of(bytes, layout, catalog)->Ok_0.contains(page),
{
    let root = tree_root(catalog);
    let path = choose|path: Seq<nat>|
        #[trigger] leads_to(bytes, layout, path) && path.len() > 0 && path[0] == root
            && path.last() == page;
    lemma_leaves_are_pages(bytes, layout, path, crate::pdfoutline::MAX_TREE_DEPTH as nat);
}

/// A bookmark that leads to a page of the document names the object of that page
/// in its destination; one that leads to a page that there is not names none.
pub proof fn law_a_bookmark_leads_to_its_page(page: usize, pages: Seq<u32>)
    ensures
        match lookup(target_entries(OutlineTarget::Page(page), pages), "Dest"@) {
            Some(PdfValue::Array(items)) => page < pages.len() && items.len() == 5 && items[0]
                == reference_to(pages[page as int] as nat) && items[1] == PdfValue::Name("XYZ"@)
                && items[2] == PdfValue::Null && items[3] == PdfValue::Null && items[4]
                == PdfValue::Null,
            Some(_) => false,
            None => page >= pages.len(),
        },
        lookup(target_entries(OutlineTarget::Page(page), pages), "A"@) is None,
{
    reveal_strlit("Dest");
    reveal_strlit("A");
    assert("Dest"@.len() != "A"@.len());
    reveal_with_fuel(entry_index, 3);
}

/// A bookmark for an address has an action that opens that address, and no place in
/// the document.
pub proof fn law_a_bookmark_opens_its_address(uri: String, pages: Seq<u32>)
    ensures
        ({
            let entries = target_entries(OutlineTarget::Uri(uri), pages);
            &&& lookup(entries, "Dest"@) is None
            &&& lookup(entries, "A"@) matches Some(PdfValue::Dictionary(action)) && lookup(
                action,
                "S"@,
            ) == Some(PdfValue::Name("URI"@)) && lookup(action, "URI"@) == Some(
                PdfValue::String(utf8(uri@)),
            )
        }),
{
    let action = seq![
        ("S"@, PdfValue::Name("URI"@)),
        ("URI"@, PdfValue::String(utf8(uri@))),
    ];
    let entries = seq![("A"@, PdfValue::Dictionary(action))];
    assert("S"@ != "URI"@ && "A"@ != "Dest"@) by {
        reveal_strlit("S");
        reveal_strlit("URI");
        reveal_strlit("A");
        reveal_strlit("Dest");
        assert("S"@.len() == 1 && "URI"@.len() == 3 && "A"@.len() == 1 && "Dest"@.len() == 4);
    }
    assert(action[0].0 == "S"@ && action[1].0 == "URI"@);
    lemma_entry_at(action, 0);
    lemma_entry_at(action, 1);
    lemma_entry_at(entries, 0);
    lemma_no_entry(entries, "Dest"@);
}

} // verus!
