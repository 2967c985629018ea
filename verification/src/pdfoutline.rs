//! Writing a tree of bookmarks into a PDF: an update with one object to the
//! bookmark, a new root, and the catalog pointing at it.

use crate::bytes::{text_bytes, utf8};
use crate::pdfread::dictionary::{entry, lookup, set_entry, with_entry, Entries};
use crate::pdfwrite::error::PdfWriteError;
use crate::pdfwrite::object::{
    entry_values, item_values, lemma_container_values, PdfObject, PdfValue,
};
use crate::pdfwrite::writer::{
    append_outcome, append_reason, numbered, open_error, open_outcome, AppendRefusal,
    IncrementalWriter, Numbered, OpenRefusal,
};
use crate::sign::appearance::reference_to;
use crate::sign::document::{
    catalog_of, dictionary_of, find_catalog_ref, find_generation, generation_of, layout_of,
    parse_object_dictionary, read_layout, DocumentLayout, Layout,
};
use crate::sign::refusal::{reports, Refusal, SignApplyError, VerifyError};
use crate::sign::revision::{fresh, in_order, order_objects};
use crate::text::{owned, push_str};
use std::collections::hash_map::DefaultHasher;
use std::hash::Hasher;
use vstd::bytes::{spec_u64_to_le_bytes, u64_to_le_bytes};
use vstd::prelude::*;
use vstd::std_specs::hash::DefaultHasherAdditionalSpecFns;

verus! {

/// Where a bookmark leads.
#[derive(Debug, Clone, PartialEq, Eq)]
pub enum OutlineTarget {
    /// A page, counted from zero.
    Page(usize),
    Uri(String),
}

/// A bookmark and those below it.
#[derive(Debug, PartialEq, Eq)]
pub struct OutlineEntry {
    pub title: String,
    pub target: OutlineTarget,
    pub depth: usize,
    pub children: Vec<OutlineEntry>,
}

/// A tree of bookmarks.
#[derive(Debug, PartialEq, Eq)]
pub struct Outline {
    pub entries: Vec<OutlineEntry>,
}

/// How many bookmarks there are among the first `n` of a level and below them.
pub open spec fn level_len(entries: Seq<OutlineEntry>, n: nat) -> nat
    decreases entries, n,
{
    if n == 0 || n > entries.len() {
        0
    } else {
        level_len(entries, (n - 1) as nat) + 1 + level_len(
            entries[n - 1].children@,
            entries[n - 1].children@.len(),
        )
    }
}

/// The object number of a bookmark: numbers are given in the order in which a
/// reader comes to them, a bookmark before those below it.
pub open spec fn number_of(entries: Seq<OutlineEntry>, i: int, first: nat) -> nat {
    first + level_len(entries, i as nat)
}

/// Entries, and one more.
pub open spec fn with_link(entries: Entries, key: Seq<char>, number: Option<nat>) -> Entries {
    match number {
        Some(found) => entries.push((key, reference_to(found))),
        None => entries,
    }
}

/// What says where a bookmark leads. A page that the document does not have is
/// left out, and the title stays.
pub open spec fn target_entries(target: OutlineTarget, pages: Seq<u32>) -> Entries {
    match target {
        OutlineTarget::Page(page) => if page < pages.len() {
            seq![
                (
                    "Dest"@,
                    PdfValue::Array(
                        seq![
                            reference_to(pages[page as int] as nat),
                            PdfValue::Name("XYZ"@),
                            PdfValue::Null,
                            PdfValue::Null,
                            PdfValue::Null,
                        ],
                    ),
                ),
            ]
        } else {
            Seq::empty()
        },
        OutlineTarget::Uri(uri) => seq![
            (
                "A"@,
                PdfValue::Dictionary(
                    seq![
                        ("S"@, PdfValue::Name("URI"@)),
                        ("URI"@, PdfValue::String(utf8(uri@))),
                    ],
                ),
            ),
        ],
    }
}

/// The entries that lead to the bookmarks below one, the first of which has the
/// number `first`.
pub open spec fn child_entries(children: Seq<OutlineEntry>, first: nat) -> Entries {
    if children.len() == 0 {
        Seq::empty()
    } else {
        seq![
            ("First"@, reference_to(first)),
            ("Last"@, reference_to(number_of(children, children.len() - 1, first))),
            ("Count"@, PdfValue::Integer(level_len(children, children.len()) as int)),
        ]
    }
}

/// One bookmark of a level: its title, the one above, its neighbours, those
/// below, and where it leads.
pub open spec fn item_entries(
    entries: Seq<OutlineEntry>,
    i: int,
    first: nat,
    parent: nat,
    pages: Seq<u32>,
) -> Entries {
    let start = seq![
        ("Title"@, PdfValue::String(utf8(entries[i].title@))),
        ("Parent"@, reference_to(parent)),
    ];
    with_link(
        with_link(
            start,
            "Prev"@,
            if i > 0 {
                Some(number_of(entries, i - 1, first))
            } else {
                None
            },
        ),
        "Next"@,
        if i + 1 < entries.len() {
            Some(number_of(entries, i + 1, first))
        } else {
            None
        },
    ) + child_entries(entries[i].children@, number_of(entries, i, first) + 1) + target_entries(
        entries[i].target,
        pages,
    )
}

/// The objects of the first `n` bookmarks of a level and of those below them.
/// The first of the level has the number `first`.
pub open spec fn level_objects(
    entries: Seq<OutlineEntry>,
    n: nat,
    first: nat,
    parent: nat,
    pages: Seq<u32>,
) -> Seq<Numbered>
    decreases entries, n,
{
    if n == 0 || n > entries.len() {
        Seq::empty()
    } else {
        let number = number_of(entries, n - 1, first);
        let children = entries[n - 1].children@;
        level_objects(entries, (n - 1) as nat, first, parent, pages).push(
            fresh(number, PdfValue::Dictionary(item_entries(entries, n - 1, first, parent, pages))),
        ) + level_objects(children, children.len(), number + 1, number, pages)
    }
}

/// Every bookmark has a number of its own: the numbers of a level and of what
/// is below it follow each other without a gap.
pub proof fn law_bookmarks_are_numbered_in_order(
    entries: Seq<OutlineEntry>,
    n: nat,
    first: nat,
    parent: nat,
    pages: Seq<u32>,
)
    requires
        n <= entries.len(),
        first + level_len(entries, n) <= u32::MAX,
    ensures
        level_objects(entries, n, first, parent, pages).len() == level_len(entries, n),
        forall|k: int|
            0 <= k < level_len(entries, n) ==> (#[trigger] level_objects(
                entries,
                n,
                first,
                parent,
                pages,
            )[k]).0 == first + k,
    decreases entries, n,
{
    if n > 0 {
        let number = number_of(entries, n - 1, first);
        let children = entries[n - 1].children@;
        law_bookmarks_are_numbered_in_order(entries, (n - 1) as nat, first, parent, pages);
        law_bookmarks_are_numbered_in_order(
            children,
            children.len(),
            number + 1,
            number,
            pages,
        );
    }
}

/// Counts the bookmarks of a level and of what is below it, if a reader can
/// count them.
fn count_level(entries: &[OutlineEntry]) -> (count: Option<u32>)
    ensures
        match count {
            Some(found) => found == level_len(entries@, entries@.len()),
            None => level_len(entries@, entries@.len()) > u32::MAX,
        },
    decreases entries@,
{
    let mut total: u32 = 0;
    let mut i: usize = 0;
    while i < entries.len()
        invariant
            i <= entries@.len(),
            total == level_len(entries@, i as nat),
        decreases entries@.len() - i,
    {
        proof {
            assert(decreases_to!(entries@ => entries@[i as int]));
            assert(decreases_to!(entries@[i as int] => entries@[i as int].children));
            assert(decreases_to!(entries@[i as int].children => entries@[i as int].children@));
            lemma_level_grows(entries@, (i + 1) as nat, entries@.len());
        }
        let below = match count_level(entries[i].children.as_slice()) {
            Some(below) => below,
            None => return None,
        };
        match total.checked_add(below) {
            Some(sum) => {
                if sum == u32::MAX {
                    return None;
                }
                total = sum + 1;
            },
            None => return None,
        }
        i += 1;
    }
    Some(total)
}

pub proof fn lemma_level_grows(entries: Seq<OutlineEntry>, i: nat, n: nat)
    requires
        i <= n <= entries.len(),
    ensures
        level_len(entries, i) <= level_len(entries, n),
    decreases n - i,
{
    if i < n {
        lemma_level_grows(entries, i, (n - 1) as nat);
    }
}

fn counted(entries: &[OutlineEntry]) -> (count: u32)
    requires
        level_len(entries@, entries@.len()) <= u32::MAX,
    ensures
        count == level_len(entries@, entries@.len()),
{
    match count_level(entries) {
        Some(count) => count,
        None => 0,
    }
}

fn push_entry(entries: &mut Vec<(String, PdfObject)>, key: &str, value: PdfObject)
    ensures
        entry_values(final(entries)@) == entry_values(old(entries)@).push((key@, value@)),
{
    let ghost before = entry_values(entries@);
    entries.push((owned(key), value));
    assert(entry_values(entries@) =~= before.push((key@, value@)));
}

fn reference(obj_num: u32) -> (object: PdfObject)
    ensures
        object@ == reference_to(obj_num as nat),
{
    PdfObject::IndirectRef { obj_num, gen_num: 0 }
}

fn push_target(item: &mut Vec<(String, PdfObject)>, target: &OutlineTarget, pages: &[u32])
    ensures
        entry_values(final(item)@) == entry_values(old(item)@) + target_entries(*target, pages@),
{
    let ghost before = entry_values(item@);
    match target {
        OutlineTarget::Page(page) => {
            if *page < pages.len() {
                let mut place: Vec<PdfObject> = Vec::new();
                place.push(reference(pages[*page]));
                place.push(PdfObject::Name(owned("XYZ")));
                place.push(PdfObject::Null);
                place.push(PdfObject::Null);
                place.push(PdfObject::Null);
                let destination = PdfObject::Array(place);
                proof {
                    lemma_container_values(destination);
                    assert(item_values(place@) =~= seq![
                        reference_to(pages@[*page as int] as nat),
                        PdfValue::Name("XYZ"@),
                        PdfValue::Null,
                        PdfValue::Null,
                        PdfValue::Null,
                    ]);
                }
                push_entry(item, "Dest", destination);
            }
        },
        OutlineTarget::Uri(uri) => {
            let mut entries: Vec<(String, PdfObject)> = Vec::new();
            entries.push((owned("S"), PdfObject::Name(owned("URI"))));
            entries.push((owned("URI"), PdfObject::String(text_bytes(uri.as_str()))));
            let action = PdfObject::Dictionary(entries);
            proof {
                lemma_container_values(action);
                assert(entry_values(entries@) =~= seq![
                    ("S"@, PdfValue::Name("URI"@)),
                    ("URI"@, PdfValue::String(utf8(uri@))),
                ]);
            }
            push_entry(item, "A", action);
        },
    }
    assert(entry_values(item@) =~= before + target_entries(*target, pages@));
}

fn push_children(item: &mut Vec<(String, PdfObject)>, children: &[OutlineEntry], number: u32, below: u32)
    requires
        below == level_len(children@, children@.len()),
        number + below <= u32::MAX,
    ensures
        entry_values(final(item)@) == entry_values(old(item)@) + child_entries(
            children@,
            (number + 1) as nat,
        ),
{
    let ghost before = entry_values(item@);
    if children.len() > 0 {
        let count: usize = children.len();
        let last_below: u32 = counted(children[count - 1].children.as_slice());
        let first: u32 = number + 1;
        let last: u32 = number + (below - last_below);
        push_entry(item, "First", reference(first));
        push_entry(item, "Last", reference(last));
        push_entry(item, "Count", PdfObject::Integer(below as i64));
    }
    assert(entry_values(item@) =~= before + child_entries(children@, (number + 1) as nat));
}

/// Builds the objects of one level of bookmarks and of what is below it. The
/// first of the level gets the number `first`.
fn emit_level(
    objects: &mut Vec<(u32, u16, PdfObject)>,
    entries: &[OutlineEntry],
    first: u32,
    parent: u32,
    pages: &[u32],
)
    requires
        first + level_len(entries@, entries@.len()) <= u32::MAX,
    ensures
        numbered(final(objects)@) == numbered(old(objects)@) + level_objects(
            entries@,
            entries@.len(),
            first as nat,
            parent as nat,
            pages@,
        ),
    decreases entries@,
{
    let ghost before = numbered(objects@);
    let ghost all = entries@;
    let mut number: u32 = first;
    let mut previous: u32 = first;
    let mut i: usize = 0;
    assert(before + level_objects(all, 0, first as nat, parent as nat, pages@) =~= before);
    while i < entries.len()
        invariant
            i <= entries@.len(),
            all == entries@,
            first + level_len(all, all.len()) <= u32::MAX,
            number == number_of(all, i as int, first as nat),
            i > 0 ==> previous == number_of(all, i - 1, first as nat),
            numbered(objects@) == before + level_objects(
                all,
                i as nat,
                first as nat,
                parent as nat,
                pages@,
            ),
        decreases entries@.len() - i,
    {
        let ghost so_far = numbered(objects@);
        let ghost children = all[i as int].children@;
        proof {
            lemma_level_grows(all, i as nat, all.len());
            lemma_level_grows(all, (i + 1) as nat, all.len());
            assert(decreases_to!(entries@ => entries@[i as int]));
            assert(decreases_to!(entries@[i as int] => entries@[i as int].children));
            assert(decreases_to!(entries@[i as int].children => entries@[i as int].children@));
        }
        let below: u32 = counted(entries[i].children.as_slice());
        let mut item: Vec<(String, PdfObject)> = Vec::new();
        assert(entry_values(item@) =~= Seq::empty());
        push_entry(
            &mut item,
            "Title",
            PdfObject::String(text_bytes(entries[i].title.as_str())),
        );
        push_entry(&mut item, "Parent", reference(parent));
        proof {
            assert(entry_values(item@) =~= seq![
                ("Title"@, PdfValue::String(utf8(all[i as int].title@))),
                ("Parent"@, reference_to(parent as nat)),
            ]);
        }
        if i > 0 {
            push_entry(&mut item, "Prev", reference(previous));
        }
        if i + 1 < entries.len() {
            proof {
                lemma_level_grows(all, (i + 2) as nat, all.len());
            }
            push_entry(&mut item, "Next", reference(number + 1 + below));
        }
        push_children(&mut item, entries[i].children.as_slice(), number, below);
        push_target(&mut item, &entries[i].target, pages);
        let object = PdfObject::Dictionary(item);
        proof {
            lemma_container_values(object);
        }
        let ghost value = fresh(number as nat, object@);
        objects.push((number, 0, object));
        assert(numbered(objects@) =~= so_far.push(value));
        emit_level(objects, entries[i].children.as_slice(), number + 1, number, pages);
        proof {
            assert(numbered(objects@) =~= before + level_objects(
                all,
                (i + 1) as nat,
                first as nat,
                parent as nat,
                pages@,
            ));
        }
        previous = number;
        number = number + 1 + below;
        i += 1;
    }
}

/// How deep a page may lie in the page tree.
pub const MAX_TREE_DEPTH: usize = 64;

/// The pages below a node of the page tree, from left to right, where the tree
/// may be `left` levels deep. A node without an array of children is a page;
/// children that are no references are left out.
pub open spec fn pages_below(bytes: Seq<u8>, layout: Layout, node: nat, left: nat) -> Result<
    Seq<u32>,
    Refusal,
>
    decreases left, 1nat, 0nat,
{
    if left == 0 {
        Err(Refusal::PageTreeTooDeep)
    } else {
        match dictionary_of(bytes, layout, node) {
            Err(refusal) => Err(refusal),
            Ok(entries) => match lookup(entries, "Kids"@) {
                Some(PdfValue::Array(kids)) => pages_of_kids(
                    bytes,
                    layout,
                    kids,
                    kids.len(),
                    (left - 1) as nat,
                ),
                _ => Ok(seq![node as u32]),
            },
        }
    }
}

/// The pages below the first `n` children of a node.
pub open spec fn pages_of_kids(
    bytes: Seq<u8>,
    layout: Layout,
    kids: Seq<PdfValue>,
    n: nat,
    left: nat,
) -> Result<Seq<u32>, Refusal>
    decreases left, 2nat, n,
{
    if n == 0 || n > kids.len() {
        Ok(Seq::empty())
    } else {
        match pages_of_kids(bytes, layout, kids, (n - 1) as nat, left) {
            Err(refusal) => Err(refusal),
            Ok(before) => match kids[n - 1] {
                PdfValue::IndirectRef { obj_num, .. } => match pages_below(
                    bytes,
                    layout,
                    obj_num,
                    left,
                ) {
                    Err(refusal) => Err(refusal),
                    Ok(below) => Ok(before + below),
                },
                _ => Ok(before),
            },
        }
    }
}

/// Pages that were found, or how the refusal is reported.
pub open spec fn gives_pages(
    result: Result<Vec<u32>, SignApplyError>,
    outcome: Result<Seq<u32>, Refusal>,
) -> bool {
    match outcome {
        Ok(pages) => result matches Ok(found) && found@ == pages,
        Err(refusal) => result matches Err(error) && reports(error, refusal),
    }
}

fn push_pages(out: &mut Vec<u32>, pages: &[u32])
    ensures
        final(out)@ == old(out)@ + pages@,
{
    let ghost before = out@;
    let mut i: usize = 0;
    while i < pages.len()
        invariant
            i <= pages@.len(),
            out@ =~= before + pages@.take(i as int),
        decreases pages@.len() - i,
    {
        out.push(pages[i]);
        i += 1;
    }
    assert(pages@.take(i as int) =~= pages@);
}

fn walk_node(bytes: &[u8], layout: &DocumentLayout, node: u32, left: usize) -> (pages: Result<
    Vec<u32>,
    SignApplyError,
>)
    ensures
        gives_pages(pages, pages_below(bytes@, layout@, node as nat, left as nat)),
    decreases left,
{
    if left == 0 {
        return Err(
            crate::sign::refusal::unsupported(
                "the page tree is deeper than 64 levels or contains a cycle",
            ),
        );
    }
    let entries = match parse_object_dictionary(bytes, layout, node) {
        Ok(entries) => entries,
        Err(error) => return Err(error),
    };
    let mut pages: Vec<u32> = Vec::new();
    let kids = match entry(entries.as_slice(), "Kids") {
        Some(object) => {
            proof {
                lemma_container_values(*object);
            }
            match object {
                PdfObject::Array(kids) => kids,
                _ => {
                    pages.push(node);
                    assert(pages@ =~= seq![node]);
                    return Ok(pages);
                },
            }
        },
        None => {
            pages.push(node);
            assert(pages@ =~= seq![node]);
            return Ok(pages);
        },
    };
    let ghost values = item_values(kids@);
    let ghost outcome = pages_below(bytes@, layout@, node as nat, left as nat);
    assert(outcome == pages_of_kids(
        bytes@,
        layout@,
        values,
        values.len(),
        (left - 1) as nat,
    ));
    assert(pages@ =~= Seq::<u32>::empty());
    let mut i: usize = 0;
    while i < kids.len()
        invariant
            i <= kids@.len(),
            0 < left,
            values == item_values(kids@),
            outcome == pages_below(bytes@, layout@, node as nat, left as nat),
            outcome == pages_of_kids(bytes@, layout@, values, values.len(), (left - 1) as nat),
            pages_of_kids(bytes@, layout@, values, i as nat, (left - 1) as nat) == Ok::<
                Seq<u32>,
                Refusal,
            >(pages@),
        decreases kids@.len() - i,
    {
        let ghost before = pages@;
        assert(values[i as int] == kids@[i as int]@);
        if let PdfObject::IndirectRef { obj_num, .. } = &kids[i] {
            match walk_node(bytes, layout, *obj_num, left - 1) {
                Ok(below) => {
                    push_pages(&mut pages, below.as_slice());
                },
                Err(error) => {
                    proof {
                        let refusal = pages_below(
                            bytes@,
                            layout@,
                            *obj_num as nat,
                            (left - 1) as nat,
                        )->Err_0;
                        lemma_kids_refusal(
                            bytes@,
                            layout@,
                            values,
                            (i + 1) as nat,
                            values.len(),
                            (left - 1) as nat,
                            refusal,
                        );
                    }
                    return Err(error);
                },
            }
        }
        i += 1;
    }
    Ok(pages)
}

proof fn lemma_kids_refusal(
    bytes: Seq<u8>,
    layout: Layout,
    kids: Seq<PdfValue>,
    i: nat,
    n: nat,
    left: nat,
    refusal: Refusal,
)
    requires
        0 < i <= n <= kids.len(),
        pages_of_kids(bytes, layout, kids, i, left) == Err::<Seq<u32>, Refusal>(refusal),
    ensures
        pages_of_kids(bytes, layout, kids, n, left) == Err::<Seq<u32>, Refusal>(refusal),
    decreases n - i,
{
    if i < n {
        lemma_kids_refusal(bytes, layout, kids, i, (n - 1) as nat, left, refusal);
    }
}

/// The pages of a document in their order.
pub open spec fn pages_of(bytes: Seq<u8>, layout: Layout, catalog: Entries) -> Result<
    Seq<u32>,
    Refusal,
> {
    match crate::pdfwrite::writer::reference_under(catalog, "Pages"@) {
        Some((node, _)) => pages_below(bytes, layout, node, MAX_TREE_DEPTH as nat),
        None => Err(Refusal::NoPageTree),
    }
}

/// Finds the pages of a document in their order.
pub fn page_objects(bytes: &[u8], layout: &DocumentLayout, catalog: &[(String, PdfObject)]) -> (pages:
    Result<Vec<u32>, SignApplyError>)
    ensures
        gives_pages(pages, pages_of(bytes@, layout@, entry_values(catalog@))),
{
    match crate::pdfwrite::writer::reference_entry(catalog, "Pages") {
        Some((node, _)) => walk_node(bytes, layout, node, MAX_TREE_DEPTH),
        None => Err(
            crate::sign::refusal::unsupported("the catalog has no indirect /Pages tree"),
        ),
    }
}

/// Why bookmarks could not be written. Nothing was written then.
#[derive(Debug, PartialEq, Eq)]
pub enum OutlineWriteError {
    /// Objects that are not encrypted cannot be added to a file that is.
    Encrypted,
    Parse(String),
    Write(PdfWriteError),
}

impl OutlineWriteError {
    /// The error as a sentence.
    pub open spec fn sentence(self) -> Seq<char> {
        match self {
            OutlineWriteError::Encrypted =>
                "the document is encrypted; its bookmarks cannot be rewritten"@,
            OutlineWriteError::Parse(reason) => "the document could not be parsed: "@ + reason@,
            OutlineWriteError::Write(error) => error.sentence(),
        }
    }

    /// The error as a sentence.
    pub fn message(&self) -> (text: String)
        ensures
            text@ == self.sentence(),
    {
        match self {
            OutlineWriteError::Encrypted => owned(
                "the document is encrypted; its bookmarks cannot be rewritten",
            ),
            OutlineWriteError::Parse(reason) => {
                let mut text = owned("the document could not be parsed: ");
                push_str(&mut text, reason.as_str());
                text
            },
            OutlineWriteError::Write(error) => error.message(),
        }
    }
}

/// Why bookmarks cannot be written, each reason by what decided it.
pub enum OutlineRefusal {
    Encrypted,
    Structure(Refusal),
    Open(OpenRefusal),
    Append(AppendRefusal),
    /// There are more bookmarks than object numbers.
    NoNumbersLeft,
}

/// Is this how a refusal is reported?
pub open spec fn reports_outline(error: OutlineWriteError, refusal: OutlineRefusal) -> bool {
    match refusal {
        OutlineRefusal::Encrypted => error is Encrypted,
        OutlineRefusal::Structure(found) => error matches OutlineWriteError::Parse(text)
            && exists|inner: SignApplyError|
            reports(inner, found) && text@ == #[trigger] inner.sentence(),
        OutlineRefusal::Open(found) => error matches OutlineWriteError::Write(inner)
            && open_error(found, inner),
        OutlineRefusal::Append(found) =>
            error matches OutlineWriteError::Write(PdfWriteError::Unsupported(reason)) && reason@
            == append_reason(found),
        OutlineRefusal::NoNumbersLeft =>
            error matches OutlineWriteError::Write(PdfWriteError::Unsupported(reason)) && reason@
            == "the document has no object numbers left"@,
    }
}

/// The objects of a tree of bookmarks: the bookmarks, their root, which has the
/// number `root`, and the catalog, which keeps its number and generation.
pub open spec fn outline_objects(
    entries: Seq<OutlineEntry>,
    root: nat,
    pages: Seq<u32>,
    catalog: (nat, nat),
    catalog_entries: Entries,
) -> Seq<Numbered> {
    level_objects(entries, entries.len(), root + 1, root, pages).push(
        fresh(
            root,
            PdfValue::Dictionary(
                seq![("Type"@, PdfValue::Name("Outlines"@))] + child_entries(entries, root + 1),
            ),
        ),
    ).push(
        (
            catalog.0 as u32,
            catalog.1 as u16,
            PdfValue::Dictionary(
                with_entry(catalog_entries, "Outlines"@, reference_to(root)),
            ),
        ),
    )
}

/// A document whose bookmarks are these, or why there is none.
pub open spec fn outline_outcome(bytes: Seq<u8>, entries: Seq<OutlineEntry>, id2: Seq<u8>) -> Result<
    Seq<u8>,
    OutlineRefusal,
> {
    if layout_of(bytes) is Some && layout_of(bytes)->0.encrypted {
        Err(OutlineRefusal::Encrypted)
    } else {
        match open_outcome(bytes) {
            Err(refusal) => Err(OutlineRefusal::Open(refusal)),
            Ok(file) => match outline_parts(bytes) {
                Err(refusal) => Err(OutlineRefusal::Structure(refusal)),
                Ok((catalog, catalog_entries, pages)) => {
                    let root = file.next_object_number;
                    if root + level_len(entries, entries.len()) + 1 > u32::MAX {
                        Err(OutlineRefusal::NoNumbersLeft)
                    } else {
                        let objects = outline_objects(
                            entries,
                            root,
                            pages,
                            catalog,
                            catalog_entries,
                        );
                        match append_outcome(file, 0, in_order(objects, objects.len()), id2) {
                            Err(refusal) => Err(OutlineRefusal::Append(refusal)),
                            Ok((output, _)) => Ok(output),
                        }
                    }
                },
            },
        }
    }
}

/// What of a document its bookmarks need: the number and the generation of the
/// catalog, its entries, and the pages.
pub open spec fn outline_parts(bytes: Seq<u8>) -> Result<
    ((nat, nat), Entries, Seq<u32>),
    Refusal,
> {
    match layout_of(bytes) {
        None => Err(Refusal::Structure(VerifyError::NoCrossReferences)),
        Some(layout) => match catalog_of(layout) {
            Err(refusal) => Err(refusal),
            Ok(catalog) => match dictionary_of(bytes, layout, catalog) {
                Err(refusal) => Err(refusal),
                Ok(entries) => match pages_of(bytes, layout, entries) {
                    Err(refusal) => Err(refusal),
                    Ok(pages) => Ok(
                        ((catalog, generation_of(bytes, layout, catalog)), entries, pages),
                    ),
                },
            },
        },
    }
}

/// Bookmarks are only ever appended: every byte of the document stays where it
/// was.
pub proof fn law_bookmarks_keep_the_document(
    bytes: Seq<u8>,
    entries: Seq<OutlineEntry>,
    id2: Seq<u8>,
)
    ensures
        outline_outcome(bytes, entries, id2) matches Ok(output) ==> {
            &&& output.len() >= bytes.len()
            &&& output.take(bytes.len() as int) == bytes
        },
{
    if let Ok(output) = outline_outcome(bytes, entries, id2) {
        let file = open_outcome(bytes)->Ok_0;
        let (catalog, catalog_entries, pages) = outline_parts(bytes)->Ok_0;
        let objects = outline_objects(
            entries,
            file.next_object_number,
            pages,
            catalog,
            catalog_entries,
        );
        crate::pdfwrite::laws::law_update_keeps_the_file(
            file,
            0,
            in_order(objects, objects.len()),
            id2,
        );
    }
}

fn parse_error(error: SignApplyError) -> (reported: OutlineWriteError)
    ensures
        forall|refusal: Refusal|
            reports(error, refusal) ==> #[trigger] reports_outline(
                reported,
                OutlineRefusal::Structure(refusal),
            ),
{
    let text = error.message();
    proof {
        assert(text@ == error.sentence());
    }
    OutlineWriteError::Parse(text)
}

fn read_parts(bytes: &[u8]) -> (parts: Result<
    ((u32, u16), Vec<(String, PdfObject)>, Vec<u32>),
    SignApplyError,
>)
    ensures
        match outline_parts(bytes@) {
            Ok((catalog, entries, pages)) => parts matches Ok((held, found, list)) && held.0
                == catalog.0 && held.1 == catalog.1 && entry_values(found@) == entries && list@ == pages,
            Err(refusal) => parts matches Err(error) && reports(error, refusal),
        },
{
    let layout = match read_layout(bytes) {
        Ok(layout) => layout,
        Err(error) => return Err(error),
    };
    let catalog = match find_catalog_ref(&layout) {
        Ok(catalog) => catalog,
        Err(error) => return Err(error),
    };
    let entries = match parse_object_dictionary(bytes, &layout, catalog) {
        Ok(entries) => entries,
        Err(error) => return Err(error),
    };
    let pages = match page_objects(bytes, &layout, entries.as_slice()) {
        Ok(pages) => pages,
        Err(error) => return Err(error),
    };
    let generation = find_generation(bytes, &layout, catalog);
    Ok(((catalog, generation), entries, pages))
}

fn build_objects(
    entries: &[OutlineEntry],
    root: u32,
    below: u32,
    pages: &[u32],
    catalog: (u32, u16),
    catalog_entries: Vec<(String, PdfObject)>,
) -> (objects: Vec<(u32, u16, PdfObject)>)
    requires
        below == level_len(entries@, entries@.len()),
        root + below + 1 <= u32::MAX,
    ensures
        numbered(objects@) == outline_objects(
            entries@,
            root as nat,
            pages@,
            (catalog.0 as nat, catalog.1 as nat),
            entry_values(catalog_entries@),
        ),
        objects@.len() == below + 2,
{
    let mut catalog_entries = catalog_entries;
    let mut objects: Vec<(u32, u16, PdfObject)> = Vec::new();
    assert(numbered(objects@) =~= Seq::empty());
    emit_level(&mut objects, entries, root + 1, root, pages);
    let ghost items = level_objects(
        entries@,
        entries@.len(),
        (root + 1) as nat,
        root as nat,
        pages@,
    );
    proof {
        assert(numbered(objects@) =~= items);
        law_bookmarks_are_numbered_in_order(
            entries@,
            entries@.len(),
            (root + 1) as nat,
            root as nat,
            pages@,
        );
    }
    let mut root_entries: Vec<(String, PdfObject)> = Vec::new();
    assert(entry_values(root_entries@) =~= Seq::empty());
    push_entry(&mut root_entries, "Type", PdfObject::Name(owned("Outlines")));
    assert(entry_values(root_entries@) =~= seq![("Type"@, PdfValue::Name("Outlines"@))]);
    push_children(&mut root_entries, entries, root, below);
    let root_object = PdfObject::Dictionary(root_entries);
    proof {
        lemma_container_values(root_object);
    }
    let ghost root_value = fresh(root as nat, root_object@);
    objects.push((root, 0, root_object));
    assert(numbered(objects@) =~= items.push(root_value));
    set_entry(&mut catalog_entries, "Outlines", reference(root));
    let catalog_object = PdfObject::Dictionary(catalog_entries);
    proof {
        lemma_container_values(catalog_object);
    }
    let ghost catalog_value = (catalog.0, catalog.1, catalog_object@);
    objects.push((catalog.0, catalog.1, catalog_object));
    assert(numbered(objects@) =~= items.push(root_value).push(catalog_value));
    objects
}

/// Appends objects in the order of their numbers.
fn append_ordered(
    writer: IncrementalWriter,
    objects: Vec<(u32, u16, PdfObject)>,
    id2: &[u8],
) -> (updated: Result<Vec<u8>, OutlineWriteError>)
    ensures
        match append_outcome(
            writer@,
            0,
            in_order(numbered(objects@), objects@.len()),
            id2@,
        ) {
            Ok((output, _)) => updated matches Ok(found) && found@ == output,
            Err(refusal) => updated matches Err(error) && reports_outline(
                error,
                OutlineRefusal::Append(refusal),
            ),
        },
{
    let ordered = order_objects(objects);
    let mut output: Vec<u8> = Vec::new();
    let ghost empty = output@;
    let ghost file = writer@;
    match writer.append_objects(&mut output, ordered.as_slice(), id2) {
        Ok(_) => {
            proof {
                let done = append_outcome(file, 0, numbered(ordered@), id2@)->Ok_0.0;
                assert(output@ == empty + done);
                assert(output@ =~= done);
            }
            Ok(output)
        },
        Err(error) => Err(OutlineWriteError::Write(error)),
    }
}

/// Appends an update that makes these the bookmarks of a document. `id2` is the
/// second half of the identifier that the trailer gets.
pub fn with_outline_and_id(bytes: &[u8], outline: &Outline, id2: &[u8]) -> (updated: Result<
    Vec<u8>,
    OutlineWriteError,
>)
    ensures
        match outline_outcome(bytes@, outline.entries@, id2@) {
            Ok(output) => updated matches Ok(found) && found@ == output,
            Err(refusal) => updated matches Err(error) && reports_outline(error, refusal),
        },
{
    if let Ok(layout) = read_layout(bytes) {
        if layout.encrypted {
            return Err(OutlineWriteError::Encrypted);
        }
    }
    let writer = match IncrementalWriter::open(bytes) {
        Ok(writer) => writer,
        Err(error) => return Err(OutlineWriteError::Write(error)),
    };
    let (catalog, catalog_entries, pages) = match read_parts(bytes) {
        Ok(parts) => parts,
        Err(error) => {
            let reported = parse_error(error);
            assert(reports_outline(
                reported,
                OutlineRefusal::Structure(outline_parts(bytes@)->Err_0),
            ));
            return Err(reported);
        },
    };
    let root: u32 = writer.next_object_number();
    let below: u32 = match count_level(outline.entries.as_slice()) {
        Some(below) if root as u64 + below as u64 + 1 <= u32::MAX as u64 => below,
        _ => return Err(
            OutlineWriteError::Write(
                PdfWriteError::Unsupported(owned("the document has no object numbers left")),
            ),
        ),
    };
    let objects = build_objects(
        outline.entries.as_slice(),
        root,
        below,
        pages.as_slice(),
        catalog,
        catalog_entries,
    );
    append_ordered(writer, objects, id2)
}

/// What of a bookmark goes into an identifier: its title, its depth, and the
/// page that it leads to, or the highest number where it leads to none.
pub type Mark = (Seq<char>, usize, usize);

/// The page that a bookmark leads to, or the highest number.
pub open spec fn marked_page(target: OutlineTarget) -> usize {
    match target {
        OutlineTarget::Page(page) => page,
        OutlineTarget::Uri(_) => usize::MAX,
    }
}

/// The first `n` bookmarks of a level and those below them, in the order in
/// which a reader comes to them.
pub open spec fn flattened(entries: Seq<OutlineEntry>, n: nat) -> Seq<Mark>
    decreases entries, n,
{
    if n == 0 || n > entries.len() {
        Seq::empty()
    } else {
        let entry = entries[n - 1];
        flattened(entries, (n - 1) as nat).push(
            (entry.title@, entry.depth, marked_page(entry.target)),
        ) + flattened(entry.children@, entry.children@.len())
    }
}

/// Marks, each by its value.
pub open spec fn mark_views(marks: Seq<(String, usize, usize)>) -> Seq<Mark> {
    Seq::new(marks.len(), |i: int| (marks[i].0@, marks[i].1, marks[i].2))
}

fn flatten(marks: &mut Vec<(String, usize, usize)>, entries: &[OutlineEntry])
    ensures
        mark_views(final(marks)@) == mark_views(old(marks)@) + flattened(
            entries@,
            entries@.len(),
        ),
    decreases entries@,
{
    let ghost before = mark_views(marks@);
    assert(before + flattened(entries@, 0) =~= before);
    let mut i: usize = 0;
    while i < entries.len()
        invariant
            i <= entries@.len(),
            mark_views(marks@) == before + flattened(entries@, i as nat),
        decreases entries@.len() - i,
    {
        proof {
            assert(decreases_to!(entries@ => entries@[i as int]));
            assert(decreases_to!(entries@[i as int] => entries@[i as int].children));
            assert(decreases_to!(entries@[i as int].children => entries@[i as int].children@));
        }
        let ghost so_far = mark_views(marks@);
        let page: usize = match &entries[i].target {
            OutlineTarget::Page(page) => *page,
            OutlineTarget::Uri(_) => usize::MAX,
        };
        marks.push((owned(entries[i].title.as_str()), entries[i].depth, page));
        assert(mark_views(marks@) =~= so_far.push(
            (entries@[i as int].title@, entries@[i as int].depth, page),
        ));
        flatten(marks, entries[i].children.as_slice());
        i += 1;
        assert(mark_views(marks@) =~= before + flattened(entries@, i as nat));
    }
}

/// What a hash is taken of, piece by piece: a salt, the length and the bytes of
/// a document, and for each of the first `n` bookmarks its title with a byte
/// behind it that no text holds, its depth and its page.
pub open spec fn hashed(salt: u64, bytes: Seq<u8>, marks: Seq<Mark>, n: nat) -> Seq<Seq<u8>>
    decreases n,
{
    if n == 0 || n > marks.len() {
        seq![spec_u64_to_le_bytes(salt), spec_u64_to_le_bytes(bytes.len() as u64), bytes]
    } else {
        let mark = marks[n - 1];
        hashed(salt, bytes, marks, (n - 1) as nat) + seq![
            utf8(mark.0),
            seq![0xFFu8],
            spec_u64_to_le_bytes(mark.1 as u64),
            spec_u64_to_le_bytes(mark.2 as u64),
        ]
    }
}

fn content_hash(salt: u64, bytes: &[u8], marks: &[(String, usize, usize)]) -> (hash: u64)
    ensures
        hash == DefaultHasher::spec_finish(
            hashed(salt, bytes@, mark_views(marks@), marks@.len()),
        ),
{
    let ghost views = mark_views(marks@);
    let mut hasher = DefaultHasher::new();
    hasher.write(u64_to_le_bytes(salt).as_slice());
    hasher.write(u64_to_le_bytes(bytes.len() as u64).as_slice());
    hasher.write(bytes);
    assert(hasher@ =~= hashed(salt, bytes@, views, 0));
    let end: Vec<u8> = vec![0xFFu8];
    assert(end@ =~= seq![0xFFu8]);
    let mut i: usize = 0;
    while i < marks.len()
        invariant
            i <= marks@.len(),
            views == mark_views(marks@),
            end@ == seq![0xFFu8],
            hasher@ == hashed(salt, bytes@, views, i as nat),
        decreases marks@.len() - i,
    {
        hasher.write(marks[i].0.as_str().as_bytes());
        hasher.write(end.as_slice());
        hasher.write(u64_to_le_bytes(marks[i].1 as u64).as_slice());
        hasher.write(u64_to_le_bytes(marks[i].2 as u64).as_slice());
        i += 1;
        assert(hasher@ =~= hashed(salt, bytes@, views, i as nat));
    }
    hasher.finish()
}

/// The bytes of a number, the highest first.
pub open spec fn big_endian(n: u64) -> Seq<u8> {
    seq![
        (n / 0x100_0000_0000_0000) as u8,
        (n / 0x1_0000_0000_0000 % 256) as u8,
        (n / 0x100_0000_0000 % 256) as u8,
        (n / 0x1_0000_0000 % 256) as u8,
        (n / 0x100_0000 % 256) as u8,
        (n / 0x1_0000 % 256) as u8,
        (n / 0x100 % 256) as u8,
        (n % 256) as u8,
    ]
}

fn push_number(out: &mut Vec<u8>, n: u64)
    ensures
        final(out)@ == old(out)@ + big_endian(n),
{
    let ghost before = out@;
    out.push((n / 0x100_0000_0000_0000) as u8);
    out.push((n / 0x1_0000_0000_0000 % 256) as u8);
    out.push((n / 0x100_0000_0000 % 256) as u8);
    out.push((n / 0x1_0000_0000 % 256) as u8);
    out.push((n / 0x100_0000 % 256) as u8);
    out.push((n / 0x1_0000 % 256) as u8);
    out.push((n / 0x100 % 256) as u8);
    out.push((n % 256) as u8);
    assert(out@ =~= before + big_endian(n));
}

/// The second half of the identifier of an update, made from what is written
/// rather than drawn at random: two hashes of the document and its bookmarks.
pub open spec fn outline_id(bytes: Seq<u8>, entries: Seq<OutlineEntry>) -> Seq<u8> {
    let marks = flattened(entries, entries.len());
    big_endian(DefaultHasher::spec_finish(hashed(0, bytes, marks, marks.len()))) + big_endian(
        DefaultHasher::spec_finish(hashed(1, bytes, marks, marks.len())),
    )
}

fn content_id(bytes: &[u8], outline: &Outline) -> (id: Vec<u8>)
    ensures
        id@ == outline_id(bytes@, outline.entries@),
{
    let mut marks: Vec<(String, usize, usize)> = Vec::new();
    assert(mark_views(marks@) =~= Seq::empty());
    flatten(&mut marks, outline.entries.as_slice());
    assert(mark_views(marks@) =~= flattened(outline.entries@, outline.entries@.len()));
    let mut id: Vec<u8> = Vec::new();
    push_number(&mut id, content_hash(0, bytes, marks.as_slice()));
    push_number(&mut id, content_hash(1, bytes, marks.as_slice()));
    assert(id@ =~= outline_id(bytes@, outline.entries@));
    id
}

/// Appends an update that makes these the bookmarks of a document, with an
/// identifier that is made from both.
pub fn with_outline(bytes: &[u8], outline: &Outline) -> (updated: Result<
    Vec<u8>,
    OutlineWriteError,
>)
    ensures
        match outline_outcome(bytes@, outline.entries@, outline_id(bytes@, outline.entries@)) {
            Ok(output) => updated matches Ok(found) && found@ == output,
            Err(refusal) => updated matches Err(error) && reports_outline(error, refusal),
        },
{
    let id2 = content_id(bytes, outline);
    with_outline_and_id(bytes, outline, id2.as_slice())
}

/// The bookmarks in one list are as many as there are; one stands behind those
/// before it on its level and all below them, and right behind it stand those
/// below it.
pub proof fn law_a_mark_stands_before_those_below(entries: Seq<OutlineEntry>, n: nat, i: int)
    requires
        0 <= i < n <= entries.len(),
    ensures
        flattened(entries, n).len() == level_len(entries, n),
        ({
            let at = level_len(entries, i as nat) as int;
            let children = entries[i].children@;
            let count = level_len(children, children.len());
            &&& at + 1 + count <= flattened(entries, n).len()
            &&& flattened(entries, n)[at] == (
                entries[i].title@,
                entries[i].depth,
                marked_page(entries[i].target),
            )
            &&& flattened(entries, n).subrange(at + 1, at + 1 + count) == flattened(
                children,
                children.len(),
            )
        }),
    decreases n,
{
    let m = (n - 1) as nat;
    let before = flattened(entries, m);
    let last = entries[n - 1];
    let below = flattened(last.children@, last.children@.len());
    lemma_flattened_len(entries, m);
    lemma_flattened_len(last.children@, last.children@.len());
    let all = flattened(entries, n);
    if i < m {
        law_a_mark_stands_before_those_below(entries, m, i);
        let at = level_len(entries, i as nat) as int;
        let count = level_len(entries[i].children@, entries[i].children@.len()) as int;
        assert(all[at] == before[at]);
        assert(all.subrange(at + 1, at + 1 + count) =~= before.subrange(at + 1, at + 1 + count));
    } else {
        let at = before.len() as int;
        assert(all.subrange(at + 1, at + 1 + below.len()) =~= below);
    }
}

proof fn lemma_flattened_len(entries: Seq<OutlineEntry>, n: nat)
    ensures
        flattened(entries, n).len() == level_len(entries, n),
    decreases entries, n,
{
    if !(n == 0 || n > entries.len()) {
        lemma_flattened_len(entries, (n - 1) as nat);
        assert(decreases_to!(entries => entries[n - 1]));
        assert(decreases_to!(entries[n - 1] => entries[n - 1].children));
        assert(decreases_to!(entries[n - 1].children => entries[n - 1].children@));
        lemma_flattened_len(entries[n - 1].children@, entries[n - 1].children@.len());
    }
}

} // verus!
