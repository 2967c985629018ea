//! Reading the document that is to be signed: its objects, its page tree and
//! the fields of its form.

use crate::bytes::{same_bytes, utf8};
use crate::number::{parse_unsigned, unsigned_of};
use crate::pdfread::dictionary::{entry, lookup, take_entry, Entries};
use crate::pdfread::value::{read_value, value_at, ValueError};
use crate::pdfread::xref::{
    chain_at, is_about, law_a_chain_leads_back, read_chain, section_at, section_views, speaks_of,
    Section, XrefSection, MAX_SECTIONS,
};
use crate::pdftext::{decode_text_string, text_string};
use crate::pdfwrite::object::{
    entry_values, item_values, lemma_container_values, PdfObject, PdfValue,
};
use crate::pdfwrite::tokenizer::{object_tokens, token_views, tokenize};
use crate::pdfwrite::writer::{
    find_startxref_offset, reference_entry, reference_under, startxref_of,
};
use crate::sign::refusal::{reports, unsupported, Refusal, SignApplyError, VerifyError};
use crate::text::{owned, push_decimal, push_str, same_text, views};
use vstd::prelude::*;
use vstd::slice::slice_subrange;

verus! {

/// Where things stand in a document.
#[derive(Debug)]
pub struct DocumentLayout {
    /// Does the trailer name an encryption dictionary?
    pub encrypted: bool,
    /// The object number of the catalog.
    pub catalog: Option<u32>,
    /// The number and offset of each object that a cross-reference section
    /// lists, the newest section first.
    pub objects: Vec<(u32, u64)>,
}

/// What a [`DocumentLayout`] says.
pub struct Layout {
    pub encrypted: bool,
    pub catalog: Option<nat>,
    pub objects: Seq<(u32, u64)>,
}

impl View for DocumentLayout {
    type V = Layout;

    open spec fn view(&self) -> Layout {
        Layout {
            encrypted: self.encrypted,
            catalog: match self.catalog {
                Some(number) => Some(number as nat),
                None => None,
            },
            objects: self.objects@,
        }
    }
}

/// One of the first `n` sections speaks of an object.
pub open spec fn is_spoken_of(sections: Seq<Section>, n: nat, number: nat) -> bool {
    exists|i: int| 0 <= i < n && #[trigger] speaks_of(sections[i], number)
}

/// Those of the first `m` places whose objects the first `n` sections do not
/// speak of.
pub open spec fn unspoken(places: Seq<(u32, u64)>, m: nat, sections: Seq<Section>, n: nat) -> Seq<
    (u32, u64),
>
    decreases m,
{
    if m == 0 {
        Seq::empty()
    } else {
        let before = unspoken(places, (m - 1) as nat, sections, n);
        if is_spoken_of(sections, n, places[m - 1].0 as nat) {
            before
        } else {
            before.push(places[m - 1])
        }
    }
}

/// The objects that the first `n` sections list. What a newer section says of an
/// object holds, even where it says that the object is not in use.
pub open spec fn listed_objects(sections: Seq<Section>, n: nat) -> Seq<(u32, u64)>
    decreases n,
{
    if n == 0 {
        Seq::empty()
    } else {
        let older = sections[n - 1].offsets;
        listed_objects(sections, (n - 1) as nat) + unspoken(
            older,
            older.len(),
            sections,
            (n - 1) as nat,
        )
    }
}

/// Where no section is newer, nothing is left out.
pub proof fn lemma_unspoken_first(places: Seq<(u32, u64)>, m: nat, sections: Seq<Section>)
    requires
        m <= places.len(),
    ensures
        unspoken(places, m, sections, 0) == places.take(m as int),
    decreases m,
{
    if m > 0 {
        lemma_unspoken_first(places, (m - 1) as nat, sections);
        assert(places.take(m as int) =~= places.take(m - 1).push(places[m - 1]));
    } else {
        assert(places.take(0) =~= Seq::empty());
    }
}

/// What is not left out is one of the places.
pub proof fn lemma_unspoken(places: Seq<(u32, u64)>, m: nat, sections: Seq<Section>, n: nat)
    requires
        m <= places.len(),
    ensures
        forall|k: int|
            0 <= k < unspoken(places, m, sections, n).len() ==> places.contains(
                #[trigger] unspoken(places, m, sections, n)[k],
            ),
    decreases m,
{
    if m > 0 {
        lemma_unspoken(places, (m - 1) as nat, sections, n);
        let before = unspoken(places, (m - 1) as nat, sections, n);
        let all = unspoken(places, m, sections, n);
        assert forall|k: int| 0 <= k < all.len() implies places.contains(#[trigger] all[k]) by {
            if k < before.len() {
                assert(all[k] == before[k]);
            } else {
                assert(all[k] == places[m - 1]);
            }
        }
    }
}

/// An object of which the newest section says that it is not in use is not
/// listed.
pub proof fn law_what_is_gone_is_not_listed(sections: Seq<Section>, n: nat, number: u32)
    requires
        0 < n <= sections.len(),
        speaks_of(sections[0], number as nat),
        forall|j: int|
            0 <= j < sections[0].offsets.len() ==> (#[trigger] sections[0].offsets[j]).0 != number,
    ensures
        forall|k: int|
            0 <= k < listed_objects(sections, n).len() ==> (#[trigger] listed_objects(
                sections,
                n,
            )[k]).0 != number,
    decreases n,
{
    let older = sections[n - 1].offsets;
    let before = listed_objects(sections, (n - 1) as nat);
    let rest = unspoken(older, older.len(), sections, (n - 1) as nat);
    if n > 1 {
        law_what_is_gone_is_not_listed(sections, (n - 1) as nat, number);
        assert(is_spoken_of(sections, (n - 1) as nat, number as nat));
        lemma_left_out(older, older.len(), sections, (n - 1) as nat, number);
    } else {
        lemma_unspoken_first(older, older.len(), sections);
        assert(older.take(older.len() as int) =~= older);
        assert(before =~= Seq::empty());
    }
    let all = listed_objects(sections, n);
    assert forall|k: int| 0 <= k < all.len() implies (#[trigger] all[k]).0 != number by {
        if k < before.len() {
            assert(all[k] == before[k]);
        } else {
            assert(all[k] == rest[k - before.len()]);
        }
    }
}

proof fn lemma_left_out(
    places: Seq<(u32, u64)>,
    m: nat,
    sections: Seq<Section>,
    n: nat,
    number: u32,
)
    requires
        m <= places.len(),
        is_spoken_of(sections, n, number as nat),
    ensures
        forall|k: int|
            0 <= k < unspoken(places, m, sections, n).len() ==> (#[trigger] unspoken(
                places,
                m,
                sections,
                n,
            )[k]).0 != number,
    decreases m,
{
    if m > 0 {
        lemma_left_out(places, (m - 1) as nat, sections, n, number);
        let before = unspoken(places, (m - 1) as nat, sections, n);
        let all = unspoken(places, m, sections, n);
        assert forall|k: int| 0 <= k < all.len() implies (#[trigger] all[k]).0 != number by {
            if k < before.len() {
                assert(all[k] == before[k]);
            }
        }
    }
}

/// Where things stand in a document, by its cross-reference chain.
pub open spec fn layout_of(bytes: Seq<u8>) -> Option<Layout> {
    match startxref_of(bytes) {
        None => None,
        Some(at) => match chain_at(bytes, at, MAX_SECTIONS as nat) {
            None => None,
            Some(sections) => if sections.len() == 0 {
                None
            } else {
                Some(
                    Layout {
                        encrypted: lookup(sections[0].trailer, "Encrypt"@) is Some,
                        catalog: match reference_under(sections[0].trailer, "Root"@) {
                            Some((number, _)) => Some(number),
                            None => None,
                        },
                        objects: listed_objects(sections, sections.len()),
                    },
                )
            },
        },
    }
}

fn find_spoken_of(sections: &[XrefSection], n: usize, number: u32) -> (found: bool)
    requires
        n <= sections@.len(),
    ensures
        found == is_spoken_of(section_views(sections@), n as nat, number as nat),
{
    let ghost views = section_views(sections@);
    let mut i: usize = 0;
    while i < n
        invariant
            i <= n <= sections@.len(),
            views == section_views(sections@),
            forall|j: int| 0 <= j < i ==> !#[trigger] speaks_of(views[j], number as nat),
        decreases n - i,
    {
        assert(views[i as int] == sections@[i as int]@);
        if is_about(&sections[i], number) {
            assert(speaks_of(views[i as int], number as nat));
            return true;
        }
        i += 1;
    }
    false
}

/// Adds what a section lists and no newer one speaks of.
fn push_places(out: &mut Vec<(u32, u64)>, sections: &[XrefSection], n: usize)
    requires
        n < sections@.len(),
    ensures
        final(out)@ == old(out)@ + unspoken(
            sections@[n as int].offsets@,
            sections@[n as int].offsets@.len(),
            section_views(sections@),
            n as nat,
        ),
{
    let places = &sections[n].offsets;
    let ghost views = section_views(sections@);
    let ghost before = out@;
    let mut i: usize = 0;
    assert(before + unspoken(places@, 0, views, n as nat) =~= before);
    while i < places.len()
        invariant
            i <= places@.len(),
            n < sections@.len(),
            views == section_views(sections@),
            out@ == before + unspoken(places@, i as nat, views, n as nat),
        decreases places@.len() - i,
    {
        let place: (u32, u64) = places[i];
        if !find_spoken_of(sections, n, place.0) {
            out.push(place);
        }
        i += 1;
        assert(out@ =~= before + unspoken(places@, i as nat, views, n as nat));
    }
}

/// Finds where things stand in a document.
pub fn read_layout(bytes: &[u8]) -> (layout: Result<DocumentLayout, SignApplyError>)
    ensures
        match layout_of(bytes@) {
            Some(found) => layout matches Ok(read) && read@ == found,
            None => layout matches Err(error) && reports(
                error,
                Refusal::Structure(VerifyError::NoCrossReferences),
            ),
        },
{
    let missing = SignApplyError::Verify(VerifyError::NoCrossReferences);
    let at: u64 = match find_startxref_offset(bytes) {
        Some(at) => at,
        None => return Err(missing),
    };
    let sections = match read_chain(bytes, at) {
        Some(sections) => sections,
        None => return Err(missing),
    };
    if sections.len() == 0 {
        return Err(missing);
    }
    let ghost views = section_views(sections@);
    let mut objects: Vec<(u32, u64)> = Vec::new();
    let mut i: usize = 0;
    while i < sections.len()
        invariant
            i <= sections@.len(),
            views == section_views(sections@),
            objects@ == listed_objects(views, i as nat),
        decreases sections@.len() - i,
    {
        push_places(&mut objects, sections.as_slice(), i);
        assert(views[i as int].offsets == sections@[i as int].offsets@);
        i += 1;
    }
    let newest: &XrefSection = &sections[0];
    assert(views[0] == newest@);
    let catalog: Option<u32> = match reference_entry(newest.trailer.as_slice(), "Root") {
        Some((number, _)) => Some(number),
        None => None,
    };
    let encrypted = entry(newest.trailer.as_slice(), "Encrypt").is_some();
    Ok(DocumentLayout { encrypted, catalog, objects })
}

/// Where the newest object of a number stands, or the end of the list.
pub open spec fn object_index(objects: Seq<(u32, u64)>, number: nat, from: int) -> int
    decreases objects.len() - from,
{
    if from >= objects.len() || objects[from].0 == number {
        from
    } else {
        object_index(objects, number, from + 1)
    }
}

/// The bytes of a document from the start of an object on.
pub open spec fn object_bytes_at(bytes: Seq<u8>, layout: Layout, number: nat) -> Option<Seq<u8>> {
    let index = object_index(layout.objects, number, 0);
    if index < layout.objects.len() && layout.objects[index].1 < bytes.len() {
        Some(bytes.skip(layout.objects[index].1 as int))
    } else {
        None
    }
}

/// Finds an object.
pub fn find_object<'a>(bytes: &'a [u8], layout: &DocumentLayout, number: u32) -> (found: Result<
    &'a [u8],
    SignApplyError,
>)
    ensures
        match object_bytes_at(bytes@, layout@, number as nat) {
            Some(rest) => found matches Ok(slice) && slice@ == rest,
            None => found matches Err(error) && reports(
                error,
                Refusal::Structure(VerifyError::ObjectNotFound(number)),
            ),
        },
{
    let objects = &layout.objects;
    let mut i: usize = 0;
    while i < objects.len() && objects[i].0 != number
        invariant
            i <= objects@.len(),
            object_index(objects@, number as nat, i as int) == object_index(
                objects@,
                number as nat,
                0,
            ),
        decreases objects@.len() - i,
    {
        i += 1;
    }
    if i < objects.len() {
        let offset: u64 = objects[i].1;
        if bytes.len() as u64 > offset {
            let slice = slice_subrange(bytes, offset as usize, bytes.len());
            assert(slice@ =~= bytes@.skip(offset as int));
            return Ok(slice);
        }
    }
    Err(SignApplyError::Verify(VerifyError::ObjectNotFound(number)))
}

/// The index of the first token at or after `from` that is `obj`, or the end.
pub open spec fn obj_index(tokens: Seq<Seq<u8>>, from: int) -> int
    decreases tokens.len() - from,
{
    if from >= tokens.len() || tokens[from] == utf8("obj"@) {
        from
    } else {
        obj_index(tokens, from + 1)
    }
}

/// Where the value of an object starts: behind its header, if it has one.
pub open spec fn value_start(tokens: Seq<Seq<u8>>) -> int {
    if obj_index(tokens, 0) < tokens.len() {
        obj_index(tokens, 0) + 1
    } else {
        0
    }
}

/// Why a value cannot be read.
pub open spec fn value_refusal(error: ValueError) -> Refusal {
    match error {
        ValueError::TooDeep => Refusal::TooDeep,
        ValueError::Malformed => Refusal::Malformed,
    }
}

/// The entries of an object that is a dictionary.
pub open spec fn dictionary_of(bytes: Seq<u8>, layout: Layout, number: nat) -> Result<
    Entries,
    Refusal,
> {
    match object_bytes_at(bytes, layout, number) {
        None => Err(Refusal::Structure(VerifyError::ObjectNotFound(number as u32))),
        Some(slice) => {
            let tokens = object_tokens(slice, 0);
            let start = value_start(tokens);
            if start < tokens.len() && tokens[start] == utf8("<<"@) {
                match value_at(tokens, start, 0) {
                    Ok((PdfValue::Dictionary(entries), _)) => Ok(entries),
                    Ok(_) => Err(Refusal::NotADictionary(number)),
                    Err(error) => Err(value_refusal(error)),
                }
            } else {
                Err(Refusal::NotADictionary(number))
            }
        },
    }
}

/// The generation of an object, by its header: the first where it has none.
pub open spec fn generation_of(bytes: Seq<u8>, layout: Layout, number: nat) -> nat {
    match object_bytes_at(bytes, layout, number) {
        None => 0,
        Some(slice) => {
            let tokens = object_tokens(slice, 0);
            if tokens.len() > 2 && tokens[2] == utf8("obj"@) {
                match unsigned_of(tokens[1], u16::MAX as nat) {
                    Some(generation) => generation,
                    None => 0,
                }
            } else {
                0
            }
        },
    }
}

/// Finds the generation of an object.
pub fn find_generation(bytes: &[u8], layout: &DocumentLayout, number: u32) -> (generation: u16)
    ensures
        generation == generation_of(bytes@, layout@, number as nat),
{
    let slice = match find_object(bytes, layout, number) {
        Ok(slice) => slice,
        Err(_) => return 0,
    };
    let tokens = tokenize(slice);
    let ghost views = token_views(tokens@);
    if tokens.len() < 3 {
        return 0;
    }
    assert(views[1] == tokens@[1]@);
    assert(views[2] == tokens@[2]@);
    if !same_bytes(tokens[2].as_slice(), "obj".as_bytes()) {
        return 0;
    }
    match parse_unsigned(tokens[1].as_slice(), u16::MAX as u64) {
        Some(generation) => generation as u16,
        None => 0,
    }
}

/// Is this what was read, or how the refusal is reported?
pub open spec fn reads_entries(
    result: Result<Vec<(String, PdfObject)>, SignApplyError>,
    outcome: Result<Entries, Refusal>,
) -> bool {
    match outcome {
        Ok(entries) => result matches Ok(found) && entry_values(found@) == entries,
        Err(refusal) => result matches Err(error) && reports(error, refusal),
    }
}

fn find_value_start(tokens: &[Vec<u8>]) -> (start: usize)
    ensures
        start == value_start(token_views(tokens@)),
{
    let ghost views = token_views(tokens@);
    let mut i: usize = 0;
    while i < tokens.len() && !same_bytes(tokens[i].as_slice(), "obj".as_bytes())
        invariant
            i <= tokens@.len(),
            views == token_views(tokens@),
            obj_index(views, i as int) == obj_index(views, 0),
        decreases tokens@.len() - i,
    {
        assert(views[i as int] == tokens@[i as int]@);
        i += 1;
    }
    if i < tokens.len() {
        assert(views[i as int] == tokens@[i as int]@);
        i + 1
    } else {
        0
    }
}

fn value_error(error: ValueError) -> (reported: SignApplyError)
    ensures
        reports(reported, value_refusal(error)),
{
    match error {
        ValueError::TooDeep => unsupported("value nesting too deep"),
        ValueError::Malformed => unsupported("the document's object structure is malformed"),
    }
}

fn not_a_dictionary(number: u32) -> (error: SignApplyError)
    ensures
        reports(error, Refusal::NotADictionary(number as nat)),
{
    let mut detail = owned("object ");
    push_decimal(&mut detail, number as u64);
    push_str(&mut detail, " is not a dictionary; this document cannot be signed by pulpit");
    SignApplyError::Unsupported(detail)
}

/// Reads the value of an object that starts at `index`, nested `depth` deep.
pub fn parse_value(tokens: &[Vec<u8>], index: usize, depth: usize) -> (result: Result<
    (PdfObject, usize),
    SignApplyError,
>)
    ensures
        match value_at(token_views(tokens@), index as int, depth as nat) {
            Ok((value, next)) => result matches Ok((object, after)) && object@ == value && after
                == next,
            Err(error) => result matches Err(reported) && reports(reported, value_refusal(error)),
        },
{
    match read_value(tokens, index, depth) {
        Ok((object, next)) => Ok((object, next)),
        Err(error) => Err(value_error(error)),
    }
}

/// Reads the dictionary of an object as it stands in the newest revision.
pub fn parse_object_dictionary(bytes: &[u8], layout: &DocumentLayout, number: u32) -> (result:
    Result<Vec<(String, PdfObject)>, SignApplyError>)
    ensures
        reads_entries(result, dictionary_of(bytes@, layout@, number as nat)),
{
    let slice = match find_object(bytes, layout, number) {
        Ok(slice) => slice,
        Err(error) => return Err(error),
    };
    let tokens = tokenize(slice);
    let ghost views = token_views(tokens@);
    let start = find_value_start(tokens.as_slice());
    if start >= tokens.len() {
        return Err(not_a_dictionary(number));
    }
    assert(views[start as int] == tokens@[start as int]@);
    if !same_bytes(tokens[start].as_slice(), "<<".as_bytes()) {
        return Err(not_a_dictionary(number));
    }
    match parse_value(tokens.as_slice(), start, 0) {
        Ok((object, _)) => {
            proof {
                lemma_container_values(object);
            }
            match object {
                PdfObject::Dictionary(entries) => Ok(entries),
                _ => Err(not_a_dictionary(number)),
            }
        },
        Err(error) => Err(error),
    }
}

/// How deep the first page of a document may lie in its page tree.
pub const MAX_PAGE_TREE_DEPTH: usize = 64;

/// The first page below a node of the page tree, where `left` more nodes may be
/// read. A node without children, or whose first child is no reference, is
/// taken for the page.
pub open spec fn first_page_below(bytes: Seq<u8>, layout: Layout, node: nat, left: nat) -> Result<
    nat,
    Refusal,
>
    decreases left,
{
    if left == 0 {
        Err(Refusal::PageTreeTooDeep)
    } else {
        match dictionary_of(bytes, layout, node) {
            Err(refusal) => Err(refusal),
            Ok(entries) => match lookup(entries, "Kids"@) {
                Some(PdfValue::Array(kids)) => if kids.len() > 0 {
                    match kids[0] {
                        PdfValue::IndirectRef { obj_num, .. } => first_page_below(
                            bytes,
                            layout,
                            obj_num,
                            (left - 1) as nat,
                        ),
                        _ => Ok(node),
                    }
                } else {
                    Ok(node)
                },
                _ => Ok(node),
            },
        }
    }
}

/// The first page of a document.
pub open spec fn first_page(bytes: Seq<u8>, layout: Layout, catalog: Entries) -> Result<
    nat,
    Refusal,
> {
    match reference_under(catalog, "Pages"@) {
        Some((node, _)) => first_page_below(bytes, layout, node, MAX_PAGE_TREE_DEPTH as nat),
        None => Err(Refusal::NoPageTree),
    }
}

/// Is this the number that was found, or how the refusal is reported?
pub open spec fn finds_number(result: Result<u32, SignApplyError>, outcome: Result<nat, Refusal>) -> bool {
    match outcome {
        Ok(number) => result matches Ok(found) && found == number,
        Err(refusal) => result matches Err(error) && reports(error, refusal),
    }
}

fn first_kid(entries: &[(String, PdfObject)]) -> (kid: Option<u32>)
    ensures
        (match kid {
            Some(number) => Some(number as nat),
            None => None,
        }) == match lookup(entry_values(entries@), "Kids"@) {
            Some(PdfValue::Array(kids)) => if kids.len() > 0 {
                match kids[0] {
                    PdfValue::IndirectRef { obj_num, .. } => Some(obj_num),
                    _ => None::<nat>,
                }
            } else {
                None
            },
            _ => None,
        },
{
    match entry(entries, "Kids") {
        Some(object) => {
            proof {
                lemma_container_values(*object);
            }
            match object {
                PdfObject::Array(kids) => {
                    if kids.len() > 0 {
                        assert(item_values(kids@)[0] == kids@[0]@);
                        match &kids[0] {
                            PdfObject::IndirectRef { obj_num, .. } => Some(*obj_num),
                            _ => None,
                        }
                    } else {
                        None
                    }
                },
                _ => None,
            }
        },
        None => None,
    }
}

/// Finds the first page of a document: the leftmost leaf of the page tree that
/// the catalog names.
pub fn first_page_object(
    bytes: &[u8],
    layout: &DocumentLayout,
    catalog: &[(String, PdfObject)],
) -> (page: Result<u32, SignApplyError>)
    ensures
        finds_number(page, first_page(bytes@, layout@, entry_values(catalog@))),
{
    let ghost outcome = first_page(bytes@, layout@, entry_values(catalog@));
    let mut node: u32 = match reference_entry(catalog, "Pages") {
        Some((node, _)) => node,
        None => return Err(unsupported("the catalog has no indirect /Pages tree")),
    };
    let mut left: usize = MAX_PAGE_TREE_DEPTH;
    while left > 0
        invariant
            outcome == first_page(bytes@, layout@, entry_values(catalog@)),
            outcome == first_page_below(bytes@, layout@, node as nat, left as nat),
        decreases left,
    {
        let entries = match parse_object_dictionary(bytes, layout, node) {
            Ok(entries) => entries,
            Err(error) => return Err(error),
        };
        match first_kid(entries.as_slice()) {
            Some(kid) => {
                node = kid;
                left -= 1;
            },
            None => return Ok(node),
        }
    }
    Err(unsupported("the page tree is deeper than 64 levels or contains a cycle"))
}

/// Decodes a string that was read from a document, as every reader of a text
/// string does; nothing is refused.
pub fn decode_pdf_string(bytes: &[u8]) -> (text: Result<String, SignApplyError>)
    ensures
        text matches Ok(decoded) && decoded@ == text_string(bytes@),
{
    Ok(decode_text_string(bytes))
}

/// The object numbers that the first `n` items of an array refer to.
pub open spec fn references_in(items: Seq<PdfValue>, n: nat) -> Seq<nat>
    decreases n,
{
    if n == 0 {
        Seq::empty()
    } else {
        match items[n - 1] {
            PdfValue::IndirectRef { obj_num, .. } => references_in(items, (n - 1) as nat).push(
                obj_num,
            ),
            _ => references_in(items, (n - 1) as nat),
        }
    }
}

/// The entries of the form that a catalog names; there are none when it names
/// no form.
pub open spec fn form_of(bytes: Seq<u8>, layout: Layout, catalog: Entries) -> Result<
    Entries,
    Refusal,
> {
    match lookup(catalog, "AcroForm"@) {
        Some(PdfValue::IndirectRef { obj_num, .. }) => dictionary_of(bytes, layout, obj_num),
        Some(PdfValue::Dictionary(entries)) => Ok(entries),
        _ => Ok(Seq::empty()),
    }
}

/// The object numbers of the fields that a form lists.
pub open spec fn fields_in(form: Entries) -> Seq<nat> {
    match lookup(form, "Fields"@) {
        Some(PdfValue::Array(items)) => references_in(items, items.len()),
        _ => Seq::empty(),
    }
}

/// The object number of the catalog.
pub open spec fn catalog_of(layout: Layout) -> Result<nat, Refusal> {
    match layout.catalog {
        Some(number) => Ok(number),
        None => Err(Refusal::Structure(VerifyError::NoCatalog)),
    }
}

/// The object numbers of the fields of a document.
pub open spec fn fields_of(bytes: Seq<u8>, layout: Layout) -> Result<Seq<nat>, Refusal> {
    match catalog_of(layout) {
        Err(refusal) => Err(refusal),
        Ok(catalog) => match dictionary_of(bytes, layout, catalog) {
            Err(refusal) => Err(refusal),
            Ok(entries) => match form_of(bytes, layout, entries) {
                Err(refusal) => Err(refusal),
                Ok(form) => Ok(fields_in(form)),
            },
        },
    }
}

/// Numbers, each by its value.
pub open spec fn number_values(numbers: Seq<u32>) -> Seq<nat> {
    numbers.map_values(|number: u32| number as nat)
}

/// The object number of the catalog.
pub fn find_catalog_ref(layout: &DocumentLayout) -> (catalog: Result<u32, SignApplyError>)
    ensures
        finds_number(catalog, catalog_of(layout@)),
{
    match layout.catalog {
        Some(number) => Ok(number),
        None => Err(SignApplyError::Verify(VerifyError::NoCatalog)),
    }
}

fn referenced(items: &[PdfObject]) -> (numbers: Vec<u32>)
    ensures
        number_values(numbers@) == references_in(item_values(items@), items@.len()),
{
    let ghost values = item_values(items@);
    let mut numbers: Vec<u32> = Vec::new();
    let mut i: usize = 0;
    assert(number_values(numbers@) =~= Seq::empty());
    while i < items.len()
        invariant
            i <= items@.len(),
            values == item_values(items@),
            number_values(numbers@) == references_in(values, i as nat),
        decreases items@.len() - i,
    {
        let ghost before = number_values(numbers@);
        if let PdfObject::IndirectRef { obj_num, .. } = &items[i] {
            numbers.push(*obj_num);
            assert(number_values(numbers@) =~= before.push(*obj_num as nat));
        }
        i += 1;
    }
    numbers
}

fn listed_fields(form: &[(String, PdfObject)]) -> (numbers: Vec<u32>)
    ensures
        number_values(numbers@) == fields_in(entry_values(form@)),
{
    match entry(form, "Fields") {
        Some(object) => {
            proof {
                lemma_container_values(*object);
            }
            match object {
                PdfObject::Array(items) => referenced(items.as_slice()),
                _ => {
                    let numbers: Vec<u32> = Vec::new();
                    assert(number_values(numbers@) =~= Seq::empty());
                    numbers
                },
            }
        },
        None => {
            let numbers: Vec<u32> = Vec::new();
            assert(number_values(numbers@) =~= Seq::empty());
            numbers
        },
    }
}

/// Finds the fields of a document.
pub fn find_fields_array(bytes: &[u8], layout: &DocumentLayout) -> (fields: Result<
    Vec<u32>,
    SignApplyError,
>)
    ensures
        match fields_of(bytes@, layout@) {
            Ok(numbers) => fields matches Ok(found) && number_values(found@) == numbers,
            Err(refusal) => fields matches Err(error) && reports(error, refusal),
        },
{
    let catalog = match find_catalog_ref(layout) {
        Ok(catalog) => catalog,
        Err(error) => return Err(error),
    };
    let mut entries = match parse_object_dictionary(bytes, layout, catalog) {
        Ok(entries) => entries,
        Err(error) => return Err(error),
    };
    let form: Vec<(String, PdfObject)> = match take_entry(&mut entries, "AcroForm") {
        Some(object) => {
            proof {
                lemma_container_values(object);
            }
            match object {
                PdfObject::IndirectRef { obj_num, .. } => match parse_object_dictionary(
                    bytes,
                    layout,
                    obj_num,
                ) {
                    Ok(form) => form,
                    Err(error) => return Err(error),
                },
                PdfObject::Dictionary(form) => form,
                _ => Vec::new(),
            }
        },
        None => Vec::new(),
    };
    proof {
        assert(form@.len() == 0 ==> entry_values(form@) =~= Seq::empty());
    }
    Ok(listed_fields(form.as_slice()))
}

/// The name of a field, where it has one that a document wrote as a string.
pub open spec fn field_name_of(bytes: Seq<u8>, layout: Layout, field: nat) -> Result<
    Option<Seq<char>>,
    Refusal,
> {
    match dictionary_of(bytes, layout, field) {
        Err(refusal) => Err(refusal),
        Ok(entries) => match lookup(entries, "T"@) {
            Some(PdfValue::RawString(name)) => Ok(Some(text_string(name))),
            _ => Ok(None),
        },
    }
}

/// Reads the name of a field.
pub fn read_field_name(bytes: &[u8], layout: &DocumentLayout, field: u32) -> (name: Result<
    Option<String>,
    SignApplyError,
>)
    ensures
        match field_name_of(bytes@, layout@, field as nat) {
            Ok(Some(text)) => name matches Ok(Some(found)) && found@ == text,
            Ok(None) => name matches Ok(None),
            Err(refusal) => name matches Err(error) && reports(error, refusal),
        },
{
    let entries = match parse_object_dictionary(bytes, layout, field) {
        Ok(entries) => entries,
        Err(error) => return Err(error),
    };
    match entry(entries.as_slice(), "T") {
        Some(PdfObject::RawString(name)) => match decode_pdf_string(name.as_slice()) {
            Ok(text) => Ok(Some(text)),
            Err(error) => Err(error),
        },
        _ => Ok(None),
    }
}

/// The first of the fields, from `from` on, that has this name.
pub open spec fn field_named(
    bytes: Seq<u8>,
    layout: Layout,
    fields: Seq<nat>,
    name: Seq<char>,
    from: int,
) -> Result<Option<nat>, Refusal>
    decreases fields.len() - from,
{
    if from >= fields.len() {
        Ok(None)
    } else {
        match field_name_of(bytes, layout, fields[from]) {
            Err(refusal) => Err(refusal),
            Ok(found) => if found == Some(name) {
                Ok(Some(fields[from]))
            } else {
                field_named(bytes, layout, fields, name, from + 1)
            },
        }
    }
}

/// The field of a document that has this name.
pub open spec fn field_object_of(bytes: Seq<u8>, layout: Layout, name: Seq<char>) -> Result<
    Option<nat>,
    Refusal,
> {
    match fields_of(bytes, layout) {
        Err(refusal) => Err(refusal),
        Ok(fields) => field_named(bytes, layout, fields, name, 0),
    }
}

/// Finds the field of a document that has this name.
pub fn find_field_object(bytes: &[u8], layout: &DocumentLayout, name: &str) -> (field: Result<
    Option<u32>,
    SignApplyError,
>)
    ensures
        match field_object_of(bytes@, layout@, name@) {
            Ok(Some(number)) => field matches Ok(Some(found)) && found == number,
            Ok(None) => field matches Ok(None),
            Err(refusal) => field matches Err(error) && reports(error, refusal),
        },
{
    let fields = match find_fields_array(bytes, layout) {
        Ok(fields) => fields,
        Err(error) => return Err(error),
    };
    let ghost numbers = number_values(fields@);
    let mut i: usize = 0;
    while i < fields.len()
        invariant
            i <= fields@.len(),
            numbers == number_values(fields@),
            fields_of(bytes@, layout@) == Ok::<Seq<nat>, Refusal>(numbers),
            field_named(bytes@, layout@, numbers, name@, i as int) == field_object_of(
                bytes@,
                layout@,
                name@,
            ),
        decreases fields@.len() - i,
    {
        assert(numbers[i as int] == fields@[i as int] as nat);
        match read_field_name(bytes, layout, fields[i]) {
            Ok(Some(found)) => {
                if same_text(found.as_str(), name) {
                    return Ok(Some(fields[i]));
                }
            },
            Ok(None) => {},
            Err(error) => return Err(error),
        }
        i += 1;
    }
    Ok(None)
}

/// The names of the fields, from `from` on, that have one.
pub open spec fn names_of(bytes: Seq<u8>, layout: Layout, fields: Seq<nat>, from: int) -> Result<
    Seq<Seq<char>>,
    Refusal,
>
    decreases fields.len() - from,
{
    if from >= fields.len() {
        Ok(Seq::empty())
    } else {
        match field_name_of(bytes, layout, fields[from]) {
            Err(refusal) => Err(refusal),
            Ok(found) => match names_of(bytes, layout, fields, from + 1) {
                Err(refusal) => Err(refusal),
                Ok(rest) => match found {
                    Some(name) => Ok(seq![name] + rest),
                    None => Ok(rest),
                },
            },
        }
    }
}

/// The names that fields of a document have already.
pub open spec fn taken_names(bytes: Seq<u8>, layout: Layout) -> Result<Seq<Seq<char>>, Refusal> {
    match fields_of(bytes, layout) {
        Err(refusal) => Err(refusal),
        Ok(fields) => names_of(bytes, layout, fields, 0),
    }
}

/// Names that were found, and the rest of them if that can be read.
pub open spec fn names_after(
    before: Seq<Seq<char>>,
    rest: Result<Seq<Seq<char>>, Refusal>,
) -> Result<Seq<Seq<char>>, Refusal> {
    match rest {
        Ok(names) => Ok(before + names),
        Err(refusal) => Err(refusal),
    }
}

/// Finds the names that fields of a document have already.
pub fn existing_field_names(bytes: &[u8], layout: &DocumentLayout) -> (names: Result<
    Vec<String>,
    SignApplyError,
>)
    ensures
        match taken_names(bytes@, layout@) {
            Ok(taken) => names matches Ok(found) && views(found@) == taken,
            Err(refusal) => names matches Err(error) && reports(error, refusal),
        },
{
    let fields = match find_fields_array(bytes, layout) {
        Ok(fields) => fields,
        Err(error) => return Err(error),
    };
    let ghost numbers = number_values(fields@);
    let ghost outcome = names_of(bytes@, layout@, numbers, 0);
    let mut names: Vec<String> = Vec::new();
    let mut i: usize = 0;
    proof {
        assert(views(names@) =~= Seq::empty());
        if let Ok(all) = outcome {
            assert(views(names@) + all =~= all);
        }
    }
    while i < fields.len()
        invariant
            i <= fields@.len(),
            numbers == number_values(fields@),
            fields_of(bytes@, layout@) == Ok::<Seq<nat>, Refusal>(numbers),
            outcome == names_of(bytes@, layout@, numbers, 0),
            outcome == names_after(views(names@), names_of(bytes@, layout@, numbers, i as int)),
        decreases fields@.len() - i,
    {
        let ghost before = views(names@);
        let ghost rest = names_of(bytes@, layout@, numbers, i + 1);
        assert(numbers[i as int] == fields@[i as int] as nat);
        match read_field_name(bytes, layout, fields[i]) {
            Ok(Some(found)) => {
                let ghost name = found@;
                names.push(found);
                proof {
                    assert(views(names@) =~= before + seq![name]);
                    if let Ok(later) = rest {
                        assert(before + (seq![name] + later) =~= views(names@) + later);
                    }
                }
            },
            Ok(None) => {},
            Err(error) => return Err(error),
        }
        i += 1;
    }
    assert(views(names@) + Seq::<Seq<char>>::empty() =~= views(names@));
    Ok(names)
}

/// Nodes of a page tree, each after the first being the first child of the one
/// before.
pub open spec fn first_children(bytes: Seq<u8>, layout: Layout, path: Seq<nat>) -> bool {
    forall|i: int|
        0 <= i < path.len() - 1 ==> #[trigger] leads_first(bytes, layout, path[i], path[i + 1])
}

/// Is a node the first child of another?
pub open spec fn leads_first(bytes: Seq<u8>, layout: Layout, node: nat, child: nat) -> bool {
    dictionary_of(bytes, layout, node) matches Ok(entries) && lookup(entries, "Kids"@) matches Some(
        PdfValue::Array(kids),
    ) && kids.len() > 0 && (kids[0] matches PdfValue::IndirectRef { obj_num, .. } && obj_num
        == child)
}

/// The first page of a document is reached from the root of its page tree by
/// going to first children only, and it has none itself.
pub proof fn law_the_first_page_is_at_the_end_of_first_children(
    bytes: Seq<u8>,
    layout: Layout,
    node: nat,
    left: nat,
)
    requires
        first_page_below(bytes, layout, node, left) is Ok,
    ensures
        ({
            let page = first_page_below(bytes, layout, node, left)->Ok_0;
            &&& forall|child: nat| !#[trigger] leads_first(bytes, layout, page, child)
            &&& exists|path: Seq<nat>|
                path.len() > 0 && path.len() <= left && path[0] == node && path.last() == page
                    && #[trigger] first_children(bytes, layout, path)
        }),
    decreases left,
{
    let page = first_page_below(bytes, layout, node, left)->Ok_0;
    let entries = dictionary_of(bytes, layout, node)->Ok_0;
    let child = match lookup(entries, "Kids"@) {
        Some(PdfValue::Array(kids)) => if kids.len() > 0 {
            match kids[0] {
                PdfValue::IndirectRef { obj_num, .. } => Some(obj_num),
                _ => None,
            }
        } else {
            None
        },
        _ => None,
    };
    match child {
        Some(next) => {
            assert(leads_first(bytes, layout, node, next));
            law_the_first_page_is_at_the_end_of_first_children(
                bytes,
                layout,
                next,
                (left - 1) as nat,
            );
            let rest = choose|path: Seq<nat>|
                path.len() > 0 && path.len() <= left - 1 && path[0] == next && path.last() == page
                    && #[trigger] first_children(bytes, layout, path);
            let path = seq![node] + rest;
            assert forall|i: int| 0 <= i < path.len() - 1 implies #[trigger] leads_first(
                bytes,
                layout,
                path[i],
                path[i + 1],
            ) by {
                if i > 0 {
                    assert(leads_first(bytes, layout, rest[i - 1], rest[i - 1 + 1]));
                }
            }
            assert(path.last() == rest.last());
            assert(first_children(bytes, layout, path));
        },
        None => {
            let path = seq![node];
            assert(path.last() == node);
            assert(first_children(bytes, layout, path));
            assert(page == node);
        },
    }
}

/// The field of a name is found exactly when the name is among those that are
/// taken, and it is a field that has the name.
pub proof fn law_a_taken_name_is_found(
    bytes: Seq<u8>,
    layout: Layout,
    fields: Seq<nat>,
    name: Seq<char>,
    from: int,
)
    requires
        0 <= from <= fields.len(),
        names_of(bytes, layout, fields, from) is Ok,
    ensures
        ({
            let names = names_of(bytes, layout, fields, from)->Ok_0;
            match field_named(bytes, layout, fields, name, from) {
                Ok(Some(field)) => names.contains(name) && fields.skip(from).contains(field)
                    && field_name_of(bytes, layout, field) == Ok::<
                    Option<Seq<char>>,
                    Refusal,
                >(Some(name)),
                Ok(None) => !names.contains(name),
                Err(_) => false,
            }
        }),
    decreases fields.len() - from,
{
    if from < fields.len() {
        law_a_taken_name_is_found(bytes, layout, fields, name, from + 1);
        let names = names_of(bytes, layout, fields, from)->Ok_0;
        let rest = names_of(bytes, layout, fields, from + 1)->Ok_0;
        let found = field_name_of(bytes, layout, fields[from])->Ok_0;
        assert(fields.skip(from)[0] == fields[from]);
        match found {
            Some(first) => {
                assert(names == seq![first] + rest);
                assert(names[0] == first);
                if rest.contains(name) {
                    let i = rest.index_of(name);
                    assert(names[i + 1] == name);
                }
                if names.contains(name) && first != name {
                    let i = names.index_of(name);
                    assert(names[i] == name);
                    assert(rest[i - 1] == name);
                }
            },
            None => {
                assert(names == rest);
            },
        }
        match field_named(bytes, layout, fields, name, from + 1) {
            Ok(Some(field)) => {
                let i = fields.skip(from + 1).index_of(field);
                assert(fields.skip(from)[i + 1] == fields.skip(from + 1)[i]);
            },
            _ => {},
        }
    }
}

/// What the first `n` items of an array refer to are the objects of those among
/// them that are references, in their order.
pub proof fn law_references_keep_their_order(items: Seq<PdfValue>, n: nat)
    requires
        n <= items.len(),
    ensures
        references_in(items, n) == items.take(n as int).filter(
            |item: PdfValue| item is IndirectRef,
        ).map_values(|item: PdfValue| item->obj_num),
    decreases n,
{
    let kept = |item: PdfValue| item is IndirectRef;
    let number = |item: PdfValue| item->obj_num;
    reveal(Seq::filter);
    if n > 0 {
        law_references_keep_their_order(items, (n - 1) as nat);
        let all = items.take(n as int);
        assert(all.drop_last() =~= items.take(n - 1));
        assert(all.last() == items[n - 1]);
        let before = all.drop_last().filter(kept);
        if kept(items[n - 1]) {
            assert(all.filter(kept) =~= before.push(items[n - 1]));
            assert(before.push(items[n - 1]).map_values(number) =~= before.map_values(number).push(
                number(items[n - 1]),
            ));
        } else {
            assert(all.filter(kept) =~= before);
        }
        assert(references_in(items, n) =~= all.filter(kept).map_values(number));
    } else {
        assert(items.take(0).filter(kept) =~= Seq::empty());
        assert(references_in(items, n) =~= items.take(0).filter(kept).map_values(number));
    }
}

/// An object is read where the first place that is listed for it says; one that
/// no place is listed for is not there.
pub proof fn law_the_first_place_counts(bytes: Seq<u8>, layout: Layout, number: nat, at: int)
    requires
        0 <= at <= layout.objects.len(),
        at < layout.objects.len() ==> layout.objects[at].0 == number,
        forall|i: int| 0 <= i < at ==> (#[trigger] layout.objects[i]).0 != number,
    ensures
        object_bytes_at(bytes, layout, number) == if at < layout.objects.len()
            && layout.objects[at].1 < bytes.len() {
            Some(bytes.skip(layout.objects[at].1 as int))
        } else {
            None
        },
{
    lemma_first_place(layout.objects, number, at, 0);
}

proof fn lemma_first_place(objects: Seq<(u32, u64)>, number: nat, at: int, from: int)
    requires
        0 <= from <= at <= objects.len(),
        at < objects.len() ==> objects[at].0 == number,
        forall|i: int| from <= i < at ==> (#[trigger] objects[i]).0 != number,
    ensures
        object_index(objects, number, from) == at,
    decreases at - from,
{
    if from < at {
        lemma_first_place(objects, number, at, from + 1);
    }
}

/// Whether a document is encrypted, and which object is its catalog, is told by the
/// trailer that the end of the file leads to, whatever older ones say.
pub proof fn law_the_newest_trailer_counts(bytes: Seq<u8>)
    requires
        layout_of(bytes) is Some,
    ensures
        ({
            let layout = layout_of(bytes).unwrap();
            &&& startxref_of(bytes) matches Some(at)
            &&& section_at(bytes, at) matches Some(newest)
            &&& layout.encrypted == (lookup(newest.trailer, "Encrypt"@) is Some)
            &&& layout.catalog == (match reference_under(newest.trailer, "Root"@) {
                Some((number, _)) => Some(number),
                None => None,
            })
        }),
{
    let at = startxref_of(bytes).unwrap();
    law_a_chain_leads_back(bytes, at, MAX_SECTIONS as nat);
}

/// What the newest section lists comes first, as it stands there; so an object that it
/// lists is found where it says.
pub proof fn law_the_newest_section_comes_first(sections: Seq<Section>, n: nat)
    requires
        0 < n <= sections.len(),
    ensures
        sections[0].offsets.len() <= listed_objects(sections, n).len(),
        listed_objects(sections, n).take(sections[0].offsets.len() as int) == sections[0].offsets,
    decreases n,
{
    let older = sections[n - 1].offsets;
    let before = listed_objects(sections, (n - 1) as nat);
    let all = listed_objects(sections, n);
    if n > 1 {
        law_the_newest_section_comes_first(sections, (n - 1) as nat);
        let count = sections[0].offsets.len() as int;
        assert(all.take(count) =~= before.take(count));
    } else {
        lemma_unspoken_first(older, older.len(), sections);
        assert(older.take(older.len() as int) =~= older);
        assert(before =~= Seq::empty());
        assert(all =~= older);
        assert(all.take(older.len() as int) =~= older);
    }
}

} // verus!
