//! The revision that carries a signature: its objects, the placeholders in it,
//! and filling them in.

use crate::bytes::{
    find_from, first_occurrence, hex, lemma_hex_len, no_occurrence, occurs_at, push_hex,
    push_repeated, repeated, text_bytes, utf8,
};
use crate::pdfread::dictionary::{
    lookup, remove_entry, set_entry, take_entry, with_entry, without_key, Entries,
};
use crate::pdfwrite::error::PdfWriteError;
use crate::pdfwrite::laws::{lemma_objects_grow, lemma_places};
use crate::pdfwrite::object::{
    entry_values, item_values, lemma_container_values, PdfObject, PdfValue,
};
use crate::pdfwrite::section::Place;
use crate::pdfwrite::writer::{
    append_outcome, byte_range_bytes, numbered, open_outcome, overwrite, overwritten,
    BackPatchContext, IncrementalWriter, Numbered, Opened, PlaceholderOffsets, BYTE_RANGE_WIDTH,
};
use crate::sign::appearance::{
    apply_appearance_to_widget, build_appearance_xobject, reference_in, reference_to, with_appearance,
    xobject_bytes, Appearance, SignAppearance,
};
use crate::sign::cms_builder::{
    build_cms, cms_of, digest_algorithm_for, dry_run, estimate_cms_size, reservation,
    SigningProfile,
};
use crate::sign::credential::{Credential, CredentialFacts};
use crate::sign::dates::{moment_text, pdf_date};
use crate::sign::digest::{digest_of, digest_spans};
use crate::sign::document::{
    catalog_of, dictionary_of, find_catalog_ref, find_generation, first_page, first_page_object,
    form_of, generation_of, parse_object_dictionary, DocumentLayout, Layout,
};
use crate::sign::errors::{SigningError, SigningFault};
use crate::sign::mechanism::{mechanism_for, DigestAlgorithm};
use crate::sign::plan::{Plan, RevisionPlan};
use crate::sign::refusal::{reports, unsupported, Refusal, SignApplyError};
use crate::sign::request::SignRequest;
use crate::text::{owned, push_decimal, push_str};
use vstd::prelude::*;
use vstd::slice::slice_subrange;

verus! {

/// What a request says of the signature dictionary and what goes with it.
pub struct Wishes {
    pub profile: SigningProfile,
    pub signing_time: int,
    pub reason: Option<Seq<char>>,
    pub location: Option<Seq<char>>,
    pub contact: Option<Seq<char>>,
    pub id2: Seq<u8>,
    pub appearance: Option<Appearance>,
}

/// A text that may be missing.
pub open spec fn maybe(text: Option<String>) -> Option<Seq<char>> {
    match text {
        Some(text) => Some(text@),
        None => None,
    }
}

/// An appearance that may be missing.
pub open spec fn look(appearance: Option<SignAppearance>) -> Option<Appearance> {
    match appearance {
        Some(appearance) => Some(appearance@),
        None => None,
    }
}

impl SignRequest {
    /// What the request says of the signature dictionary and what goes with it.
    pub open spec fn wishes(self) -> Wishes {
        Wishes {
            profile: self.profile,
            signing_time: self.signing_time as int,
            reason: maybe(self.reason),
            location: maybe(self.location),
            contact: maybe(self.contact),
            id2: self.id2@,
            appearance: look(self.appearance),
        }
    }
}

/// The name of a profile in a signature dictionary.
pub open spec fn sub_filter(profile: SigningProfile) -> Seq<char> {
    match profile {
        SigningProfile::AdbePkcs7Detached => "adbe.pkcs7.detached"@,
        SigningProfile::EtsiCadesDetached => "ETSI.CAdES.detached"@,
    }
}

/// Entries, and one more where there is a text.
pub open spec fn with_text(entries: Entries, key: Seq<char>, text: Option<Seq<char>>) -> Entries {
    match text {
        Some(text) => entries.push((key, PdfValue::String(utf8(text)))),
        None => entries,
    }
}

/// The `/ByteRange` placeholder.
pub open spec fn byte_range_placeholder() -> Seq<u8> {
    utf8("[]"@) + repeated(32, 60)
}

/// The `/Contents` placeholder: room for this many hexadecimal digits.
pub open spec fn contents_placeholder(reserved: nat) -> Seq<u8> {
    utf8("<"@) + repeated(48, reserved) + utf8(">"@)
}

/// The signature dictionary with its placeholders. It holds no `/Name`: a
/// reader takes the name from the certificate.
#[verifier::opaque]
pub open spec fn signature_entries(wishes: Wishes, reserved: nat) -> Entries {
    let start = seq![
        ("Type"@, PdfValue::Name("Sig"@)),
        ("Filter"@, PdfValue::Name("Adobe.PPKLite"@)),
        ("SubFilter"@, PdfValue::Name(sub_filter(wishes.profile))),
        ("ByteRange"@, PdfValue::Raw(byte_range_placeholder())),
        ("Contents"@, PdfValue::Raw(contents_placeholder(reserved))),
        ("M"@, PdfValue::String(utf8(moment_text(wishes.signing_time)))),
    ];
    let texts = with_text(
        with_text(
            with_text(start, "Reason"@, wishes.reason),
            "Location"@,
            wishes.location,
        ),
        "ContactInfo"@,
        wishes.contact,
    );
    texts.push(
        (
            "Prop_Build"@,
            PdfValue::Dictionary(
                seq![("App"@, PdfValue::Dictionary(seq![("Name"@, PdfValue::Name("pulpit"@))]))],
            ),
        ),
    )
}

fn push_entry(entries: &mut Vec<(String, PdfObject)>, key: &str, value: PdfObject)
    ensures
        entry_values(final(entries)@) == entry_values(old(entries)@).push((key@, value@)),
{
    let ghost before = entry_values(entries@);
    entries.push((owned(key), value));
    assert(entry_values(entries@) =~= before.push((key@, value@)));
}

fn push_optional(entries: &mut Vec<(String, PdfObject)>, key: &str, text: &Option<String>)
    ensures
        entry_values(final(entries)@) == with_text(
            entry_values(old(entries)@),
            key@,
            maybe(*text),
        ),
{
    if let Some(text) = text {
        push_entry(entries, key, PdfObject::String(text_bytes(text.as_str())));
    }
}

fn dictionary_with(key: &str, value: PdfObject) -> (dictionary: PdfObject)
    ensures
        dictionary@ == PdfValue::Dictionary(seq![(key@, value@)]),
{
    let mut entries: Vec<(String, PdfObject)> = Vec::new();
    entries.push((owned(key), value));
    let dictionary = PdfObject::Dictionary(entries);
    proof {
        lemma_container_values(dictionary);
        assert(entry_values(entries@) =~= seq![(key@, value@)]);
    }
    dictionary
}

/// Builds the signature dictionary with its placeholders.
pub fn signature_dictionary(request: &SignRequest, bytes_reserved: usize) -> (dictionary: PdfObject)
    ensures
        dictionary@ == PdfValue::Dictionary(
            signature_entries(request.wishes(), bytes_reserved as nat),
        ),
{
    proof {
        reveal(signature_entries);
    }
    let mut byte_range = text_bytes("[]");
    push_repeated(&mut byte_range, 32, 60);
    let mut contents = text_bytes("<");
    push_repeated(&mut contents, 48, bytes_reserved);
    crate::bytes::push_text(&mut contents, ">");
    let filter = match request.profile {
        SigningProfile::AdbePkcs7Detached => owned("adbe.pkcs7.detached"),
        SigningProfile::EtsiCadesDetached => owned("ETSI.CAdES.detached"),
    };
    let date = pdf_date(request.signing_time);
    let mut entries: Vec<(String, PdfObject)> = Vec::new();
    assert(entry_values(entries@) =~= Seq::empty());
    push_entry(&mut entries, "Type", PdfObject::Name(owned("Sig")));
    push_entry(&mut entries, "Filter", PdfObject::Name(owned("Adobe.PPKLite")));
    push_entry(&mut entries, "SubFilter", PdfObject::Name(filter));
    push_entry(&mut entries, "ByteRange", PdfObject::Raw(byte_range));
    push_entry(&mut entries, "Contents", PdfObject::Raw(contents));
    push_entry(&mut entries, "M", PdfObject::String(text_bytes(date.as_str())));
    proof {
        assert(entry_values(entries@) =~= seq![
            ("Type"@, PdfValue::Name("Sig"@)),
            ("Filter"@, PdfValue::Name("Adobe.PPKLite"@)),
            ("SubFilter"@, PdfValue::Name(sub_filter(request.profile))),
            ("ByteRange"@, PdfValue::Raw(byte_range_placeholder())),
            ("Contents"@, PdfValue::Raw(contents_placeholder(bytes_reserved as nat))),
            ("M"@, PdfValue::String(utf8(moment_text(request.signing_time as int)))),
        ]);
    }
    push_optional(&mut entries, "Reason", &request.reason);
    push_optional(&mut entries, "Location", &request.location);
    push_optional(&mut entries, "ContactInfo", &request.contact);
    let name = dictionary_with("Name", PdfObject::Name(owned("pulpit")));
    let app = dictionary_with("App", name);
    push_entry(&mut entries, "Prop_Build", app);
    let dictionary = PdfObject::Dictionary(entries);
    proof {
        lemma_container_values(dictionary);
    }
    dictionary
}

/// A dictionary with one more reference in the array under a key. Anything else
/// that stood there is replaced.
pub open spec fn with_reference(entries: Entries, key: Seq<char>, number: nat) -> Entries {
    let items = match lookup(entries, key) {
        Some(PdfValue::Array(items)) => items,
        _ => Seq::empty(),
    };
    with_entry(entries, key, PdfValue::Array(items.push(reference_to(number))))
}

fn add_reference(entries: &mut Vec<(String, PdfObject)>, key: &str, number: u32)
    ensures
        entry_values(final(entries)@) == with_reference(
            entry_values(old(entries)@),
            key@,
            number as nat,
        ),
{
    let ghost before = entry_values(entries@);
    let mut items: Vec<PdfObject> = match take_entry(entries, key) {
        Some(object) => {
            proof {
                lemma_container_values(object);
            }
            match object {
                PdfObject::Array(items) => items,
                _ => Vec::new(),
            }
        },
        None => Vec::new(),
    };
    let ghost old_items = item_values(items@);
    proof {
        assert(items@.len() == 0 ==> old_items =~= Seq::empty());
    }
    items.push(PdfObject::IndirectRef { obj_num: number, gen_num: 0 });
    assert(item_values(items@) =~= old_items.push(reference_to(number as nat)));
    let array = PdfObject::Array(items);
    proof {
        lemma_container_values(array);
        crate::pdfread::dictionary::law_the_last_value_stays(
            before,
            key@,
            PdfValue::Null,
            array@,
        );
    }
    set_entry(entries, key, array);
}

/// The form of a document with one more field in it: signatures exist, the
/// document is only ever appended to, and readers are not told to draw the
/// fields anew.
pub open spec fn with_field(form: Entries, field: nat) -> Entries {
    without_key(
        with_entry(with_reference(form, "Fields"@, field), "SigFlags"@, PdfValue::Integer(3)),
        "NeedAppearances"@,
    )
}

fn add_field(form: Vec<(String, PdfObject)>, field: u32) -> (changed: Vec<(String, PdfObject)>)
    ensures
        entry_values(changed@) == with_field(entry_values(form@), field as nat),
{
    let mut form = form;
    add_reference(&mut form, "Fields", field);
    set_entry(&mut form, "SigFlags", PdfObject::Integer(3));
    remove_entry(form, "NeedAppearances")
}

/// A new field, which is its own widget: it has no size, is locked and is
/// printed. It names the page, which is of this generation.
pub open spec fn field_entries(
    name: Seq<char>,
    signature: nat,
    page: nat,
    generation: nat,
) -> Entries {
    seq![
        ("FT"@, PdfValue::Name("Sig"@)),
        ("T"@, PdfValue::String(utf8(name))),
        ("V"@, reference_to(signature)),
        ("Type"@, PdfValue::Name("Annot"@)),
        ("Subtype"@, PdfValue::Name("Widget"@)),
        (
            "Rect"@,
            PdfValue::Array(
                seq![
                    PdfValue::Integer(0),
                    PdfValue::Integer(0),
                    PdfValue::Integer(0),
                    PdfValue::Integer(0),
                ],
            ),
        ),
        ("F"@, PdfValue::Integer(132)),
        ("P"@, reference_in(page, generation)),
    ]
}

fn new_field(name: &str, signature: u32, page: u32, generation: u16) -> (entries: Vec<
    (String, PdfObject),
>)
    ensures
        entry_values(entries@) == field_entries(
            name@,
            signature as nat,
            page as nat,
            generation as nat,
        ),
{
    let mut corners: Vec<PdfObject> = Vec::new();
    corners.push(PdfObject::Integer(0));
    corners.push(PdfObject::Integer(0));
    corners.push(PdfObject::Integer(0));
    corners.push(PdfObject::Integer(0));
    let rect = PdfObject::Array(corners);
    proof {
        lemma_container_values(rect);
        assert(item_values(corners@) =~= seq![
            PdfValue::Integer(0),
            PdfValue::Integer(0),
            PdfValue::Integer(0),
            PdfValue::Integer(0),
        ]);
    }
    let mut entries: Vec<(String, PdfObject)> = Vec::new();
    assert(entry_values(entries@) =~= Seq::empty());
    push_entry(&mut entries, "FT", PdfObject::Name(owned("Sig")));
    push_entry(&mut entries, "T", PdfObject::String(text_bytes(name)));
    push_entry(&mut entries, "V", PdfObject::IndirectRef { obj_num: signature, gen_num: 0 });
    push_entry(&mut entries, "Type", PdfObject::Name(owned("Annot")));
    push_entry(&mut entries, "Subtype", PdfObject::Name(owned("Widget")));
    push_entry(&mut entries, "Rect", rect);
    push_entry(&mut entries, "F", PdfObject::Integer(132));
    push_entry(&mut entries, "P", PdfObject::IndirectRef { obj_num: page, gen_num: generation });
    assert(entry_values(entries@) =~= field_entries(
        name@,
        signature as nat,
        page as nat,
        generation as nat,
    ));
    entries
}

/// A widget with the appearance that was asked for, if one was.
pub open spec fn dressed(entries: Entries, appearance: Option<Appearance>, xobject: nat) -> Entries {
    match appearance {
        Some(appearance) => with_appearance(entries, appearance.rect, xobject),
        None => entries,
    }
}

fn dress(
    entries: Vec<(String, PdfObject)>,
    appearance: &Option<SignAppearance>,
    xobject: u32,
) -> (changed: Vec<(String, PdfObject)>)
    ensures
        entry_values(changed@) == dressed(
            entry_values(entries@),
            look(*appearance),
            xobject as nat,
        ),
{
    match appearance {
        Some(appearance) => apply_appearance_to_widget(entries, appearance, xobject),
        None => entries,
    }
}

/// An object of the first generation.
pub open spec fn fresh(number: nat, value: PdfValue) -> Numbered {
    (number as u32, 0u16, value)
}

/// An object that a document has already, with another value: it keeps its
/// generation, by which references find it.
pub open spec fn reissued(bytes: Seq<u8>, layout: Layout, number: nat, value: PdfValue) -> Numbered {
    (number as u32, generation_of(bytes, layout, number) as u16, value)
}

/// The objects that sign a field which is there: only the field changes.
#[verifier::opaque]
pub open spec fn existing_field_objects(
    bytes: Seq<u8>,
    layout: Layout,
    field: nat,
    appearance: Option<Appearance>,
    signature: nat,
    xobject: nat,
) -> Result<Seq<Numbered>, Refusal> {
    match dictionary_of(bytes, layout, field) {
        Err(refusal) => Err(refusal),
        Ok(entries) => Ok(
            seq![
                reissued(
                    bytes,
                    layout,
                    field,
                    PdfValue::Dictionary(
                        dressed(
                            with_entry(entries, "V"@, reference_to(signature)),
                            appearance,
                            xobject,
                        ),
                    ),
                ),
            ],
        ),
    }
}

/// The object number of the form: the one it has, or a new one.
pub open spec fn form_number(catalog: Entries, free: nat) -> nat {
    match lookup(catalog, "AcroForm"@) {
        Some(PdfValue::IndirectRef { obj_num, .. }) => obj_num,
        _ => free,
    }
}

/// The generation of the form: the one it has, or the first.
pub open spec fn form_generation(bytes: Seq<u8>, layout: Layout, catalog: Entries) -> nat {
    match lookup(catalog, "AcroForm"@) {
        Some(PdfValue::IndirectRef { obj_num, .. }) => generation_of(bytes, layout, obj_num),
        _ => 0,
    }
}

/// How many numbers a new field takes: its own, and one for the form where that
/// has none.
pub open spec fn field_numbers(catalog: Entries) -> nat {
    match lookup(catalog, "AcroForm"@) {
        Some(PdfValue::IndirectRef { .. }) => 1,
        _ => 2,
    }
}

/// The objects that sign a new field: the catalog, the form, the first page
/// and the field. The field takes the number `next`, and the form the one after
/// it where it has none. Of those that are there already, each keeps its
/// generation.
#[verifier::opaque]
pub open spec fn new_field_objects(
    bytes: Seq<u8>,
    layout: Layout,
    name: Seq<char>,
    appearance: Option<Appearance>,
    signature: nat,
    xobject: nat,
    next: nat,
) -> Result<Seq<Numbered>, Refusal> {
    match catalog_of(layout) {
        Err(refusal) => Err(refusal),
        Ok(catalog) => match dictionary_of(bytes, layout, catalog) {
            Err(refusal) => Err(refusal),
            Ok(entries) => match first_page(bytes, layout, entries) {
                Err(refusal) => Err(refusal),
                Ok(page) => match form_of(bytes, layout, entries) {
                    Err(refusal) => Err(refusal),
                    Ok(form) => match dictionary_of(bytes, layout, page) {
                        Err(refusal) => Err(refusal),
                        Ok(page_entries) => if next + field_numbers(entries) > u32::MAX {
                            Err(Refusal::NoNumbersLeft)
                        } else {
                            let number = form_number(entries, next + 1);
                            let generation = form_generation(bytes, layout, entries);
                            Ok(
                                seq![
                                    reissued(
                                        bytes,
                                        layout,
                                        catalog,
                                        PdfValue::Dictionary(
                                            with_entry(
                                                entries,
                                                "AcroForm"@,
                                                reference_in(number, generation),
                                            ),
                                        ),
                                    ),
                                    (
                                        number as u32,
                                        generation as u16,
                                        PdfValue::Dictionary(with_field(form, next)),
                                    ),
                                    reissued(
                                        bytes,
                                        layout,
                                        page,
                                        PdfValue::Dictionary(
                                            with_reference(page_entries, "Annots"@, next),
                                        ),
                                    ),
                                    fresh(
                                        next,
                                        PdfValue::Dictionary(
                                            dressed(
                                                field_entries(
                                                    name,
                                                    signature,
                                                    page,
                                                    generation_of(bytes, layout, page),
                                                ),
                                                appearance,
                                                xobject,
                                            ),
                                        ),
                                    ),
                                ],
                            )
                        },
                    },
                },
            },
        },
    }
}

/// Objects to be written, or how a refusal is reported.
pub open spec fn gives_objects(
    result: Result<Vec<(u32, u16, PdfObject)>, SignApplyError>,
    outcome: Result<Seq<Numbered>, Refusal>,
) -> bool {
    match outcome {
        Ok(objects) => result matches Ok(found) && numbered(found@) == objects,
        Err(refusal) => result matches Err(error) && reports(error, refusal),
    }
}

fn push_object(
    objects: &mut Vec<(u32, u16, PdfObject)>,
    number: u32,
    generation: u16,
    value: PdfObject,
)
    ensures
        numbered(final(objects)@) == numbered(old(objects)@).push((number, generation, value@)),
        final(objects)@.len() == old(objects)@.len() + 1,
{
    let ghost before = numbered(objects@);
    objects.push((number, generation, value));
    assert(numbered(objects@) =~= before.push((number, generation, value@)));
}

fn dictionary(entries: Vec<(String, PdfObject)>) -> (object: PdfObject)
    ensures
        object@ == PdfValue::Dictionary(entry_values(entries@)),
{
    let object = PdfObject::Dictionary(entries);
    proof {
        lemma_container_values(object);
    }
    object
}

fn sign_existing_field(
    source: &[u8],
    layout: &DocumentLayout,
    field: u32,
    appearance: &Option<SignAppearance>,
    signature: u32,
    xobject: u32,
) -> (objects: Result<Vec<(u32, u16, PdfObject)>, SignApplyError>)
    ensures
        gives_objects(
            objects,
            existing_field_objects(
                source@,
                layout@,
                field as nat,
                look(*appearance),
                signature as nat,
                xobject as nat,
            ),
        ),
        objects matches Ok(found) ==> found@.len() <= 4,
{
    proof {
        reveal(existing_field_objects);
    }
    let mut entries = match parse_object_dictionary(source, layout, field) {
        Ok(entries) => entries,
        Err(error) => return Err(error),
    };
    set_entry(&mut entries, "V", PdfObject::IndirectRef { obj_num: signature, gen_num: 0 });
    let entries = dress(entries, appearance, xobject);
    let mut objects: Vec<(u32, u16, PdfObject)> = Vec::new();
    assert(numbered(objects@) =~= Seq::empty());
    let generation = find_generation(source, layout, field);
    push_object(&mut objects, field, generation, dictionary(entries));
    proof {
        let expected = existing_field_objects(
            source@,
            layout@,
            field as nat,
            look(*appearance),
            signature as nat,
            xobject as nat,
        );
        assert(numbered(objects@) =~= expected->Ok_0);
    }
    Ok(objects)
}

#[verifier::rlimit(40)]
fn sign_new_field(
    source: &[u8],
    layout: &DocumentLayout,
    name: &str,
    appearance: &Option<SignAppearance>,
    signature: u32,
    xobject: u32,
    next: u32,
) -> (objects: Result<Vec<(u32, u16, PdfObject)>, SignApplyError>)
    ensures
        gives_objects(
            objects,
            new_field_objects(
                source@,
                layout@,
                name@,
                look(*appearance),
                signature as nat,
                xobject as nat,
                next as nat,
            ),
        ),
        objects matches Ok(found) ==> found@.len() <= 4,
{
    proof {
        reveal(new_field_objects);
    }
    let catalog = match find_catalog_ref(layout) {
        Ok(catalog) => catalog,
        Err(error) => return Err(error),
    };
    let mut catalog_entries = match parse_object_dictionary(source, layout, catalog) {
        Ok(entries) => entries,
        Err(error) => return Err(error),
    };
    let ghost entries = entry_values(catalog_entries@);
    let page = match first_page_object(source, layout, catalog_entries.as_slice()) {
        Ok(page) => page,
        Err(error) => return Err(error),
    };
    let (held, form): (Option<u32>, Vec<(String, PdfObject)>) = match take_entry(
        &mut catalog_entries,
        "AcroForm",
    ) {
        Some(object) => {
            proof {
                lemma_container_values(object);
            }
            match object {
                PdfObject::IndirectRef { obj_num, .. } => match parse_object_dictionary(
                    source,
                    layout,
                    obj_num,
                ) {
                    Ok(form) => (Some(obj_num), form),
                    Err(error) => return Err(error),
                },
                PdfObject::Dictionary(form) => (None, form),
                _ => (None, Vec::new()),
            }
        },
        None => (None, Vec::new()),
    };
    let mut page_entries = match parse_object_dictionary(source, layout, page) {
        Ok(entries) => entries,
        Err(error) => return Err(error),
    };
    let taken: u32 = match held {
        Some(_) => 1,
        None => 2,
    };
    if next > u32::MAX - taken {
        return Err(unsupported("the document has no object numbers left"));
    }
    let (number, generation): (u32, u16) = match held {
        Some(number) => (number, find_generation(source, layout, number)),
        None => (next + 1, 0),
    };
    proof {
        assert(form@.len() == 0 ==> entry_values(form@) =~= Seq::empty());
        crate::pdfread::dictionary::law_the_last_value_stays(
            entries,
            "AcroForm"@,
            PdfValue::Null,
            reference_in(number as nat, generation as nat),
        );
    }
    let form = add_field(form, next);
    set_entry(
        &mut catalog_entries,
        "AcroForm",
        PdfObject::IndirectRef { obj_num: number, gen_num: generation },
    );
    add_reference(&mut page_entries, "Annots", next);
    let page_generation = find_generation(source, layout, page);
    let field = dress(new_field(name, signature, page, page_generation), appearance, xobject);
    let mut objects: Vec<(u32, u16, PdfObject)> = Vec::new();
    assert(numbered(objects@) =~= Seq::empty());
    let catalog_generation = find_generation(source, layout, catalog);
    push_object(&mut objects, catalog, catalog_generation, dictionary(catalog_entries));
    push_object(&mut objects, number, generation, dictionary(form));
    push_object(&mut objects, page, page_generation, dictionary(page_entries));
    push_object(&mut objects, next, 0, dictionary(field));
    proof {
        let expected = new_field_objects(
            source@,
            layout@,
            name@,
            look(*appearance),
            signature as nat,
            xobject as nat,
            next as nat,
        );
        assert(numbered(objects@) =~= expected->Ok_0);
    }
    Ok(objects)
}

/// The first object, from `at` on, with a higher number, or the end.
pub open spec fn place_for(objects: Seq<Numbered>, number: u32, at: int) -> int
    decreases objects.len() - at,
{
    if at >= objects.len() || objects[at].0 > number {
        at
    } else {
        place_for(objects, number, at + 1)
    }
}

/// The first `n` objects, in the order of their numbers. Objects of one number
/// stay as they were.
pub open spec fn in_order(objects: Seq<Numbered>, n: nat) -> Seq<Numbered>
    decreases n,
{
    if n == 0 {
        Seq::empty()
    } else {
        let before = in_order(objects, (n - 1) as nat);
        before.insert(place_for(before, objects[n - 1].0, 0), objects[n - 1])
    }
}

proof fn lemma_place(objects: Seq<Numbered>, number: u32, at: int)
    requires
        0 <= at <= objects.len(),
    ensures
        at <= place_for(objects, number, at) <= objects.len(),
        forall|i: int| at <= i < place_for(objects, number, at) ==> (#[trigger] objects[i]).0
            <= number,
        place_for(objects, number, at) < objects.len() ==> objects[place_for(
            objects,
            number,
            at,
        )].0 > number,
    decreases objects.len() - at,
{
    if at < objects.len() && objects[at].0 <= number {
        lemma_place(objects, number, at + 1);
    }
}

/// Objects are written in the order of their numbers, and none is left out.
pub proof fn law_objects_are_in_order(objects: Seq<Numbered>, n: nat)
    requires
        n <= objects.len(),
    ensures
        in_order(objects, n).len() == n,
        in_order(objects, n).to_multiset() == objects.take(n as int).to_multiset(),
        forall|i: int, j: int|
            0 <= i <= j < n ==> (#[trigger] in_order(objects, n)[i]).0 <= (#[trigger] in_order(
                objects,
                n,
            )[j]).0,
    decreases n,
{
    broadcast use vstd::seq_lib::group_to_multiset_ensures;

    if n > 0 {
        let before = in_order(objects, (n - 1) as nat);
        let object = objects[n - 1];
        let at = place_for(before, object.0, 0);
        law_objects_are_in_order(objects, (n - 1) as nat);
        lemma_place(before, object.0, 0);
        assert(objects.take(n as int) =~= objects.take(n - 1).push(object));
        let after = before.insert(at, object);
        assert(after[at] == object);
        assert(after.remove(at) =~= before);
        assert(after.contains(object));
        assert(after.to_multiset() =~= before.to_multiset().insert(object));
    } else {
        assert(objects.take(0) =~= Seq::empty());
    }
}

/// Puts objects in the order of their numbers.
pub(crate) fn order_objects(objects: Vec<(u32, u16, PdfObject)>) -> (ordered: Vec<(u32, u16, PdfObject)>)
    ensures
        numbered(ordered@) == in_order(numbered(objects@), objects@.len()),
        ordered@.len() == objects@.len(),
{
    let ghost all = numbered(objects@);
    let count: usize = objects.len();
    let mut rest = objects;
    let mut ordered: Vec<(u32, u16, PdfObject)> = Vec::new();
    assert(numbered(ordered@) =~= Seq::empty());
    let mut i: usize = 0;
    while i < count
        invariant
            i <= count,
            count == all.len(),
            rest@.len() == count - i,
            ordered@.len() == i,
            numbered(rest@) == all.skip(i as int),
            numbered(ordered@) == in_order(all, i as nat),
        decreases count - i,
    {
        let ghost left = numbered(rest@);
        let ghost held = rest@;
        let ghost before = numbered(ordered@);
        let object = rest.remove(0);
        let ghost value = (object.0, object.1, object.2@);
        proof {
            assert(value == left[0]);
            assert forall|j: int| 0 <= j < rest@.len() implies #[trigger] numbered(rest@)[j]
                == all[i + 1 + j] by {
                assert(rest@[j] == held[j + 1]);
                assert(left[j + 1] == all.skip(i as int)[j + 1]);
            }
            assert(numbered(rest@) =~= all.skip(i + 1));
        }
        let number: u32 = object.0;
        let mut at: usize = 0;
        while at < ordered.len() && ordered[at].0 <= number
            invariant
                at <= ordered@.len(),
                before == numbered(ordered@),
                place_for(before, number, at as int) == place_for(before, number, 0),
            decreases ordered@.len() - at,
        {
            at += 1;
        }
        ordered.insert(at, object);
        assert(numbered(ordered@) =~= before.insert(at as int, value));
        i += 1;
    }
    ordered
}

/// The first place, from `from` on, where a byte string stands in another.
pub open spec fn place_of(haystack: Seq<u8>, needle: Seq<u8>, from: int) -> Option<int>
    decreases haystack.len() - from,
{
    if from >= haystack.len() {
        None
    } else if occurs_at(haystack, needle, from) {
        Some(from)
    } else {
        place_of(haystack, needle, from + 1)
    }
}

proof fn lemma_place_of(haystack: Seq<u8>, needle: Seq<u8>, from: int)
    requires
        0 <= from <= haystack.len(),
        needle.len() > 0,
    ensures
        match place_of(haystack, needle, from) {
            Some(at) => first_occurrence(haystack, needle, from, at),
            None => no_occurrence(haystack, needle, from),
        },
    decreases haystack.len() - from,
{
    if from < haystack.len() && !occurs_at(haystack, needle, from) {
        lemma_place_of(haystack, needle, from + 1);
    }
}

/// Where the placeholders of a signature stand in a document, looked for from
/// `from` on.
#[verifier::opaque]
pub open spec fn placeholders_in(bytes: Seq<u8>, from: nat, reserved: nat) -> Result<
    PlaceholderOffsets,
    Refusal,
> {
    let range_key = utf8("/ByteRange ["@);
    let contents_key = utf8("/Contents <"@);
    match place_of(bytes, range_key, from as int) {
        None => Err(Refusal::ByteRangeMissing),
        Some(range_place) => {
            let range_start = range_place + range_key.len() - 1;
            if range_start + BYTE_RANGE_WIDTH > bytes.len() {
                Err(Refusal::ByteRangeMissing)
            } else {
                match place_of(bytes, contents_key, from as int) {
                    None => Err(Refusal::ContentsMissing),
                    Some(contents_place) => {
                        let start = contents_place + contents_key.len() - 1;
                        let end = start + reserved + 2;
                        if reserved % 2 != 0 {
                            Err(Refusal::OddReservation(reserved))
                        } else if end > bytes.len() || bytes[end - 1] != 62 {
                            Err(Refusal::ReservationMoved)
                        } else {
                            Ok(
                                PlaceholderOffsets {
                                    byterange_start: range_start as u64,
                                    sig_start: start as u64,
                                    sig_end: end as u64,
                                    bytes_reserved: reserved as usize,
                                },
                            )
                        }
                    },
                }
            }
        },
    }
}

fn find_place(haystack: &[u8], needle: &[u8], from: usize) -> (found: Option<usize>)
    requires
        from <= haystack@.len(),
        needle@.len() > 0,
    ensures
        found matches Some(at) ==> place_of(haystack@, needle@, from as int) == Some(at as int)
            && from <= at && at + needle@.len() <= haystack@.len(),
        found is None ==> place_of(haystack@, needle@, from as int) is None,
{
    let found = find_from(haystack, needle, from);
    proof {
        lemma_place_of(haystack@, needle@, from as int);
        if let Some(at) = found {
            if let Some(other) = place_of(haystack@, needle@, from as int) {
                if at < other {
                    assert(!occurs_at(haystack@, needle@, at as int));
                }
                if other < at {
                    assert(!occurs_at(haystack@, needle@, other));
                }
            } else {
                assert(!occurs_at(haystack@, needle@, at as int));
            }
        } else if let Some(other) = place_of(haystack@, needle@, from as int) {
            assert(!occurs_at(haystack@, needle@, other));
        }
    }
    found
}

/// Finds the placeholders of a signature. They stand once each in the appended
/// revision, which is everything from `search_from` on.
pub fn locate_placeholders(bytes: &[u8], search_from: usize, bytes_reserved: usize) -> (offsets: Result<
    PlaceholderOffsets,
    SignApplyError,
>)
    requires
        search_from <= bytes@.len(),
    ensures
        match placeholders_in(bytes@, search_from as nat, bytes_reserved as nat) {
            Ok(found) => offsets == Ok::<PlaceholderOffsets, SignApplyError>(found),
            Err(refusal) => offsets matches Err(error) && reports(error, refusal),
        },
{
    proof {
        reveal(placeholders_in);
    }
    let length: usize = bytes.len();
    let range_key = text_bytes("/ByteRange [");
    let contents_key = text_bytes("/Contents <");
    proof {
        reveal_strlit("/ByteRange [");
        reveal_strlit("/Contents <");
        vstd::utf8::is_ascii_chars_encode_utf8("/ByteRange ["@);
        vstd::utf8::is_ascii_chars_encode_utf8("/Contents <"@);
    }
    let range_start: usize = match find_place(bytes, range_key.as_slice(), search_from) {
        Some(at) => at + (range_key.len() - 1),
        None => return Err(unsupported("the /ByteRange placeholder went missing")),
    };
    if length - range_start < BYTE_RANGE_WIDTH {
        return Err(unsupported("the /ByteRange placeholder went missing"));
    }
    let sig_start: usize = match find_place(bytes, contents_key.as_slice(), search_from) {
        Some(at) => at + (contents_key.len() - 1),
        None => return Err(unsupported("the /Contents placeholder went missing")),
    };
    if bytes_reserved % 2 != 0 {
        return Err(SignApplyError::Write(PdfWriteError::OddReservationSize(bytes_reserved)));
    }
    let room: usize = length - sig_start;
    if room < 2 || room - 2 < bytes_reserved {
        return Err(unsupported("the /Contents reservation is not the size it was written at"));
    }
    let sig_end: usize = sig_start + bytes_reserved + 2;
    if bytes[sig_end - 1] != 62 {
        return Err(unsupported("the /Contents reservation is not the size it was written at"));
    }
    Ok(
        PlaceholderOffsets {
            byterange_start: range_start as u64,
            sig_start: sig_start as u64,
            sig_end: sig_end as u64,
            bytes_reserved,
        },
    )
}

/// How many object numbers a signature takes before its field: its own, and one
/// for its appearance.
pub open spec fn signature_numbers(wishes: Wishes) -> nat {
    if wishes.appearance is Some {
        2
    } else {
        1
    }
}

/// Where the last object of a number stands among these, or `otherwise`.
pub open spec fn place_under(places: Seq<Place>, number: nat, otherwise: nat) -> nat
    decreases places.len(),
{
    if places.len() == 0 {
        otherwise
    } else if places.last().0 == number {
        places.last().2 as nat
    } else {
        place_under(places.drop_last(), number, otherwise)
    }
}

fn find_place_under(places: &[Place], number: u32, otherwise: u64) -> (at: u64)
    ensures
        at == place_under(places@, number as nat, otherwise as nat),
{
    let mut n: usize = places.len();
    assert(places@.take(n as int) =~= places@);
    while n > 0
        invariant
            n <= places@.len(),
            place_under(places@.take(n as int), number as nat, otherwise as nat) == place_under(
                places@,
                number as nat,
                otherwise as nat,
            ),
        decreases n,
    {
        assert(places@.take(n as int).drop_last() =~= places@.take(n - 1));
        if places[n - 1].0 == number {
            return places[n - 1].2;
        }
        n -= 1;
    }
    otherwise
}

/// An object of an update stands behind the file, within the updated one.
pub proof fn law_an_update_places_its_objects(
    file: Opened,
    objects: Seq<Numbered>,
    second: Seq<u8>,
    number: nat,
)
    ensures
        append_outcome(file, 0, objects, second) matches Ok((bytes, places)) ==> bytes.len()
            <= u64::MAX ==> file.original.len() <= place_under(
            places,
            number,
            file.original.len(),
        ) <= bytes.len(),
{
    if let Ok((bytes, places)) = append_outcome(file, 0, objects, second) {
        if bytes.len() <= u64::MAX {
            assert forall|i: int| 0 <= i < places.len() implies file.original.len() <= (
            #[trigger] places[i]).2 <= bytes.len() by {
                let n = objects.len();
                if n > 0 {
                    lemma_places(objects, file.original.len(), n, 0);
                    lemma_places(objects, file.original.len(), n, i);
                    lemma_objects_grow(objects, i as nat, n);
                }
            }
            lemma_place_under(places, number, file.original.len(), bytes.len());
        }
    }
}

proof fn lemma_place_under(places: Seq<Place>, number: nat, least: nat, most: nat)
    requires
        least <= most,
        forall|i: int| 0 <= i < places.len() ==> least <= (#[trigger] places[i]).2 <= most,
    ensures
        least <= place_under(places, number, least) <= most,
    decreases places.len(),
{
    if places.len() > 0 {
        let before = places.drop_last();
        assert forall|i: int| 0 <= i < before.len() implies least <= (#[trigger] before[i]).2
            <= most by {
            assert(before[i] == places[i]);
        }
        lemma_place_under(before, number, least, most);
        assert(least <= places[places.len() - 1].2 <= most);
    }
}

/// The objects of a revision: those that sign the field, the appearance if
/// there is one, and the signature. The signature takes the number `first`, and
/// the appearance the one after it.
#[verifier::opaque]
pub open spec fn revision_objects(
    bytes: Seq<u8>,
    layout: Layout,
    wishes: Wishes,
    plan: Plan,
    reserved: nat,
    first: nat,
) -> Result<Seq<Numbered>, Refusal> {
    let xobject = first + 1;
    let next = if wishes.appearance is Some {
        first + 2
    } else {
        first + 1
    };
    let signing = match plan.existing_field {
        Some(field) => existing_field_objects(
            bytes,
            layout,
            field,
            wishes.appearance,
            first,
            xobject,
        ),
        None => new_field_objects(
            bytes,
            layout,
            plan.field_name,
            wishes.appearance,
            first,
            xobject,
            next,
        ),
    };
    match signing {
        Err(refusal) => Err(refusal),
        Ok(objects) => {
            let drawn = match wishes.appearance {
                Some(appearance) => objects.push(
                    fresh(xobject, PdfValue::Raw(xobject_bytes(appearance))),
                ),
                None => objects,
            };
            Ok(
                drawn.push(
                    fresh(first, PdfValue::Dictionary(signature_entries(wishes, reserved))),
                ),
            )
        },
    }
}

/// A document with its new revision, and where the placeholders stand in it:
/// they are looked for where the signature stands, whatever else the revision
/// holds.
#[verifier::opaque]
pub open spec fn assembled_revision(
    bytes: Seq<u8>,
    layout: Layout,
    wishes: Wishes,
    plan: Plan,
    reserved: nat,
) -> Result<(Seq<u8>, PlaceholderOffsets), Refusal> {
    match open_outcome(bytes) {
        Err(refusal) => Err(Refusal::Open(refusal)),
        Ok(file) => if wishes.appearance is Some && wishes.appearance->0.page_index != 0 {
            Err(Refusal::OtherPage(wishes.appearance->0.page_index))
        } else if file.next_object_number + signature_numbers(wishes) > u32::MAX {
            Err(Refusal::NoNumbersLeft)
        } else {
            match revision_objects(
                bytes,
                layout,
                wishes,
                plan,
                reserved,
                file.next_object_number,
            ) {
                Err(refusal) => Err(refusal),
                Ok(objects) => match append_outcome(
                    file,
                    0,
                    in_order(objects, objects.len()),
                    wishes.id2,
                ) {
                    Err(refusal) => Err(Refusal::Append(refusal)),
                    Ok((output, places)) => match placeholders_in(
                        output,
                        place_under(places, file.next_object_number, bytes.len()),
                        reserved,
                    ) {
                        Err(refusal) => Err(refusal),
                        Ok(offsets) => Ok((output, offsets)),
                    },
                },
            }
        },
    }
}

/// A document with its placeholders still to be filled in.
#[derive(Debug)]
pub struct Assembled {
    pub bytes: Vec<u8>,
    pub offsets: PlaceholderOffsets,
}

fn collect_objects(
    source: &[u8],
    layout: &DocumentLayout,
    request: &SignRequest,
    plan: &RevisionPlan,
    bytes_reserved: usize,
    first: u32,
) -> (objects: Result<Vec<(u32, u16, PdfObject)>, SignApplyError>)
    requires
        first + signature_numbers(request.wishes()) <= u32::MAX,
    ensures
        gives_objects(
            objects,
            revision_objects(
                source@,
                layout@,
                request.wishes(),
                plan@,
                bytes_reserved as nat,
                first as nat,
            ),
        ),
        objects matches Ok(found) ==> found@.len() <= 6,
{
    proof {
        reveal(revision_objects);
    }
    let xobject: u32 = first + 1;
    let next: u32 = if request.appearance.is_some() {
        first + 2
    } else {
        first + 1
    };
    let signing = match plan.existing_field {
        Some(field) => sign_existing_field(
            source,
            layout,
            field,
            &request.appearance,
            first,
            xobject,
        ),
        None => sign_new_field(
            source,
            layout,
            plan.field_name.as_str(),
            &request.appearance,
            first,
            xobject,
            next,
        ),
    };
    let mut objects = match signing {
        Ok(objects) => objects,
        Err(error) => return Err(error),
    };
    if let Some(appearance) = &request.appearance {
        push_object(
            &mut objects,
            xobject,
            0,
            PdfObject::Raw(build_appearance_xobject(appearance)),
        );
    }
    push_object(&mut objects, first, 0, signature_dictionary(request, bytes_reserved));
    Ok(objects)
}

/// Appends the revision that carries a signature, with its placeholders.
pub fn assemble_revision(
    source: &[u8],
    layout: &DocumentLayout,
    request: &SignRequest,
    plan: &RevisionPlan,
    bytes_reserved: usize,
) -> (assembled: Result<Assembled, SignApplyError>)
    ensures
        match assembled_revision(
            source@,
            layout@,
            request.wishes(),
            plan@,
            bytes_reserved as nat,
        ) {
            Ok((bytes, offsets)) => assembled matches Ok(found) && found.bytes@ == bytes
                && found.offsets == offsets,
            Err(refusal) => assembled matches Err(error) && reports(error, refusal),
        },
{
    proof {
        reveal(assembled_revision);
    }
    let writer = match IncrementalWriter::open(source) {
        Ok(writer) => writer,
        Err(error) => return Err(SignApplyError::Write(error)),
    };
    if let Some(appearance) = &request.appearance {
        if appearance.page_index != 0 {
            let mut detail = owned("signature appearance requested on page_index ");
            push_decimal(&mut detail, appearance.page_index as u64);
            push_str(
                &mut detail,
                ", but only page_index 0 is currently supported for visible signature appearances",
            );
            return Err(SignApplyError::Unsupported(detail));
        }
    }
    let first: u32 = writer.next_object_number();
    let taken: u32 = if request.appearance.is_some() {
        2
    } else {
        1
    };
    if first > u32::MAX - taken {
        return Err(unsupported("the document has no object numbers left"));
    }
    let objects = match collect_objects(source, layout, request, plan, bytes_reserved, first) {
        Ok(objects) => objects,
        Err(error) => return Err(error),
    };
    let ordered = order_objects(objects);
    let mut bytes: Vec<u8> = Vec::new();
    let ghost empty = bytes@;
    let places = match writer.append_objects(
        &mut bytes,
        ordered.as_slice(),
        request.id2.as_slice(),
    ) {
        Ok(places) => places,
        Err(error) => return Err(SignApplyError::Write(error)),
    };
    let length: usize = bytes.len();
    let place: u64 = find_place_under(places.as_slice(), first, source.len() as u64);
    proof {
        let outcome = append_outcome(
            open_outcome(source@)->Ok_0,
            0,
            numbered(ordered@),
            request.id2@,
        );
        let output = outcome->Ok_0.0;
        assert(bytes@ == empty + output);
        assert(bytes@ =~= output);
        crate::pdfwrite::laws::law_update_keeps_the_file(
            open_outcome(source@)->Ok_0,
            0,
            numbered(ordered@),
            request.id2@,
        );
        law_an_update_places_its_objects(
            open_outcome(source@)->Ok_0,
            numbered(ordered@),
            request.id2@,
            first as nat,
        );
    }
    let offsets = match locate_placeholders(bytes.as_slice(), place as usize, bytes_reserved) {
        Ok(offsets) => offsets,
        Err(error) => return Err(error),
    };
    Ok(Assembled { bytes, offsets })
}

/// The digest of everything but the reservation.
pub open spec fn document_digest(
    bytes: Seq<u8>,
    offsets: PlaceholderOffsets,
    algorithm: DigestAlgorithm,
) -> Seq<u8> {
    digest_of(
        algorithm,
        bytes.take(offsets.sig_start as int) + bytes.skip(offsets.sig_end as int),
    )
}

/// A document whose `/ByteRange` is filled in, or the width that it would need.
pub open spec fn with_range(bytes: Seq<u8>, offsets: PlaceholderOffsets) -> Result<Seq<u8>, nat> {
    let range = byte_range_bytes(
        offsets.sig_start as nat,
        offsets.sig_end as nat,
        (bytes.len() - offsets.sig_end) as nat,
    );
    if range.len() > BYTE_RANGE_WIDTH {
        Err(range.len())
    } else {
        Ok(
            overwritten(
                bytes,
                offsets.byterange_start as nat,
                range + repeated(32, (BYTE_RANGE_WIDTH - range.len()) as nat),
            ),
        )
    }
}

/// A document whose reservation holds a signature. Digits that are left over
/// stay as they are.
pub open spec fn filled(bytes: Seq<u8>, offsets: PlaceholderOffsets, cms: Seq<u8>) -> Seq<u8> {
    overwritten(bytes, (offsets.sig_start + 1) as nat, hex(cms))
}

/// A document that is signed: `/ByteRange` is filled in first, then the digest
/// is taken, then the signature is made and written.
pub open spec fn signed_document(
    bytes: Seq<u8>,
    offsets: PlaceholderOffsets,
    credential: CredentialFacts,
    profile: SigningProfile,
    signing_time: i64,
    algorithm: DigestAlgorithm,
) -> Result<(Seq<u8>, nat), Refusal> {
    match with_range(bytes, offsets) {
        Err(width) => Err(Refusal::RangeTooWide(width)),
        Ok(ranged) => match cms_of(
            credential,
            document_digest(ranged, offsets, algorithm),
            profile,
            false,
            None,
            Some(signing_time),
        ) {
            Err(fault) => Err(Refusal::Signing(fault)),
            Ok(cms) => if 2 * cms.len() > offsets.bytes_reserved {
                Err(
                    Refusal::Signing(
                        SigningFault::SignatureTooLarge {
                            reserved: offsets.bytes_reserved as nat,
                            required: if 2 * cms.len() <= usize::MAX {
                                2 * cms.len()
                            } else {
                                usize::MAX as nat
                            },
                        },
                    ),
                )
            } else {
                Ok((filled(ranged, offsets, cms), cms.len()))
            },
        },
    }
}

/// The placeholders stand within a document, and none overlaps the other's
/// place.
pub open spec fn placeholders_fit(bytes: Seq<u8>, offsets: PlaceholderOffsets) -> bool {
    &&& offsets.byterange_start + BYTE_RANGE_WIDTH <= bytes.len()
    &&& offsets.sig_start + offsets.bytes_reserved + 2 == offsets.sig_end
    &&& offsets.sig_end <= bytes.len()
    &&& offsets.bytes_reserved % 2 == 0
}

/// The placeholders of an assembled revision stand within it, behind the
/// document that it extends.
pub proof fn law_placeholders_fit(bytes: Seq<u8>, from: nat, reserved: nat)
    requires
        from <= bytes.len() <= usize::MAX,
        reserved <= usize::MAX,
    ensures
        placeholders_in(bytes, from, reserved) matches Ok(offsets) ==> {
            &&& placeholders_fit(bytes, offsets)
            &&& offsets.bytes_reserved == reserved
            &&& from <= offsets.byterange_start
            &&& from <= offsets.sig_start
        },
{
    reveal(placeholders_in);
    reveal_strlit("/ByteRange [");
    reveal_strlit("/Contents <");
    vstd::utf8::is_ascii_chars_encode_utf8("/ByteRange ["@);
    vstd::utf8::is_ascii_chars_encode_utf8("/Contents <"@);
    lemma_place_of(bytes, utf8("/ByteRange ["@), from as int);
    lemma_place_of(bytes, utf8("/Contents <"@), from as int);
}

/// A document that is signed, and how many bytes its signature has; or how the
/// refusal is reported.
pub open spec fn gives_document(
    result: Result<(Vec<u8>, usize), SignApplyError>,
    outcome: Result<(Seq<u8>, nat), Refusal>,
) -> bool {
    match outcome {
        Ok((bytes, length)) => result matches Ok((found, cms_len)) && found@ == bytes && cms_len
            == length,
        Err(refusal) => result matches Err(error) && reports(error, refusal),
    }
}

/// Signs an assembled document.
pub fn sign_assembled(
    assembled: Assembled,
    credential: &Credential,
    request: &SignRequest,
    digest_algorithm: DigestAlgorithm,
) -> (signed: Result<(Vec<u8>, usize), SignApplyError>)
    requires
        placeholders_fit(assembled.bytes@, assembled.offsets),
    ensures
        gives_document(
            signed,
            signed_document(
                assembled.bytes@,
                assembled.offsets,
                credential@,
                request.profile,
                request.signing_time,
                digest_algorithm,
            ),
        ),
{
    let offsets = assembled.offsets;
    let mut bytes = assembled.bytes;
    let ghost before = bytes@;
    let eof: u64 = bytes.len() as u64;
    let context = BackPatchContext {
        byterange_start: offsets.byterange_start,
        sig_start: offsets.sig_start,
        sig_end: offsets.sig_end,
    };
    match context.finish(eof, &mut bytes) {
        Ok(()) => {},
        Err(error) => return Err(SignApplyError::Write(error)),
    }
    let ghost ranged = bytes@;
    assert(ranged.len() == before.len());
    let sig_start: usize = offsets.sig_start as usize;
    let sig_end: usize = offsets.sig_end as usize;
    let first = slice_subrange(bytes.as_slice(), 0, sig_start);
    let second = slice_subrange(bytes.as_slice(), sig_end, bytes.len());
    proof {
        assert(first@ =~= ranged.take(sig_start as int));
        assert(second@ =~= ranged.skip(sig_end as int));
    }
    let digest = digest_spans(digest_algorithm, first, second);
    let cms = match build_cms(
        credential,
        digest.as_slice(),
        request.profile,
        false,
        None,
        Some(request.signing_time),
    ) {
        Ok(cms) => cms,
        Err(error) => return Err(SignApplyError::Signing(error)),
    };
    let length: usize = cms.len();
    if length > offsets.bytes_reserved / 2 {
        let required: usize = if length <= usize::MAX / 2 {
            2 * length
        } else {
            usize::MAX
        };
        return Err(
            SignApplyError::Signing(
                SigningError::SignatureTooLarge { reserved: offsets.bytes_reserved, required },
            ),
        );
    }
    let mut digits: Vec<u8> = Vec::new();
    push_hex(&mut digits, cms.as_slice());
    proof {
        lemma_hex_len(cms@);
        assert(digits@ =~= hex(cms@));
    }
    overwrite(&mut bytes, sig_start + 1, digits.as_slice());
    Ok((bytes, length))
}

/// A signed document, what was reserved for its signature, and what it took.
#[derive(Debug)]
pub struct Candidate {
    pub bytes: Vec<u8>,
    pub cms_len: usize,
    pub bytes_reserved: usize,
    pub attempts: usize,
}

/// A signed document, by its value.
pub struct Signed {
    pub bytes: Seq<u8>,
    pub cms_len: nat,
    pub reserved: nat,
    pub attempts: nat,
}

impl View for Candidate {
    type V = Signed;

    open spec fn view(&self) -> Signed {
        Signed {
            bytes: self.bytes@,
            cms_len: self.cms_len as nat,
            reserved: self.bytes_reserved as nat,
            attempts: self.attempts as nat,
        }
    }
}

/// One attempt to sign, with this much reserved.
pub open spec fn attempt(
    bytes: Seq<u8>,
    layout: Layout,
    request: SignRequest,
    plan: Plan,
    credential: CredentialFacts,
    algorithm: DigestAlgorithm,
    reserved: nat,
) -> Result<(Seq<u8>, nat), Refusal> {
    match assembled_revision(bytes, layout, request.wishes(), plan, reserved) {
        Err(refusal) => Err(refusal),
        Ok((output, offsets)) => signed_document(
            output,
            offsets,
            credential,
            request.profile,
            request.signing_time,
            algorithm,
        ),
    }
}

/// Did the signature not fit what was reserved?
pub open spec fn is_too_large(refusal: Refusal) -> bool {
    refusal matches Refusal::Signing(fault) && fault is SignatureTooLarge
}

/// What signing with this much reserved comes to: a signature that does not fit
/// is tried once more with twice the room.
pub open spec fn candidate_with(
    bytes: Seq<u8>,
    layout: Layout,
    request: SignRequest,
    plan: Plan,
    credential: CredentialFacts,
    algorithm: DigestAlgorithm,
    reserved: nat,
) -> Result<Signed, Refusal> {
    match attempt(bytes, layout, request, plan, credential, algorithm, reserved) {
        Ok((output, length)) => Ok(
            Signed { bytes: output, cms_len: length, reserved, attempts: 1 },
        ),
        Err(refusal) => if is_too_large(refusal) && 2 * reserved <= usize::MAX {
            match attempt(
                bytes,
                layout,
                request,
                plan,
                credential,
                algorithm,
                2 * reserved,
            ) {
                Ok((output, length)) => Ok(
                    Signed { bytes: output, cms_len: length, reserved: 2 * reserved, attempts: 2 },
                ),
                Err(refusal) => Err(refusal),
            }
        } else {
            Err(refusal)
        },
    }
}

/// How much is reserved for the signature of a request.
pub open spec fn first_reservation(credential: CredentialFacts, request: SignRequest) -> Result<
    (DigestAlgorithm, nat),
    Refusal,
> {
    match mechanism_for(credential.key_info, None) {
        Err(fault) => Err(Refusal::Signing(fault)),
        Ok(mechanism) => match dry_run(
            credential,
            mechanism.digest().length(),
            request.profile,
            false,
            Some(request.signing_time),
        ) {
            Err(fault) => Err(Refusal::Signing(fault)),
            Ok(cms) => if cms.len() <= usize::MAX / 3 {
                Ok((mechanism.digest(), reservation(cms.len(), request.tight_size_estimates)))
            } else {
                Err(
                    Refusal::Signing(
                        SigningFault::CmsConstructionFailed(
                            "the signature is too large to reserve"@,
                        ),
                    ),
                )
            },
        },
    }
}

/// What signing a document comes to.
pub open spec fn candidate_of(
    bytes: Seq<u8>,
    layout: Layout,
    request: SignRequest,
    plan: Plan,
    credential: CredentialFacts,
) -> Result<Signed, Refusal> {
    match first_reservation(credential, request) {
        Err(refusal) => Err(refusal),
        Ok((algorithm, reserved)) => candidate_with(
            bytes,
            layout,
            request,
            plan,
            credential,
            algorithm,
            reserved,
        ),
    }
}

fn try_to_sign(
    source: &[u8],
    layout: &DocumentLayout,
    request: &SignRequest,
    plan: &RevisionPlan,
    credential: &Credential,
    digest_algorithm: DigestAlgorithm,
    bytes_reserved: usize,
) -> (signed: Result<(Vec<u8>, usize), SignApplyError>)
    ensures
        gives_document(
            signed,
            attempt(
                source@,
                layout@,
                *request,
                plan@,
                credential@,
                digest_algorithm,
                bytes_reserved as nat,
            ),
        ),
{
    let assembled = match assemble_revision(source, layout, request, plan, bytes_reserved) {
        Ok(assembled) => assembled,
        Err(error) => return Err(error),
    };
    let length: usize = assembled.bytes.len();
    proof {
        lemma_assembled_fits(
            source@,
            layout@,
            request.wishes(),
            plan@,
            bytes_reserved as nat,
        );
    }
    sign_assembled(assembled, credential, request, digest_algorithm)
}

proof fn lemma_assembled_fits(
    bytes: Seq<u8>,
    layout: Layout,
    wishes: Wishes,
    plan: Plan,
    reserved: nat,
)
    requires
        reserved <= usize::MAX,
    ensures
        assembled_revision(bytes, layout, wishes, plan, reserved) matches Ok((output, offsets))
            ==> output.len() <= usize::MAX ==> placeholders_fit(output, offsets),
{
    reveal(assembled_revision);
    if let Ok((output, offsets)) = assembled_revision(bytes, layout, wishes, plan, reserved) {
        let file = open_outcome(bytes)->Ok_0;
        let objects = revision_objects(
            bytes,
            layout,
            wishes,
            plan,
            reserved,
            file.next_object_number,
        )->Ok_0;
        crate::pdfwrite::laws::law_update_keeps_the_file(
            file,
            0,
            in_order(objects, objects.len()),
            wishes.id2,
        );
        if output.len() <= usize::MAX {
            let ordered = in_order(objects, objects.len());
            let places = append_outcome(file, 0, ordered, wishes.id2)->Ok_0.1;
            law_an_update_places_its_objects(file, ordered, wishes.id2, file.next_object_number);
            let place = place_under(places, file.next_object_number, bytes.len());
            law_placeholders_fit(output, place, reserved);
        }
    }
}

/// Signs a document: reserves room, assembles the revision and signs it, and
/// does so once more with twice the room where the signature did not fit.
pub fn sign_document(
    source: &[u8],
    layout: &DocumentLayout,
    request: &SignRequest,
    plan: &RevisionPlan,
    credential: &Credential,
) -> (candidate: Result<Candidate, SignApplyError>)
    ensures
        match candidate_of(source@, layout@, *request, plan@, credential@) {
            Ok(signed) => candidate matches Ok(found) && found@ == signed,
            Err(refusal) => candidate matches Err(error) && reports(error, refusal),
        },
{
    let digest_algorithm = match digest_algorithm_for(credential) {
        Ok(algorithm) => algorithm,
        Err(error) => return Err(SignApplyError::Signing(error)),
    };
    let mut zeros: Vec<u8> = Vec::new();
    push_repeated(&mut zeros, 0, digest_algorithm.hash_len());
    let reserved: usize = match estimate_cms_size(
        credential,
        zeros.as_slice(),
        request.profile,
        false,
        request.tight_size_estimates,
        Some(request.signing_time),
    ) {
        Ok(reserved) => reserved,
        Err(error) => return Err(SignApplyError::Signing(error)),
    };
    match try_to_sign(source, layout, request, plan, credential, digest_algorithm, reserved) {
        Ok((bytes, cms_len)) => Ok(
            Candidate { bytes, cms_len, bytes_reserved: reserved, attempts: 1 },
        ),
        Err(SignApplyError::Signing(SigningError::SignatureTooLarge { reserved: held, required }))
            if reserved <= usize::MAX / 2 => {
            match try_to_sign(
                source,
                layout,
                request,
                plan,
                credential,
                digest_algorithm,
                2 * reserved,
            ) {
                Ok((bytes, cms_len)) => Ok(
                    Candidate { bytes, cms_len, bytes_reserved: 2 * reserved, attempts: 2 },
                ),
                Err(error) => Err(error),
            }
        },
        Err(error) => Err(error),
    }
}

/// What signing comes to is what the attempt that it counts came to: the first, or,
/// where the signature of that did not fit, a second with twice the room.
pub proof fn law_signing_is_tried_at_most_twice(
    bytes: Seq<u8>,
    layout: Layout,
    request: SignRequest,
    plan: Plan,
    credential: CredentialFacts,
    algorithm: DigestAlgorithm,
    reserved: nat,
)
    ensures
        candidate_with(bytes, layout, request, plan, credential, algorithm, reserved) matches Ok(
            signed,
        ) ==> {
            &&& signed.attempts == 1 || signed.attempts == 2
            &&& signed.reserved == signed.attempts * reserved
            &&& attempt(bytes, layout, request, plan, credential, algorithm, signed.reserved) == Ok::<
                (Seq<u8>, nat),
                Refusal,
            >((signed.bytes, signed.cms_len))
            &&& signed.attempts == 2 ==> (attempt(
                bytes,
                layout,
                request,
                plan,
                credential,
                algorithm,
                reserved,
            ) matches Err(refusal) && is_too_large(refusal))
        },
{
}

/// What is reserved at first has room for all that a trial came to, which was made
/// with the digest that the key calls for.
pub proof fn law_a_reservation_has_room_for_the_trial(
    credential: CredentialFacts,
    request: SignRequest,
)
    ensures
        first_reservation(credential, request) matches Ok((algorithm, reserved)) ==> {
            &&& mechanism_for(credential.key_info, None) matches Ok(mechanism)
                && mechanism.digest() == algorithm
            &&& dry_run(
                credential,
                algorithm.length(),
                request.profile,
                false,
                Some(request.signing_time),
            ) matches Ok(cms) && 2 * cms.len() <= reserved <= 3 * cms.len()
            &&& reserved % 2 == 0
        },
{
}

/// The placeholders of a signature stand right behind their keys: that of the range
/// starts with its bracket, and that of the signature is all from one angle bracket to
/// the other.
pub proof fn law_placeholders_stand_behind_their_keys(bytes: Seq<u8>, from: nat, reserved: nat)
    requires
        from <= bytes.len() <= usize::MAX,
        reserved <= usize::MAX,
    ensures
        placeholders_in(bytes, from, reserved) matches Ok(offsets) ==> {
            &&& occurs_at(bytes, utf8("/ByteRange "@), offsets.byterange_start - 11)
            &&& bytes[offsets.byterange_start as int] == 91
            &&& occurs_at(bytes, utf8("/Contents "@), offsets.sig_start - 10)
            &&& bytes[offsets.sig_start as int] == 60
            &&& bytes[offsets.sig_end - 1] == 62
        },
{
    reveal(placeholders_in);
    reveal_strlit("/ByteRange [");
    reveal_strlit("/Contents <");
    reveal_strlit("/ByteRange ");
    reveal_strlit("/Contents ");
    vstd::utf8::is_ascii_chars_encode_utf8("/ByteRange ["@);
    vstd::utf8::is_ascii_chars_encode_utf8("/Contents <"@);
    vstd::utf8::is_ascii_chars_encode_utf8("/ByteRange "@);
    vstd::utf8::is_ascii_chars_encode_utf8("/Contents "@);
    let range_key = utf8("/ByteRange ["@);
    let contents_key = utf8("/Contents <"@);
    lemma_place_of(bytes, range_key, from as int);
    lemma_place_of(bytes, contents_key, from as int);
    assert(range_key.take(11) =~= utf8("/ByteRange "@));
    assert(contents_key.take(10) =~= utf8("/Contents "@));
    if let Ok(offsets) = placeholders_in(bytes, from, reserved) {
        let one = offsets.byterange_start - 11;
        let two = offsets.sig_start - 10;
        assert(occurs_at(bytes, range_key, one));
        assert(occurs_at(bytes, contents_key, two));
        assert(bytes.subrange(one, one + 11) =~= bytes.subrange(one, one + 12).take(11));
        assert(bytes.subrange(two, two + 10) =~= bytes.subrange(two, two + 11).take(10));
        assert(bytes.subrange(one, one + 12)[11] == bytes[one + 11]);
        assert(bytes.subrange(two, two + 11)[10] == bytes[two + 10]);
    }
}

} // verus!
