//! What a revision that signs says: the signature dictionary, the field, and the
//! form and the page that name it.

use crate::bytes::utf8;
use crate::outlinelinks::entry_of;
use crate::pdfread::dictionary::{
    law_a_key_is_taken_out, law_other_values_stay, law_the_last_value_stays, lemma_entry_at,
    lemma_no_entry, lemma_pushed_entry, lookup, with_entry, without_key, Entries,
};
use crate::pdfwrite::object::PdfValue;
use crate::pdfwrite::writer::Numbered;
use crate::sign::appearance::{
    rect_value, reference_in, reference_to, with_appearance, xobject_bytes, Appearance,
};
use crate::sign::cms_builder::SigningProfile;
use crate::sign::dates::moment_text;
use crate::sign::document::{catalog_of, dictionary_of, first_page, form_of, generation_of, Layout};
use crate::sign::plan::Plan;
use crate::sign::revision::{
    dressed, existing_field_objects, field_entries, new_field_objects, revision_objects,
    signature_entries, with_field, with_reference, with_text, Wishes,
};
use vstd::prelude::*;

verus! {

/// A text that may be missing, as it stands in a dictionary.
pub open spec fn written(text: Option<Seq<char>>) -> Option<PdfValue> {
    match text {
        Some(text) => Some(PdfValue::String(utf8(text))),
        None => None,
    }
}

proof fn lemma_text(entries: Entries, name: Seq<char>, text: Option<Seq<char>>, key: Seq<char>)
    ensures
        lookup(with_text(entries, name, text), key) == (match lookup(entries, key) {
            Some(found) => Some(found),
            None => if name == key {
                written(text)
            } else {
                None
            },
        }),
{
    if let Some(found) = text {
        lemma_pushed_entry(entries, name, PdfValue::String(utf8(found)), key);
    }
}

/// The keys that a signature dictionary starts with.
spec fn first_keys() -> Seq<Seq<char>> {
    seq!["Type"@, "Filter"@, "SubFilter"@, "ByteRange"@, "Contents"@, "M"@]
}

proof fn lemma_signature_keys()
    ensures
        "Reason"@ != "Location"@,
        "Reason"@ != "ContactInfo"@,
        "Location"@ != "ContactInfo"@,
        "Prop_Build"@ != "Reason"@,
        "Prop_Build"@ != "Location"@,
        "Prop_Build"@ != "ContactInfo"@,
        "Prop_Build"@ != "M"@,
        "Prop_Build"@ != "Name"@,
        "Reason"@ != "M"@,
        "Location"@ != "M"@,
        "ContactInfo"@ != "M"@,
        forall|k: int|
            0 <= k < 6 ==> {
                &&& #[trigger] first_keys()[k] != "Reason"@
                &&& first_keys()[k] != "Location"@
                &&& first_keys()[k] != "ContactInfo"@
                &&& first_keys()[k] != "Name"@
            },
        "Type"@ != "M"@,
        "Filter"@ != "M"@,
        "SubFilter"@ != "M"@,
        "ByteRange"@ != "M"@,
        "Contents"@ != "M"@,
        "Type"@ != "SubFilter"@,
        "Filter"@ != "SubFilter"@,
        "Reason"@ != "Name"@,
        "Location"@ != "Name"@,
        "ContactInfo"@ != "Name"@,
{
    reveal_strlit("Type");
    reveal_strlit("Filter");
    reveal_strlit("SubFilter");
    reveal_strlit("ByteRange");
    reveal_strlit("Contents");
    reveal_strlit("M");
    reveal_strlit("Reason");
    reveal_strlit("Location");
    reveal_strlit("ContactInfo");
    reveal_strlit("Prop_Build");
    reveal_strlit("Name");
    assert("Type"@.len() == 4 && "Name"@.len() == 4 && "Type"@[0] == 'T' && "Name"@[0] == 'N');
    assert("Filter"@.len() == 6 && "Reason"@.len() == 6 && "Filter"@[0] == 'F' && "Reason"@[0]
        == 'R');
    assert("SubFilter"@.len() == 9 && "ByteRange"@.len() == 9);
    assert("Contents"@.len() == 8 && "Location"@.len() == 8 && "Contents"@[0] == 'C'
        && "Location"@[0] == 'L');
    assert("ContactInfo"@.len() == 11 && "Prop_Build"@.len() == 10 && "M"@.len() == 1);
    assert forall|k: int| 0 <= k < 6 implies {
        &&& #[trigger] first_keys()[k] != "Reason"@
        &&& first_keys()[k] != "Location"@
        &&& first_keys()[k] != "ContactInfo"@
        &&& first_keys()[k] != "Name"@
    } by {
        if k == 0 || k == 1 || k == 2 {
        } else {
            assert(k == 3 || k == 4 || k == 5);
        }
    }
}

/// The signature dictionary says what was asked for, each under its own key: when
/// the signature was made, why, where, and how the signer is reached. What was not
/// given is not there, and neither is a name.
pub proof fn law_the_signature_says_what_was_asked_for(wishes: Wishes, reserved: nat)
    ensures
        ({
            let entries = signature_entries(wishes, reserved);
            &&& lookup(entries, "Reason"@) == written(wishes.reason)
            &&& lookup(entries, "Location"@) == written(wishes.location)
            &&& lookup(entries, "ContactInfo"@) == written(wishes.contact)
            &&& lookup(entries, "M"@) == written(Some(moment_text(wishes.signing_time)))
            &&& lookup(entries, "Type"@) == Some(PdfValue::Name("Sig"@))
            &&& lookup(entries, "Name"@) is None
            &&& lookup(entries, "Filter"@) == Some(PdfValue::Name("Adobe.PPKLite"@))
            &&& lookup(entries, "SubFilter"@) == Some(
                PdfValue::Name(
                    match wishes.profile {
                        SigningProfile::AdbePkcs7Detached => "adbe.pkcs7.detached"@,
                        SigningProfile::EtsiCadesDetached => "ETSI.CAdES.detached"@,
                    },
                ),
            )
        }),
{
    reveal(signature_entries);
    lemma_signature_keys();
    let entries = signature_entries(wishes, reserved);
    let start = entries.take(6);
    assert forall|k: int| 0 <= k < 6 implies (#[trigger] start[k]).0 == first_keys()[k] by {
        if k == 0 || k == 1 || k == 2 {
        } else {
            assert(k == 3 || k == 4 || k == 5);
        }
    }
    let one = with_text(start, "Reason"@, wishes.reason);
    let two = with_text(one, "Location"@, wishes.location);
    let three = with_text(two, "ContactInfo"@, wishes.contact);
    let (last, value) = entries.last();
    assert(entries =~= three.push((last, value)));
    assert(last == "Prop_Build"@);
    assert forall|key: Seq<char>|
        #![trigger lookup(entries, key)]
        key != "Prop_Build"@ implies lookup(entries, key) == (match lookup(start, key) {
        Some(found) => Some(found),
        None => if key == "Reason"@ {
            written(wishes.reason)
        } else if key == "Location"@ {
            written(wishes.location)
        } else if key == "ContactInfo"@ {
            written(wishes.contact)
        } else {
            None
        },
    }) by {
        lemma_text(start, "Reason"@, wishes.reason, key);
        lemma_text(one, "Location"@, wishes.location, key);
        lemma_text(two, "ContactInfo"@, wishes.contact, key);
        lemma_pushed_entry(three, last, value, key);
    }
    lemma_no_entry(start, "Reason"@);
    lemma_no_entry(start, "Location"@);
    lemma_no_entry(start, "ContactInfo"@);
    lemma_no_entry(start, "Name"@);
    lemma_entry_at(start, 0);
    assert(start[0].0 == "Type"@ && start[1].0 == "Filter"@ && start[2].0 == "SubFilter"@);
    assert("Type"@ != "Filter"@ && "Type"@ != "SubFilter"@ && "Filter"@ != "SubFilter"@) by {
        reveal_strlit("Type");
        reveal_strlit("Filter");
        reveal_strlit("SubFilter");
        assert("Type"@.len() == 4 && "Filter"@.len() == 6 && "SubFilter"@.len() == 9);
    }
    lemma_entry_at(start, 1);
    lemma_entry_at(start, 2);
    lemma_entry_at(start, 5);
    assert(start[5].0 == "M"@ && start[0].0 == "Type"@);
    assert("Filter"@ != "Prop_Build"@ && "SubFilter"@ != "Prop_Build"@) by {
        reveal_strlit("Filter");
        reveal_strlit("SubFilter");
        reveal_strlit("Prop_Build");
        assert("Filter"@.len() == 6 && "SubFilter"@.len() == 9 && "Prop_Build"@.len() == 10);
    }
    assert("Type"@ != "Prop_Build"@) by {
        reveal_strlit("Type");
        reveal_strlit("Prop_Build");
        assert("Type"@.len() != "Prop_Build"@.len());
    }
}

proof fn lemma_more_references(entries: Entries, key: Seq<char>, number: nat)
    ensures
        ({
            let before = match lookup(entries, key) {
                Some(PdfValue::Array(items)) => items,
                _ => Seq::empty(),
            };
            lookup(with_reference(entries, key, number), key) == Some(
                PdfValue::Array(before.push(reference_to(number))),
            )
        }),
{
    let before = match lookup(entries, key) {
        Some(PdfValue::Array(items)) => items,
        _ => Seq::empty(),
    };
    let value = PdfValue::Array(before.push(reference_to(number)));
    law_the_last_value_stays(entries, key, value, value);
}

proof fn lemma_field_keys()
    ensures
        "Fields"@ != "SigFlags"@,
        "Fields"@ != "NeedAppearances"@,
        "SigFlags"@ != "NeedAppearances"@,
        "AP"@ != "AS"@,
        "Rect"@ != "AP"@,
        "Rect"@ != "AS"@,
        "V"@ != "Rect"@ && "V"@ != "AP"@ && "V"@ != "AS"@,
        "T"@ != "Rect"@ && "T"@ != "AP"@ && "T"@ != "AS"@,
        "P"@ != "Rect"@ && "P"@ != "AP"@ && "P"@ != "AS"@,
        "FT"@ != "Rect"@ && "FT"@ != "AP"@ && "FT"@ != "AS"@,
        "Subtype"@ != "Rect"@ && "Subtype"@ != "AP"@ && "Subtype"@ != "AS"@,
        "FT"@ != "T"@ && "FT"@ != "V"@ && "FT"@ != "P"@,
        "T"@ != "V"@ && "T"@ != "P"@ && "V"@ != "P"@,
        "Type"@ != "Subtype"@ && "Type"@ != "P"@ && "Type"@ != "Rect"@,
        "Subtype"@ != "P"@,
        "F"@ != "P"@,
        "FT"@ != "Subtype"@ && "T"@ != "Subtype"@ && "V"@ != "Subtype"@,
        "FT"@ != "Rect"@ && "T"@ != "Rect"@ && "V"@ != "Rect"@,
{
    reveal_strlit("Fields");
    reveal_strlit("SigFlags");
    reveal_strlit("NeedAppearances");
    reveal_strlit("AP");
    reveal_strlit("AS");
    reveal_strlit("Rect");
    reveal_strlit("V");
    reveal_strlit("T");
    reveal_strlit("P");
    reveal_strlit("F");
    reveal_strlit("FT");
    reveal_strlit("Type");
    reveal_strlit("Subtype");
    assert("Fields"@.len() == 6 && "SigFlags"@.len() == 8 && "NeedAppearances"@.len() == 15);
    assert("AP"@.len() == 2 && "AS"@.len() == 2 && "FT"@.len() == 2);
    assert("AP"@[1] == 'P' && "AS"@[1] == 'S' && "FT"@[0] == 'F' && "AP"@[0] == 'A' && "AS"@[0]
        == 'A');
    assert("Rect"@.len() == 4 && "Type"@.len() == 4 && "Rect"@[0] == 'R' && "Type"@[0] == 'T');
    assert("V"@.len() == 1 && "T"@.len() == 1 && "P"@.len() == 1 && "F"@.len() == 1);
    assert("V"@[0] == 'V' && "T"@[0] == 'T' && "P"@[0] == 'P' && "F"@[0] == 'F');
    assert("Subtype"@.len() == 7);
}

/// The form has one field more, the others as they were, and says that there are
/// signatures and that the document is only appended to. It does not ask for fields
/// to be drawn anew, and everything else in it stays.
pub proof fn law_the_form_names_the_field(form: Entries, field: nat, other: Seq<char>)
    requires
        other != "Fields"@,
        other != "SigFlags"@,
        other != "NeedAppearances"@,
    ensures
        ({
            let before = match lookup(form, "Fields"@) {
                Some(PdfValue::Array(items)) => items,
                _ => Seq::empty(),
            };
            let after = with_field(form, field);
            &&& lookup(after, "Fields"@) == Some(
                PdfValue::Array(before.push(reference_to(field))),
            )
            &&& lookup(after, "SigFlags"@) == Some(PdfValue::Integer(3))
            &&& lookup(after, "NeedAppearances"@) is None
            &&& lookup(after, other) == lookup(form, other)
        }),
{
    lemma_field_keys();
    lemma_more_references(form, "Fields"@, field);
    let named = with_reference(form, "Fields"@, field);
    let three = PdfValue::Integer(3);
    let flagged = with_entry(named, "SigFlags"@, three);
    let before = match lookup(form, "Fields"@) {
        Some(PdfValue::Array(items)) => items,
        _ => Seq::empty(),
    };
    law_other_values_stay(
        form,
        "Fields"@,
        PdfValue::Array(before.push(reference_to(field))),
        other,
    );
    law_other_values_stay(named, "SigFlags"@, three, "Fields"@);
    law_other_values_stay(named, "SigFlags"@, three, other);
    law_the_last_value_stays(named, "SigFlags"@, three, three);
    law_a_key_is_taken_out(flagged, "NeedAppearances"@, "Fields"@);
    law_a_key_is_taken_out(flagged, "NeedAppearances"@, "SigFlags"@);
    law_a_key_is_taken_out(flagged, "NeedAppearances"@, other);
}

/// A widget that gets an appearance lies where the appearance does and shows it;
/// without one it stays as it is. What has nothing to do with how it looks stays
/// either way.
pub proof fn law_a_widget_shows_its_appearance(
    entries: Entries,
    appearance: Option<Appearance>,
    xobject: nat,
    other: Seq<char>,
)
    requires
        other != "Rect"@,
        other != "AP"@,
        other != "AS"@,
    ensures
        ({
            let after = dressed(entries, appearance, xobject);
            &&& lookup(after, other) == lookup(entries, other)
            &&& match appearance {
                Some(look) => {
                    &&& lookup(after, "Rect"@) == Some(rect_value(look.rect))
                    &&& lookup(after, "AS"@) is None
                    &&& lookup(after, "AP"@) matches Some(PdfValue::Dictionary(states)) && lookup(
                        states,
                        "N"@,
                    ) == Some(reference_to(xobject))
                },
                None => after == entries,
            }
        }),
{
    if let Some(look) = appearance {
        lemma_field_keys();
        let rect = rect_value(look.rect);
        let states = seq![("N"@, reference_to(xobject))];
        let shown = PdfValue::Dictionary(states);
        let placed = with_entry(entries, "Rect"@, rect);
        let all = with_entry(placed, "AP"@, shown);
        law_the_last_value_stays(entries, "Rect"@, rect, rect);
        law_the_last_value_stays(placed, "AP"@, shown, shown);
        law_other_values_stay(entries, "Rect"@, rect, other);
        law_other_values_stay(placed, "AP"@, shown, other);
        law_other_values_stay(placed, "AP"@, shown, "Rect"@);
        law_a_key_is_taken_out(all, "AS"@, other);
        law_a_key_is_taken_out(all, "AS"@, "Rect"@);
        law_a_key_is_taken_out(all, "AS"@, "AP"@);
        lemma_entry_at(states, 0);
        assert(with_appearance(entries, look.rect, xobject) == without_key(all, "AS"@));
    }
}

/// A new field is a signature field and a widget at once: it has its name, its
/// value is the signature, and it names its page.
pub proof fn law_a_field_names_its_signature(
    name: Seq<char>,
    signature: nat,
    page: nat,
    generation: nat,
    appearance: Option<Appearance>,
    xobject: nat,
)
    ensures
        ({
            let field = dressed(
                field_entries(name, signature, page, generation),
                appearance,
                xobject,
            );
            &&& lookup(field, "FT"@) == Some(PdfValue::Name("Sig"@))
            &&& lookup(field, "T"@) == Some(PdfValue::String(utf8(name)))
            &&& lookup(field, "V"@) == Some(reference_to(signature))
            &&& lookup(field, "Subtype"@) == Some(PdfValue::Name("Widget"@))
            &&& lookup(field, "P"@) == Some(reference_in(page, generation))
        }),
{
    lemma_field_keys();
    let plain = field_entries(name, signature, page, generation);
    assert(plain[0].0 == "FT"@ && plain[1].0 == "T"@ && plain[2].0 == "V"@);
    assert(plain[3].0 == "Type"@ && plain[4].0 == "Subtype"@ && plain[5].0 == "Rect"@);
    assert(plain[6].0 == "F"@ && plain[7].0 == "P"@);
    lemma_entry_at(plain, 0);
    lemma_entry_at(plain, 1);
    lemma_entry_at(plain, 2);
    lemma_entry_at(plain, 4);
    lemma_entry_at(plain, 7);
    law_a_widget_shows_its_appearance(plain, appearance, xobject, "FT"@);
    law_a_widget_shows_its_appearance(plain, appearance, xobject, "T"@);
    law_a_widget_shows_its_appearance(plain, appearance, xobject, "V"@);
    law_a_widget_shows_its_appearance(plain, appearance, xobject, "Subtype"@);
    law_a_widget_shows_its_appearance(plain, appearance, xobject, "P"@);
}

/// The value is a reference to an object that is written.
pub open spec fn refers_to(value: Option<PdfValue>, object: Numbered) -> bool {
    value matches Some(PdfValue::IndirectRef { obj_num, gen_num }) && obj_num as u32 == object.0
        && gen_num as u16 == object.1
}

/// The value is an array whose last item is a reference to an object that is
/// written, behind those that the array had before.
pub open spec fn ends_in(value: Option<PdfValue>, before: Option<PdfValue>, object: Numbered) -> bool {
    value matches Some(PdfValue::Array(items)) && items.len() > 0 && items.last() == reference_to(
        object.0 as nat,
    ) && items.drop_last() == (match before {
        Some(PdfValue::Array(older)) => older,
        _ => Seq::empty(),
    })
}

/// A new field is reached from the document: the catalog names the form, the form
/// and the first page name the field, and the field names the signature and the
/// page. Whatever else the catalog and the page say stays.
pub proof fn law_a_new_field_is_reached(
    bytes: Seq<u8>,
    layout: Layout,
    name: Seq<char>,
    appearance: Option<Appearance>,
    signature: nat,
    xobject: nat,
    next: nat,
    other: Seq<char>,
)
    requires
        new_field_objects(bytes, layout, name, appearance, signature, xobject, next) is Ok,
        other != "AcroForm"@,
        other != "Annots"@,
    ensures
        ({
            let objects = new_field_objects(
                bytes,
                layout,
                name,
                appearance,
                signature,
                xobject,
                next,
            )->Ok_0;
            let (catalog, form, page, field) = (objects[0], objects[1], objects[2], objects[3]);
            let old_catalog = dictionary_of(bytes, layout, catalog_of(layout)->Ok_0)->Ok_0;
            let number = first_page(bytes, layout, old_catalog)->Ok_0;
            let old_page = dictionary_of(bytes, layout, number)->Ok_0;
            let old_form = form_of(bytes, layout, old_catalog)->Ok_0;
            &&& objects.len() == 4
            &&& catalog.0 == catalog_of(layout)->Ok_0 as u32
            &&& page.0 == number as u32
            &&& refers_to(entry_of(catalog, "AcroForm"@), form)
            &&& ends_in(entry_of(form, "Fields"@), lookup(old_form, "Fields"@), field)
            &&& entry_of(form, "SigFlags"@) == Some(PdfValue::Integer(3))
            &&& ends_in(entry_of(page, "Annots"@), lookup(old_page, "Annots"@), field)
            &&& entry_of(field, "V"@) == Some(reference_to(signature))
            &&& entry_of(field, "T"@) == Some(PdfValue::String(utf8(name)))
            &&& refers_to(entry_of(field, "P"@), page)
            &&& entry_of(catalog, other) == lookup(old_catalog, other)
            &&& entry_of(page, other) == lookup(old_page, other)
        }),
{
    reveal(new_field_objects);
    let objects = new_field_objects(
        bytes,
        layout,
        name,
        appearance,
        signature,
        xobject,
        next,
    )->Ok_0;
    let old_catalog = dictionary_of(bytes, layout, catalog_of(layout)->Ok_0)->Ok_0;
    let number = first_page(bytes, layout, old_catalog)->Ok_0;
    let old_page = dictionary_of(bytes, layout, number)->Ok_0;
    let old_form = form_of(bytes, layout, old_catalog)->Ok_0;
    let form_number = crate::sign::revision::form_number(old_catalog, next + 1);
    let form_generation = crate::sign::revision::form_generation(bytes, layout, old_catalog);
    let link = reference_in(form_number, form_generation);
    law_the_last_value_stays(old_catalog, "AcroForm"@, link, link);
    law_other_values_stay(old_catalog, "AcroForm"@, link, other);
    lemma_more_references(old_page, "Annots"@, next);
    let marks = match lookup(old_page, "Annots"@) {
        Some(PdfValue::Array(items)) => items,
        _ => Seq::empty(),
    };
    law_other_values_stay(
        old_page,
        "Annots"@,
        PdfValue::Array(marks.push(reference_to(next))),
        other,
    );
    assert(marks.push(reference_to(next)).drop_last() =~= marks);
    let fields = match lookup(old_form, "Fields"@) {
        Some(PdfValue::Array(items)) => items,
        _ => Seq::empty(),
    };
    assert(fields.push(reference_to(next)).drop_last() =~= fields);
    assert("T"@ != "Fields"@ && "T"@ != "SigFlags"@ && "T"@ != "NeedAppearances"@) by {
        reveal_strlit("T");
        reveal_strlit("Fields");
        reveal_strlit("SigFlags");
        reveal_strlit("NeedAppearances");
        assert("T"@.len() == 1 && "Fields"@.len() == 6 && "SigFlags"@.len() == 8);
        assert("NeedAppearances"@.len() == 15);
    }
    law_the_form_names_the_field(old_form, next, "T"@);
    law_a_field_names_its_signature(
        name,
        signature,
        number,
        generation_of(bytes, layout, number),
        appearance,
        xobject,
    );
    assert(objects[3].0 == next);
}

/// Where a field that is there is signed, that field alone is written again: its
/// value is the signature, and what has nothing to do with that or with how it looks
/// stays.
pub proof fn law_a_field_that_is_there_is_signed(
    bytes: Seq<u8>,
    layout: Layout,
    field: nat,
    appearance: Option<Appearance>,
    signature: nat,
    xobject: nat,
    other: Seq<char>,
)
    requires
        existing_field_objects(bytes, layout, field, appearance, signature, xobject) is Ok,
        other != "V"@,
        other != "Rect"@,
        other != "AP"@,
        other != "AS"@,
    ensures
        ({
            let objects = existing_field_objects(
                bytes,
                layout,
                field,
                appearance,
                signature,
                xobject,
            )->Ok_0;
            let before = dictionary_of(bytes, layout, field)->Ok_0;
            &&& objects.len() == 1
            &&& objects[0].0 == field as u32
            &&& entry_of(objects[0], "V"@) == Some(reference_to(signature))
            &&& entry_of(objects[0], other) == lookup(before, other)
        }),
{
    reveal(existing_field_objects);
    lemma_field_keys();
    let before = dictionary_of(bytes, layout, field)->Ok_0;
    let link = reference_to(signature);
    let valued = with_entry(before, "V"@, link);
    law_the_last_value_stays(before, "V"@, link, link);
    law_other_values_stay(before, "V"@, link, other);
    law_a_widget_shows_its_appearance(valued, appearance, xobject, other);
    law_a_widget_shows_its_appearance(valued, appearance, xobject, "V"@);
}

/// What a revision that signs holds is linked: the value of the field is the
/// signature, and where an appearance was asked for, the field shows the form that
/// draws it. Both are written, each under a number of its own.
pub proof fn law_a_revision_holds_what_its_field_names(
    bytes: Seq<u8>,
    layout: Layout,
    wishes: Wishes,
    plan: Plan,
    reserved: nat,
    first: nat,
)
    requires
        first + 2 <= u32::MAX,
        revision_objects(bytes, layout, wishes, plan, reserved, first) is Ok,
    ensures
        ({
            let objects = revision_objects(bytes, layout, wishes, plan, reserved, first)->Ok_0;
            let signature = objects.last();
            let form = objects[objects.len() - 2];
            let field = objects[if plan.existing_field is Some {
                0int
            } else {
                3
            }];
            &&& signature.2 == PdfValue::Dictionary(signature_entries(wishes, reserved))
            &&& refers_to(entry_of(field, "V"@), signature)
            &&& plan.existing_field is None ==> field.0 != signature.0 && entry_of(field, "T"@)
                == Some(PdfValue::String(utf8(plan.field_name)))
            &&& plan.existing_field matches Some(number) ==> field.0 == number as u32
            &&& wishes.appearance matches Some(look) ==> {
                &&& form.2 == PdfValue::Raw(xobject_bytes(look))
                &&& form.0 != signature.0
                &&& plan.existing_field is None ==> field.0 != form.0
                &&& entry_of(field, "Rect"@) == Some(rect_value(look.rect))
                &&& entry_of(field, "AP"@) matches Some(PdfValue::Dictionary(states)) && refers_to(
                    lookup(states, "N"@),
                    form,
                )
            }
        }),
{
    reveal(revision_objects);
    lemma_field_keys();
    let xobject = first + 1;
    match plan.existing_field {
        Some(number) => {
            reveal(existing_field_objects);
            let before = dictionary_of(bytes, layout, number)->Ok_0;
            let link = reference_to(first);
            let valued = with_entry(before, "V"@, link);
            law_the_last_value_stays(before, "V"@, link, link);
            law_a_widget_shows_its_appearance(valued, wishes.appearance, xobject, "V"@);
        },
        None => {
            reveal(new_field_objects);
            let next = if wishes.appearance is Some {
                first + 2
            } else {
                first + 1
            };
            let catalog = dictionary_of(bytes, layout, catalog_of(layout)->Ok_0)->Ok_0;
            let page = first_page(bytes, layout, catalog)->Ok_0;
            let generation = generation_of(bytes, layout, page);
            law_a_field_names_its_signature(
                plan.field_name,
                first,
                page,
                generation,
                wishes.appearance,
                xobject,
            );
            law_a_widget_shows_its_appearance(
                field_entries(plan.field_name, first, page, generation),
                wishes.appearance,
                xobject,
                "V"@,
            );
            let made = new_field_objects(
                bytes,
                layout,
                plan.field_name,
                wishes.appearance,
                first,
                xobject,
                next,
            )->Ok_0;
            assert(made.len() == 4);
            assert(made[3].0 == next as u32);
            assert(next <= u32::MAX);
        },
    }
}

} // verus!
