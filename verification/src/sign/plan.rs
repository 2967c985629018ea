//! Deciding what the revision that carries a signature has to hold.

use crate::sign::document::{
    existing_field_names, field_object_of, find_field_object, taken_names, DocumentLayout, Layout,
};
use crate::sign::refusal::{
    reports, PreflightFault, PreflightRefusal, Refusal, SignApplyError,
};
use crate::sign::request::SignTarget;
use crate::text::{decimal_text, owned, push_decimal, push_str, push_wide_decimal, same_text, views};
use vstd::prelude::*;

verus! {

/// What a look at a document says of the field that is to be signed.
#[derive(Debug, Clone, PartialEq, Eq)]
pub struct PreflightOk {
    /// The field to sign.
    pub target_field: String,
    /// The field has a seed value, which is ignored.
    pub seed_value_ignored: bool,
}

/// What the revision has to hold.
#[derive(Debug, Clone, PartialEq, Eq)]
pub struct RevisionPlan {
    pub field_name: String,
    pub previous_signatures: usize,
    pub seed_value_ignored: bool,
    /// The object number of the field, where it is there already.
    pub existing_field: Option<u32>,
}

/// What the revision has to hold, by its value.
pub struct Plan {
    pub field_name: Seq<char>,
    pub previous_signatures: nat,
    pub seed_value_ignored: bool,
    pub existing_field: Option<nat>,
}

impl View for RevisionPlan {
    type V = Plan;

    open spec fn view(&self) -> Plan {
        Plan {
            field_name: self.field_name@,
            previous_signatures: self.previous_signatures as nat,
            seed_value_ignored: self.seed_value_ignored,
            existing_field: match self.existing_field {
                Some(number) => Some(number as nat),
                None => None,
            },
        }
    }
}

/// A name that is made up for a field.
pub open spec fn numbered_name(n: nat) -> Seq<char> {
    "Signature"@ + decimal_text(n)
}

/// The first name of the form `SignatureN`, from `n` on, that is not taken.
pub open spec fn free_name(taken: Seq<Seq<char>>, n: nat, most: nat) -> Seq<char>
    decreases most - n,
{
    if n >= most || !taken.contains(numbered_name(n)) {
        numbered_name(n)
    } else {
        free_name(taken, n + 1, most)
    }
}

proof fn lemma_decimal_text_injective(a: nat, b: nat)
    ensures
        decimal_text(a) == decimal_text(b) ==> a == b,
        decimal_text(a).len() > 0,
    decreases a,
{
    if decimal_text(a) == decimal_text(b) {
        if a >= 10 {
            assert(decimal_text(a).drop_last() =~= decimal_text(a / 10));
        }
        if b >= 10 {
            assert(decimal_text(b).drop_last() =~= decimal_text(b / 10));
        }
        if a >= 10 && b >= 10 {
            lemma_decimal_text_injective(a / 10, b / 10);
            assert(decimal_text(a).last() == decimal_text(b).last());
        } else if a < 10 && b < 10 {
            assert(decimal_text(a)[0] == decimal_text(b)[0]);
        } else if a < 10 {
            lemma_decimal_text_injective(b / 10, b / 10);
            assert(decimal_text(b).len() == decimal_text(b / 10).len() + 1);
        } else {
            lemma_decimal_text_injective(a / 10, a / 10);
            assert(decimal_text(a).len() == decimal_text(a / 10).len() + 1);
        }
    }
}

proof fn lemma_names_differ(a: nat, b: nat)
    requires
        numbered_name(a) == numbered_name(b),
    ensures
        a == b,
{
    let start = "Signature"@.len() as int;
    assert(numbered_name(a).skip(start) =~= decimal_text(a));
    assert(numbered_name(b).skip(start) =~= decimal_text(b));
    lemma_decimal_text_injective(a, b);
}

/// The first `count` names cannot all be taken where fewer names are.
proof fn lemma_some_name_is_free(taken: Seq<Seq<char>>, first: nat, count: nat)
    requires
        forall|n: nat| first <= n < first + count ==> #[trigger] taken.contains(numbered_name(n)),
    ensures
        count <= taken.len(),
    decreases count,
{
    if count > 0 {
        let last = (first + count - 1) as nat;
        let name = numbered_name(last);
        assert(taken.contains(name));
        let at = choose|i: int| 0 <= i < taken.len() && taken[i] == name;
        let rest = taken.remove(at);
        assert forall|n: nat| first <= n < first + count - 1 implies #[trigger] rest.contains(
            numbered_name(n),
        ) by {
            assert(taken.contains(numbered_name(n)));
            let i = choose|i: int| 0 <= i < taken.len() && taken[i] == numbered_name(n);
            if i == at {
                lemma_names_differ(n, last);
            }
            if i < at {
                assert(rest[i] == taken[i]);
            } else {
                assert(rest[i - 1] == taken[i]);
            }
        }
        lemma_some_name_is_free(rest, first, (count - 1) as nat);
    }
}

proof fn lemma_free_name(taken: Seq<Seq<char>>, n: nat)
    requires
        1 <= n <= taken.len() + 1,
        forall|m: nat| 1 <= m < n ==> #[trigger] taken.contains(numbered_name(m)),
    ensures
        !taken.contains(free_name(taken, n, taken.len() + 1)),
    decreases taken.len() + 1 - n,
{
    if taken.contains(numbered_name(n)) {
        if n == taken.len() + 1 {
            assert forall|m: nat| 1 <= m < 1 + taken.len() + 1 implies #[trigger] taken.contains(
                numbered_name(m),
            ) by {}
            lemma_some_name_is_free(taken, 1, taken.len() + 1);
        } else {
            lemma_free_name(taken, n + 1);
        }
    }
}

/// The name that is made up for a field is not the name of another.
pub proof fn law_the_made_up_name_is_free(taken: Seq<Seq<char>>)
    ensures
        !taken.contains(free_name(taken, 1, taken.len() + 1)),
{
    lemma_free_name(taken, 1);
}

/// What a look at the document says, by its value.
pub open spec fn preflight_view(preflight: Result<PreflightOk, PreflightRefusal>) -> Result<
    (Seq<char>, bool),
    PreflightFault,
> {
    match preflight {
        Ok(found) => Ok((found.target_field@, found.seed_value_ignored)),
        Err(refusal) => Err(refusal@),
    }
}

/// What is planned for a field that is there.
pub open spec fn existing_field_plan(
    bytes: Seq<u8>,
    layout: Layout,
    previous: nat,
    preflight: Result<(Seq<char>, bool), PreflightFault>,
) -> Result<Plan, Refusal> {
    match preflight {
        Err(fault) => Err(Refusal::Preflight(fault)),
        Ok((name, seed_value_ignored)) => match field_object_of(bytes, layout, name) {
            Err(refusal) => Err(refusal),
            Ok(None) => Err(Refusal::FieldNotLocated(name)),
            Ok(Some(number)) => Ok(
                Plan {
                    field_name: name,
                    previous_signatures: previous,
                    seed_value_ignored,
                    existing_field: Some(number),
                },
            ),
        },
    }
}

/// What is planned for a new field.
pub open spec fn new_field_plan(
    bytes: Seq<u8>,
    layout: Layout,
    previous: nat,
    name: Option<Seq<char>>,
) -> Result<Plan, Refusal> {
    if previous > 0 {
        Err(Refusal::AlreadySigned(previous))
    } else {
        match taken_names(bytes, layout) {
            Err(refusal) => Err(refusal),
            Ok(taken) => match name {
                Some(chosen) => if taken.contains(chosen) {
                    Err(Refusal::NameTaken(chosen))
                } else {
                    Ok(new_plan(chosen))
                },
                None => Ok(new_plan(free_name(taken, 1, taken.len() + 1))),
            },
        }
    }
}

/// The plan for a new field of this name.
pub open spec fn new_plan(name: Seq<char>) -> Plan {
    Plan {
        field_name: name,
        previous_signatures: 0,
        seed_value_ignored: false,
        existing_field: None,
    }
}

/// What is planned for a request. An encrypted document is refused whatever the
/// request.
pub open spec fn plan_of(
    bytes: Seq<u8>,
    layout: Layout,
    previous: nat,
    preflight: Result<(Seq<char>, bool), PreflightFault>,
    field: SignTarget,
) -> Result<Plan, Refusal> {
    if layout.encrypted {
        Err(Refusal::Preflight(PreflightFault::EncryptedDocument))
    } else {
        match field {
            SignTarget::ExistingField(_) => existing_field_plan(
                bytes,
                layout,
                previous,
                preflight,
            ),
            SignTarget::NewInvisibleField { name } => new_field_plan(
                bytes,
                layout,
                previous,
                match name {
                    Some(text) => Some(text@),
                    None => None,
                },
            ),
        }
    }
}

/// A name that is planned for a new field is not the name of another field.
pub proof fn law_a_new_field_has_a_name_of_its_own(
    bytes: Seq<u8>,
    layout: Layout,
    previous: nat,
    preflight: Result<(Seq<char>, bool), PreflightFault>,
    name: Option<String>,
)
    ensures
        plan_of(
            bytes,
            layout,
            previous,
            preflight,
            (SignTarget::NewInvisibleField { name }),
        ) matches Ok(plan) ==> {
            &&& previous == 0
            &&& taken_names(bytes, layout) matches Ok(taken)
            &&& !taken.contains(plan.field_name)
        },
{
    if let Ok(taken) = taken_names(bytes, layout) {
        law_the_made_up_name_is_free(taken);
    }
}

fn is_taken(taken: &[String], name: &str) -> (found: bool)
    ensures
        found == views(taken@).contains(name@),
{
    let ghost names = views(taken@);
    let mut i: usize = 0;
    while i < taken.len()
        invariant
            i <= taken@.len(),
            names == views(taken@),
            forall|j: int| 0 <= j < i ==> #[trigger] names[j] != name@,
        decreases taken@.len() - i,
    {
        assert(names[i as int] == taken@[i as int]@);
        if same_text(taken[i].as_str(), name) {
            assert(names.contains(names[i as int]));
            return true;
        }
        i += 1;
    }
    false
}

fn make_up_name(taken: &[String]) -> (name: String)
    ensures
        name@ == free_name(views(taken@), 1, views(taken@).len() + 1),
{
    let ghost names = views(taken@);
    let most: u128 = taken.len() as u128 + 1;
    let mut n: u128 = 1;
    loop
        invariant
            1 <= n <= most,
            most == names.len() + 1,
            names == views(taken@),
            free_name(names, n as nat, most as nat) == free_name(names, 1, most as nat),
        decreases most - n,
    {
        let mut name = owned("Signature");
        push_wide_decimal(&mut name, n);
        if n == most || !is_taken(taken, name.as_str()) {
            return name;
        }
        n += 1;
    }
}

/// Decides what the revision has to hold. `previous_signatures` is how many
/// signatures the document has, and `preflight` what a look at the field of an
/// existing target said.
pub fn plan_revision(
    source: &[u8],
    layout: &DocumentLayout,
    previous_signatures: usize,
    preflight: Result<PreflightOk, PreflightRefusal>,
    field: &SignTarget,
) -> (plan: Result<RevisionPlan, SignApplyError>)
    ensures
        match plan_of(
            source@,
            layout@,
            previous_signatures as nat,
            preflight_view(preflight),
            *field,
        ) {
            Ok(planned) => plan matches Ok(found) && found@ == planned,
            Err(refusal) => plan matches Err(error) && reports(error, refusal),
        },
{
    if layout.encrypted {
        return Err(SignApplyError::Refused(PreflightRefusal::EncryptedDocument));
    }
    match field {
        SignTarget::ExistingField(_) => {
            let found = match preflight {
                Ok(found) => found,
                Err(refusal) => return Err(SignApplyError::Refused(refusal)),
            };
            match find_field_object(source, layout, found.target_field.as_str()) {
                Ok(Some(number)) => Ok(
                    RevisionPlan {
                        field_name: found.target_field,
                        previous_signatures,
                        seed_value_ignored: found.seed_value_ignored,
                        existing_field: Some(number),
                    },
                ),
                Ok(None) => {
                    let mut detail = owned("signature field '");
                    push_str(&mut detail, found.target_field.as_str());
                    push_str(&mut detail, "' could not be located");
                    Err(SignApplyError::Unsupported(detail))
                },
                Err(error) => Err(error),
            }
        },
        SignTarget::NewInvisibleField { name } => {
            if previous_signatures > 0 {
                let mut detail = owned("the document already carries ");
                push_decimal(&mut detail, previous_signatures as u64);
                push_str(
                    &mut detail,
                    " signature(s); creating a signature field edits the AcroForm and a page's annotations, so only an existing empty field may be signed",
                );
                return Err(SignApplyError::ContentChangeInAppendOnlyMode { detail });
            }
            let taken = match existing_field_names(source, layout) {
                Ok(taken) => taken,
                Err(error) => return Err(error),
            };
            let field_name = match name {
                Some(chosen) => {
                    if is_taken(taken.as_slice(), chosen.as_str()) {
                        let mut detail = owned("a field named '");
                        push_str(&mut detail, chosen.as_str());
                        push_str(&mut detail, "' already exists");
                        return Err(SignApplyError::Unsupported(detail));
                    }
                    owned(chosen.as_str())
                },
                None => make_up_name(taken.as_slice()),
            };
            Ok(
                RevisionPlan {
                    field_name,
                    previous_signatures,
                    seed_value_ignored: false,
                    existing_field: None,
                },
            )
        },
    }
}

/// The name that is made up for a field has the lowest number that is free: all
/// below it are taken.
pub proof fn law_the_lowest_number_is_taken(taken: Seq<Seq<char>>, n: nat, most: nat)
    requires
        n <= most,
    ensures
        exists|number: nat|
            n <= number <= most && free_name(taken, n, most) == #[trigger] numbered_name(number)
                && forall|lower: nat|
                n <= lower < number ==> taken.contains(#[trigger] numbered_name(lower)),
    decreases most - n,
{
    if n >= most || !taken.contains(numbered_name(n)) {
        assert(free_name(taken, n, most) == numbered_name(n));
    } else {
        law_the_lowest_number_is_taken(taken, n + 1, most);
        let number = choose|number: nat|
            n + 1 <= number <= most && free_name(taken, n + 1, most) == #[trigger] numbered_name(
                number,
            ) && forall|lower: nat|
                n + 1 <= lower < number ==> taken.contains(#[trigger] numbered_name(lower));
        assert(free_name(taken, n, most) == numbered_name(number));
        assert forall|lower: nat| n <= lower < number implies taken.contains(
            #[trigger] numbered_name(lower),
        ) by {
            if lower > n {
                assert(n + 1 <= lower);
            }
        }
    }
}

} // verus!
