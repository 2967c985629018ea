//! File system paths, taken apart into their components.

use crate::text::{owned, same_text};
use vstd::prelude::*;

verus! {

/// One component of a path.
#[derive(Debug, Clone, PartialEq, Eq)]
pub enum PathPart {
    /// What makes a path absolute: the root, with its prefix where there is one.
    Anchor(String),
    /// The step to the directory above.
    Parent,
    /// The step that stays.
    Current,
    /// A name.
    Name(String),
}

/// One component of a path, as a value.
pub enum Part {
    Anchor(Seq<char>),
    Parent,
    Current,
    Name(Seq<char>),
}

impl View for PathPart {
    type V = Part;

    open spec fn view(&self) -> Part {
        match self {
            PathPart::Anchor(text) => Part::Anchor(text@),
            PathPart::Parent => Part::Parent,
            PathPart::Current => Part::Current,
            PathPart::Name(text) => Part::Name(text@),
        }
    }
}

/// The components of a path, as values.
pub open spec fn parts(path: Seq<PathPart>) -> Seq<Part> {
    path.map_values(|part: PathPart| part@)
}

/// The path made of these names.
pub open spec fn named(names: Seq<Seq<char>>) -> Seq<Part> {
    names.map_values(|name: Seq<char>| Part::Name(name))
}

/// A path after another: the second alone where it is absolute.
pub open spec fn joined_path(base: Seq<Part>, relative: Seq<Part>) -> Seq<Part> {
    if relative.len() > 0 && relative[0] is Anchor {
        relative
    } else {
        base + relative
    }
}

/// A path without its steps up and its steps that stay, from component `i` on,
/// after `done`. There is none where a step up has no name to take away.
pub open spec fn normalised(path: Seq<Part>, i: int, done: Seq<Part>) -> Option<Seq<Part>>
    decreases path.len() - i,
{
    if i >= path.len() {
        Some(done)
    } else {
        match path[i] {
            Part::Parent => if done.len() > 0 && done.last() is Name {
                normalised(path, i + 1, done.drop_last())
            } else {
                None
            },
            Part::Current => normalised(path, i + 1, done),
            Part::Anchor(_) => normalised(path, i + 1, seq![path[i]]),
            Part::Name(_) => normalised(path, i + 1, done.push(path[i])),
        }
    }
}

/// Does a path start with these components?
pub open spec fn within(path: Seq<Part>, base: Seq<Part>) -> bool {
    base.len() <= path.len() && path.take(base.len() as int) == base
}

/// Where a path leads from a base, as long as that is not outside of the base.
pub open spec fn contained(base: Seq<Part>, relative: Seq<Part>) -> Option<Seq<Part>> {
    match normalised(joined_path(base, relative), 0, Seq::empty()) {
        Some(path) => if within(path, base) {
            Some(path)
        } else {
            None
        },
        None => None,
    }
}

/// An absolute path without steps, as the file system gives it when it is asked
/// for the real one.
pub open spec fn canonical(path: Seq<Part>) -> bool {
    &&& path.len() > 0
    &&& path[0] is Anchor
    &&& forall|i: int| 1 <= i < path.len() ==> #[trigger] path[i] is Name
}

/// A component equal to another.
pub fn copy_part(part: &PathPart) -> (copy: PathPart)
    ensures
        copy@ == part@,
{
    match part {
        PathPart::Anchor(text) => PathPart::Anchor(owned(text.as_str())),
        PathPart::Parent => PathPart::Parent,
        PathPart::Current => PathPart::Current,
        PathPart::Name(text) => PathPart::Name(owned(text.as_str())),
    }
}

/// A path equal to another.
pub fn copy_path(path: &[PathPart]) -> (copy: Vec<PathPart>)
    ensures
        parts(copy@) == parts(path@),
{
    let mut copy: Vec<PathPart> = Vec::new();
    push_path(&mut copy, path);
    assert(parts(copy@) =~= parts(path@));
    copy
}

/// Appends the components of a path.
pub fn push_path(out: &mut Vec<PathPart>, path: &[PathPart])
    ensures
        parts(final(out)@) == parts(old(out)@) + parts(path@),
{
    let ghost before = parts(out@);
    let mut i: usize = 0;
    assert(parts(out@) =~= before + parts(path@).take(0));
    while i < path.len()
        invariant
            i <= path@.len(),
            parts(out@) == before + parts(path@).take(i as int),
        decreases path@.len() - i,
    {
        let ghost shorter = parts(out@);
        out.push(copy_part(&path[i]));
        proof {
            assert(parts(out@) =~= shorter.push(path@[i as int]@));
            assert(parts(path@).take(i + 1) =~= parts(path@).take(i as int).push(
                path@[i as int]@,
            ));
            assert(parts(out@) =~= before + parts(path@).take(i + 1));
        }
        i += 1;
    }
    assert(parts(path@).take(i as int) =~= parts(path@));
}

/// Are two components equal?
pub fn same_part(a: &PathPart, b: &PathPart) -> (same: bool)
    ensures
        same == (a@ == b@),
{
    match (a, b) {
        (PathPart::Anchor(x), PathPart::Anchor(y)) => same_text(x.as_str(), y.as_str()),
        (PathPart::Parent, PathPart::Parent) => true,
        (PathPart::Current, PathPart::Current) => true,
        (PathPart::Name(x), PathPart::Name(y)) => same_text(x.as_str(), y.as_str()),
        _ => false,
    }
}

/// Does a path start with these components?
pub fn starts_with(path: &[PathPart], base: &[PathPart]) -> (inside: bool)
    ensures
        inside == within(parts(path@), parts(base@)),
{
    if path.len() < base.len() {
        return false;
    }
    let mut i: usize = 0;
    while i < base.len()
        invariant
            i <= base@.len() <= path@.len(),
            forall|j: int| 0 <= j < i ==> parts(path@)[j] == #[trigger] parts(base@)[j],
        decreases base@.len() - i,
    {
        if !same_part(&path[i], &base[i]) {
            proof {
                assert(parts(path@)[i as int] != parts(base@)[i as int]);
                assert(parts(path@).take(base@.len() as int)[i as int] == parts(path@)[i as int]);
            }
            return false;
        }
        i += 1;
    }
    assert(parts(path@).take(base@.len() as int) =~= parts(base@));
    true
}

/// Are two paths equal?
pub fn same_path(a: &[PathPart], b: &[PathPart]) -> (same: bool)
    ensures
        same == (parts(a@) == parts(b@)),
{
    if a.len() != b.len() {
        assert(parts(a@).len() != parts(b@).len());
        return false;
    }
    let same = starts_with(a, b);
    assert(parts(a@).take(b@.len() as int) =~= parts(a@));
    same
}

/// Joins a path onto a base and follows its steps, unless that leads out of the
/// base.
pub fn contain(base: &[PathPart], relative: &[PathPart]) -> (path: Option<Vec<PathPart>>)
    ensures
        match path {
            Some(found) => contained(parts(base@), parts(relative@)) == Some(parts(found@)),
            None => contained(parts(base@), parts(relative@)) is None,
        },
{
    let absolute = relative.len() > 0 && matches!(relative[0], PathPart::Anchor(_));
    let mut joined: Vec<PathPart> = Vec::new();
    if !absolute {
        push_path(&mut joined, base);
    }
    push_path(&mut joined, relative);
    let ghost whole = parts(joined@);
    proof {
        assert(absolute == (parts(relative@).len() > 0 && parts(relative@)[0] is Anchor));
        assert(whole =~= joined_path(parts(base@), parts(relative@)));
    }
    let mut done: Vec<PathPart> = Vec::new();
    let mut i: usize = 0;
    assert(parts(done@) =~= Seq::empty());
    while i < joined.len()
        invariant
            i <= joined@.len(),
            whole == parts(joined@),
            whole == joined_path(parts(base@), parts(relative@)),
            normalised(whole, i as int, parts(done@)) == normalised(whole, 0, Seq::empty()),
        decreases joined@.len() - i,
    {
        let ghost before = parts(done@);
        assert(whole[i as int] == joined@[i as int]@);
        match &joined[i] {
            PathPart::Parent => {
                let length: usize = done.len();
                if length == 0 || !matches!(done[length - 1], PathPart::Name(_)) {
                    proof {
                        if length > 0 {
                            assert(before.last() == done@.last()@);
                        }
                    }
                    return None;
                }
                assert(before.last() == done@.last()@);
                done.pop();
                assert(parts(done@) =~= before.drop_last());
            },
            PathPart::Current => {},
            PathPart::Anchor(text) => {
                done.clear();
                done.push(PathPart::Anchor(owned(text.as_str())));
                assert(parts(done@) =~= seq![whole[i as int]]);
            },
            PathPart::Name(text) => {
                done.push(PathPart::Name(owned(text.as_str())));
                assert(parts(done@) =~= before.push(whole[i as int]));
            },
        }
        i += 1;
    }
    if starts_with(done.as_slice(), base) {
        Some(done)
    } else {
        None
    }
}

proof fn lemma_names_stay(path: Seq<Part>, i: int, done: Seq<Part>)
    requires
        0 <= i <= path.len(),
        forall|j: int| i <= j < path.len() ==> #[trigger] path[j] is Name,
    ensures
        normalised(path, i, done) == Some(done + path.skip(i)),
    decreases path.len() - i,
{
    if i < path.len() {
        lemma_names_stay(path, i + 1, done.push(path[i]));
        assert(done.push(path[i]) + path.skip(i + 1) =~= done + path.skip(i));
    } else {
        assert(done + path.skip(i) =~= done);
    }
}

/// Names beneath a canonical base lead to those names beneath it.
pub proof fn law_names_lead_inside(base: Seq<Part>, names: Seq<Seq<char>>)
    requires
        canonical(base),
    ensures
        contained(base, named(names)) == Some(base + named(names)),
{
    let relative = named(names);
    let whole = base + relative;
    assert(joined_path(base, relative) == whole) by {
        if relative.len() > 0 {
            assert(relative[0] is Name);
        }
    }
    assert forall|j: int| 1 <= j < whole.len() implies #[trigger] whole[j] is Name by {
        if j >= base.len() {
            assert(whole[j] == relative[j - base.len()]);
        } else {
            assert(whole[j] == base[j]);
        }
    }
    assert(whole[0] == base[0]);
    lemma_names_stay(whole, 1, seq![whole[0]]);
    assert(seq![whole[0]] + whole.skip(1) =~= whole);
    assert(whole.take(base.len() as int) =~= base);
}

proof fn lemma_no_steps(path: Seq<Part>, i: int, done: Seq<Part>)
    requires
        0 <= i <= path.len(),
        forall|j: int| 0 <= j < done.len() ==> !(#[trigger] done[j] is Parent),
        normalised(path, i, done) is Some,
    ensures
        forall|j: int|
            0 <= j < normalised(path, i, done).unwrap().len() ==> !(#[trigger] normalised(
                path,
                i,
                done,
            ).unwrap()[j] is Parent),
    decreases path.len() - i,
{
    if i < path.len() {
        match path[i] {
            Part::Parent => lemma_no_steps(path, i + 1, done.drop_last()),
            Part::Current => lemma_no_steps(path, i + 1, done),
            Part::Anchor(_) => lemma_no_steps(path, i + 1, seq![path[i]]),
            Part::Name(_) => lemma_no_steps(path, i + 1, done.push(path[i])),
        }
    }
}

/// A contained path starts with its base and takes no step up, whatever the
/// relative path was.
pub proof fn law_contained_paths_are_inside(base: Seq<Part>, relative: Seq<Part>)
    requires
        contained(base, relative) is Some,
    ensures
        within(contained(base, relative).unwrap(), base),
        forall|j: int|
            0 <= j < contained(base, relative).unwrap().len() ==> !(#[trigger] contained(
                base,
                relative,
            ).unwrap()[j] is Parent),
{
    lemma_no_steps(joined_path(base, relative), 0, Seq::empty());
}

proof fn lemma_rest_of_path(path: Seq<Part>, i: int, done: Seq<Part>)
    requires
        0 <= i <= path.len(),
    ensures
        normalised(path, i, done) == normalised(path.skip(i), 0, done),
    decreases path.len() - i,
{
    let rest = path.skip(i);
    if i < path.len() {
        assert(rest[0] == path[i]);
        assert(rest.skip(1) =~= path.skip(i + 1));
        let next = match path[i] {
            Part::Parent => done.drop_last(),
            Part::Current => done,
            Part::Anchor(_) => seq![path[i]],
            Part::Name(_) => done.push(path[i]),
        };
        lemma_rest_of_path(path, i + 1, next);
        lemma_rest_of_path(rest, 1, next);
    }
}

/// Going along one path and then along another leads to where the two lead one
/// behind the other.
pub proof fn law_paths_are_gone_along_in_turn(one: Seq<Part>, two: Seq<Part>, done: Seq<Part>)
    ensures
        normalised(one + two, 0, done) == match normalised(one, 0, done) {
            Some(reached) => normalised(two, 0, reached),
            None => None,
        },
    decreases one.len(),
{
    let all = one + two;
    if one.len() == 0 {
        assert(all =~= two);
    } else {
        let rest = one.skip(1);
        assert(all[0] == one[0]);
        assert(all.skip(1) =~= rest + two);
        let next = match one[0] {
            Part::Parent => done.drop_last(),
            Part::Current => done,
            Part::Anchor(_) => seq![one[0]],
            Part::Name(_) => done.push(one[0]),
        };
        lemma_rest_of_path(all, 1, next);
        lemma_rest_of_path(one, 1, next);
        law_paths_are_gone_along_in_turn(rest, two, next);
    }
}

/// A step up takes away the name before it and nothing else, and a step that
/// stays takes away nothing.
pub proof fn law_steps_cancel_out(one: Seq<Part>, name: Seq<char>, two: Seq<Part>)
    ensures
        normalised(one + seq![Part::Name(name), Part::Parent] + two, 0, Seq::empty())
            == normalised(one + two, 0, Seq::empty()),
        normalised(one + seq![Part::Current] + two, 0, Seq::empty()) == normalised(
            one + two,
            0,
            Seq::empty(),
        ),
{
    let none = Seq::<Part>::empty();
    let back = seq![Part::Name(name), Part::Parent];
    let stay = seq![Part::Current];
    law_paths_are_gone_along_in_turn(one, two, none);
    law_paths_are_gone_along_in_turn(one + back, two, none);
    law_paths_are_gone_along_in_turn(one, back, none);
    law_paths_are_gone_along_in_turn(one + stay, two, none);
    law_paths_are_gone_along_in_turn(one, stay, none);
    if let Some(reached) = normalised(one, 0, none) {
        let named = reached.push(Part::Name(name));
        assert(back[0] == Part::Name(name) && back[1] == Part::Parent);
        assert(named.drop_last() =~= reached);
        assert(normalised(back, 2, reached) == Some(reached));
        assert(normalised(back, 1, named) == Some(reached));
        assert(normalised(back, 0, reached) == Some(reached));
        assert(stay[0] == Part::Current);
        assert(normalised(stay, 1, reached) == Some(reached));
        assert(normalised(stay, 0, reached) == Some(reached));
    }
}

/// A path that starts anew is taken as it is, and not behind the base: one that leads
/// into the base leads where it would by itself.
pub proof fn law_an_absolute_path_is_taken_as_it_is(
    base: Seq<Part>,
    other: Seq<Part>,
    names: Seq<Seq<char>>,
)
    requires
        canonical(base),
        canonical(other),
    ensures
        contained(base, base + named(names)) == Some(base + named(names)),
        contained(base, other) == if within(other, base) {
            Some(other)
        } else {
            None
        },
{
    let none = Seq::<Seq<char>>::empty();
    law_names_lead_inside(base, names);
    law_names_lead_inside(other, none);
    assert(named(none) =~= Seq::empty());
    assert(other + named(none) =~= other);
    let whole = base + named(names);
    assert(whole[0] == base[0]);
    assert(joined_path(base, whole) == whole);
    if named(names).len() > 0 {
        assert(named(names)[0] is Name);
    }
    assert(joined_path(base, named(names)) == whole);
    assert(joined_path(other, named(none)) == other);
    assert(joined_path(base, other) == other);
}

} // verus!
