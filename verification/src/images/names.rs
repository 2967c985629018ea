//! File names and paths as the bytes that the file system keeps them in.

use crate::bytes::same_bytes;
use vstd::prelude::*;

verus! {

/// A path without what does not change where it leads: separators behind it,
/// and steps that stay.
pub open spec fn trimmed_end(path: Seq<u8>) -> Seq<u8>
    decreases path.len(),
{
    let n = path.len();
    if n > 1 && (path.last() == 47 || (path.last() == 46 && path[n - 2] == 47)) {
        trimmed_end(path.drop_last())
    } else {
        path
    }
}

/// Where the last of the first `n` bytes stands that is `byte`, plus one; zero
/// where there is none.
pub open spec fn after_last(bytes: Seq<u8>, byte: u8, n: int) -> int
    decreases n,
{
    if n <= 0 {
        0
    } else if bytes[n - 1] == byte {
        n
    } else {
        after_last(bytes, byte, n - 1)
    }
}

/// What stands behind the last separator.
pub open spec fn last_component(path: Seq<u8>) -> Seq<u8> {
    path.skip(after_last(path, 47, path.len() as int))
}

/// The name at the end of a path. A path that ends in the root or in a step has
/// none.
pub open spec fn file_name(path: Seq<u8>) -> Option<Seq<u8>> {
    let name = last_component(trimmed_end(path));
    if name.len() == 0 || name == seq![46u8] || name == seq![46u8, 46u8] {
        None
    } else {
        Some(name)
    }
}

/// The path that the name at the end of a path stands in.
pub open spec fn parent(path: Seq<u8>) -> Seq<u8> {
    let whole = trimmed_end(path);
    trimmed_end(whole.take(after_last(whole, 47, whole.len() as int)))
}

/// What stands behind the last dot of a name, unless the name starts with it.
pub open spec fn extension(name: Seq<u8>) -> Option<Seq<u8>> {
    let at = after_last(name, 46, name.len() as int);
    if at <= 1 {
        None
    } else {
        Some(name.skip(at))
    }
}

/// The extension of the name at the end of a path.
pub open spec fn path_extension(path: Seq<u8>) -> Option<Seq<u8>> {
    match file_name(path) {
        Some(name) => extension(name),
        None => None,
    }
}

/// An ASCII letter in lower case; any other byte as it is.
pub open spec fn lower_byte(byte: u8) -> u8 {
    if 65 <= byte <= 90 {
        (byte + 32) as u8
    } else {
        byte
    }
}

/// Are two byte strings equal but for the case of ASCII letters?
pub open spec fn same_letters(a: Seq<u8>, b: Seq<u8>) -> bool {
    &&& a.len() == b.len()
    &&& forall|i: int| 0 <= i < a.len() ==> lower_byte(#[trigger] a[i]) == lower_byte(b[i])
}

fn lower(byte: u8) -> (out: u8)
    ensures
        out == lower_byte(byte),
{
    if 65 <= byte && byte <= 90 {
        byte + 32
    } else {
        byte
    }
}

/// Are two byte strings equal but for the case of ASCII letters?
pub fn equal_letters(a: &[u8], b: &[u8]) -> (same: bool)
    ensures
        same == same_letters(a@, b@),
{
    if a.len() != b.len() {
        return false;
    }
    let mut i: usize = 0;
    while i < a.len()
        invariant
            i <= a@.len(),
            a@.len() == b@.len(),
            forall|j: int| 0 <= j < i ==> lower_byte(#[trigger] a@[j]) == lower_byte(b@[j]),
        decreases a@.len() - i,
    {
        if lower(a[i]) != lower(b[i]) {
            return false;
        }
        i += 1;
    }
    true
}

fn trimmed_length(path: &[u8]) -> (length: usize)
    ensures
        length <= path@.len(),
        path@.take(length as int) == trimmed_end(path@),
{
    let mut length: usize = path.len();
    assert(path@.take(length as int) =~= path@);
    while length > 1 && (path[length - 1] == 47 || (path[length - 1] == 46 && path[length - 2]
        == 47))
        invariant
            length <= path@.len(),
            trimmed_end(path@.take(length as int)) == trimmed_end(path@),
        decreases length,
    {
        assert(path@.take(length as int).drop_last() =~= path@.take(length - 1));
        length -= 1;
    }
    length
}

fn find_after_last(bytes: &[u8], byte: u8, n: usize) -> (at: usize)
    requires
        n <= bytes@.len(),
    ensures
        at == after_last(bytes@, byte, n as int),
        at <= n,
{
    let mut at: usize = n;
    while at > 0 && bytes[at - 1] != byte
        invariant
            at <= n <= bytes@.len(),
            after_last(bytes@, byte, at as int) == after_last(bytes@, byte, n as int),
        decreases at,
    {
        at -= 1;
    }
    at
}

proof fn lemma_after_last_take(bytes: Seq<u8>, byte: u8, n: int, length: int)
    requires
        0 <= n <= length <= bytes.len(),
    ensures
        after_last(bytes.take(length), byte, n) == after_last(bytes, byte, n),
    decreases n,
{
    if n > 0 {
        assert(bytes.take(length)[n - 1] == bytes[n - 1]);
        lemma_after_last_take(bytes, byte, n - 1, length);
    }
}

/// The bytes from `start` up to `end`.
pub fn bytes_between(bytes: &[u8], start: usize, end: usize) -> (out: Vec<u8>)
    requires
        start <= end <= bytes@.len(),
    ensures
        out@ == bytes@.subrange(start as int, end as int),
{
    let mut out: Vec<u8> = Vec::new();
    let mut i: usize = start;
    while i < end
        invariant
            start <= i <= end <= bytes@.len(),
            out@ == bytes@.subrange(start as int, i as int),
        decreases end - i,
    {
        out.push(bytes[i]);
        assert(out@ =~= bytes@.subrange(start as int, i + 1));
        i += 1;
    }
    out
}

/// The name at the end of a path.
pub fn name_of(path: &[u8]) -> (name: Option<Vec<u8>>)
    ensures
        match name {
            Some(found) => file_name(path@) == Some(found@),
            None => file_name(path@) is None,
        },
{
    let length: usize = trimmed_length(path);
    let start: usize = find_after_last(path, 47, length);
    let name = bytes_between(path, start, length);
    proof {
        lemma_after_last_take(path@, 47, length as int, length as int);
        assert(name@ =~= last_component(trimmed_end(path@)));
        assert((name@ =~= seq![46u8]) == (name@.len() == 1 && name@[0] == 46));
        assert((name@ =~= seq![46u8, 46u8]) == (name@.len() == 2 && name@[0] == 46 && name@[1]
            == 46));
    }
    if name.len() == 0 || (name.len() == 1 && name[0] == 46) || (name.len() == 2 && name[0] == 46
        && name[1] == 46) {
        None
    } else {
        Some(name)
    }
}

/// The path that the name at the end of a path stands in.
pub fn parent_of(path: &[u8]) -> (out: Vec<u8>)
    ensures
        out@ == parent(path@),
{
    let length: usize = trimmed_length(path);
    let start: usize = find_after_last(path, 47, length);
    let before = bytes_between(path, 0, start);
    proof {
        lemma_after_last_take(path@, 47, length as int, length as int);
        assert(before@ =~= trimmed_end(path@).take(start as int));
    }
    let kept: usize = trimmed_length(before.as_slice());
    let out = bytes_between(before.as_slice(), 0, kept);
    assert(out@ =~= before@.take(kept as int));
    out
}

/// What stands behind the last dot of a name, unless the name starts with it.
pub fn extension_of(name: &[u8]) -> (out: Option<Vec<u8>>)
    ensures
        match out {
            Some(found) => extension(name@) == Some(found@),
            None => extension(name@) is None,
        },
{
    let length: usize = name.len();
    let at: usize = find_after_last(name, 46, length);
    if at <= 1 {
        None
    } else {
        let out = bytes_between(name, at, length);
        assert(out@ =~= name@.skip(at as int));
        Some(out)
    }
}

/// The extension of the name at the end of a path.
pub fn extension_of_path(path: &[u8]) -> (out: Option<Vec<u8>>)
    ensures
        match out {
            Some(found) => path_extension(path@) == Some(found@),
            None => path_extension(path@) is None,
        },
{
    match name_of(path) {
        Some(name) => extension_of(name.as_slice()),
        None => None,
    }
}

/// A name beneath a directory.
pub open spec fn beneath(directory: Seq<u8>, name: Seq<u8>) -> Seq<u8> {
    if directory.len() == 0 || directory.last() == 47 {
        directory + name
    } else {
        directory.push(47) + name
    }
}

/// Joins a name onto a directory.
pub fn join(directory: &[u8], name: &[u8]) -> (path: Vec<u8>)
    ensures
        path@ == beneath(directory@, name@),
{
    let length: usize = directory.len();
    let mut path = bytes_between(directory, 0, length);
    assert(path@ =~= directory@);
    if length > 0 && directory[length - 1] != 47 {
        path.push(47);
    }
    crate::bytes::push_bytes(&mut path, name);
    path
}

/// Is this name in the list, and where first?
pub open spec fn position_from(names: Seq<Seq<u8>>, name: Seq<u8>, from: int) -> Option<int>
    decreases names.len() - from,
{
    if from >= names.len() {
        None
    } else if names[from] == name {
        Some(from)
    } else {
        position_from(names, name, from + 1)
    }
}

/// Where a name first stands in a list.
pub open spec fn position(names: Seq<Seq<u8>>, name: Seq<u8>) -> Option<int> {
    position_from(names, name, 0)
}

/// The values of a list of names.
pub open spec fn name_values(names: Seq<Vec<u8>>) -> Seq<Seq<u8>> {
    names.map_values(|name: Vec<u8>| name@)
}

/// Where a name first stands in a list.
pub fn find_name(names: &[Vec<u8>], name: &[u8]) -> (at: Option<usize>)
    ensures
        match at {
            Some(found) => position(name_values(names@), name@) == Some(found as int) && found
                < names@.len(),
            None => position(name_values(names@), name@) is None,
        },
{
    let mut i: usize = 0;
    while i < names.len()
        invariant
            i <= names@.len(),
            position_from(name_values(names@), name@, i as int) == position(
                name_values(names@),
                name@,
            ),
        decreases names@.len() - i,
    {
        assert(name_values(names@)[i as int] == names@[i as int]@);
        if same_bytes(names[i].as_slice(), name) {
            return Some(i);
        }
        i += 1;
    }
    None
}

/// Where a name stands, it is; and where none is given, it stands nowhere.
pub proof fn lemma_position(names: Seq<Seq<u8>>, name: Seq<u8>, from: int)
    requires
        0 <= from,
    ensures
        match position_from(names, name, from) {
            Some(at) => from <= at < names.len() && names[at] == name,
            None => forall|i: int| from <= i < names.len() ==> #[trigger] names[i] != name,
        },
    decreases names.len() - from,
{
    if from < names.len() && names[from] != name {
        lemma_position(names, name, from + 1);
    }
}

proof fn lemma_after_last(bytes: Seq<u8>, byte: u8, n: int)
    requires
        0 <= n <= bytes.len(),
    ensures
        0 <= after_last(bytes, byte, n) <= n,
        forall|i: int| after_last(bytes, byte, n) <= i < n ==> #[trigger] bytes[i] != byte,
    decreases n,
{
    if n > 0 && bytes[n - 1] != byte {
        lemma_after_last(bytes, byte, n - 1);
    }
}

proof fn lemma_none_before(bytes: Seq<u8>, byte: u8, n: int)
    requires
        0 <= n <= bytes.len(),
        forall|i: int| 0 <= i < n ==> #[trigger] bytes[i] != byte,
    ensures
        after_last(bytes, byte, n) == 0,
    decreases n,
{
    if n > 0 {
        lemma_none_before(bytes, byte, n - 1);
    }
}

/// The name at the end of a path is a name by itself, with the same extension.
pub proof fn lemma_file_name(path: Seq<u8>)
    requires
        file_name(path) is Some,
    ensures
        file_name(file_name(path).unwrap()) == file_name(path),
        path_extension(file_name(path).unwrap()) == path_extension(path),
{
    let whole = trimmed_end(path);
    let at = after_last(whole, 47, whole.len() as int);
    let name = file_name(path).unwrap();
    lemma_after_last(whole, 47, whole.len() as int);
    assert(name == whole.skip(at));
    assert forall|i: int| 0 <= i < name.len() implies #[trigger] name[i] != 47 by {
        assert(name[i] == whole[at + i]);
    }
    assert(trimmed_end(name) == name);
    lemma_none_before(name, 47, name.len() as int);
    assert(name.skip(0) =~= name);
}

/// What can stand at the end of a path: not nothing, no step, and no separator
/// in it.
pub open spec fn plain_name(name: Seq<u8>) -> bool {
    &&& name.len() > 0
    &&& name != seq![46u8]
    &&& name != seq![46u8, 46u8]
    &&& forall|i: int| 0 <= i < name.len() ==> #[trigger] name[i] != 47
}

/// A name that is put beneath a directory is the name at the end of the path,
/// and the directory is what it stands in.
pub proof fn law_a_name_stands_in_its_directory(directory: Seq<u8>, name: Seq<u8>)
    requires
        plain_name(name),
        trimmed_end(directory) == directory,
    ensures
        file_name(beneath(directory, name)) == Some(name),
        parent(beneath(directory, name)) == directory,
        path_extension(beneath(directory, name)) == extension(name),
{
    let path = beneath(directory, name);
    let start = path.len() - name.len();
    assert forall|i: int| start <= i < path.len() implies #[trigger] path[i] == name[i - start] by {}
    assert(path.last() == name.last());
    if name.len() == 1 {
        assert(name != seq![46u8]);
        assert(name =~= seq![name[0]]);
    } else {
        assert(path[path.len() - 2] == name[name.len() - 2]);
    }
    assert(trimmed_end(path) == path);
    lemma_after_last(path, 47, path.len() as int);
    let at = after_last(path, 47, path.len() as int);
    lemma_last_place(path, 47, path.len() as int, start);
    assert(at == start);
    assert(path.skip(start) =~= name);
    if directory.len() == 0 {
        assert(path.take(0) =~= directory);
    } else if directory.last() == 47 {
        assert(path.take(start) =~= directory);
    } else {
        assert(path.take(start) =~= directory.push(47));
        assert(directory.push(47).drop_last() =~= directory);
    }
}

/// A byte that stands right before `start`, or `start` is zero, and not from
/// there on.
proof fn lemma_last_place(bytes: Seq<u8>, byte: u8, n: int, start: int)
    requires
        0 <= start <= n <= bytes.len(),
        start > 0 ==> bytes[start - 1] == byte,
        forall|i: int| start <= i < n ==> #[trigger] bytes[i] != byte,
    ensures
        after_last(bytes, byte, n) == start,
    decreases n,
{
    if n > start {
        lemma_last_place(bytes, byte, n - 1, start);
    }
}

/// The extension of a name is what stands behind its last dot; what stands
/// behind a dot that the name starts with is none.
pub proof fn law_the_last_dot_starts_the_extension(stem: Seq<u8>, end: Seq<u8>)
    requires
        forall|i: int| 0 <= i < end.len() ==> #[trigger] end[i] != 46,
    ensures
        extension(end) is None,
        extension(stem.push(46) + end) == if stem.len() == 0 {
            None
        } else {
            Some(end)
        },
{
    lemma_none_before(end, 46, end.len() as int);
    let name = stem.push(46) + end;
    assert forall|i: int| stem.len() < i < name.len() implies #[trigger] name[i] != 46 by {
        assert(name[i] == end[i - stem.len() - 1]);
    }
    lemma_last_place(name, 46, name.len() as int, stem.len() as int + 1);
    assert(name.skip(stem.len() as int + 1) =~= end);
}

/// Two bytes are the same letter exactly when they are the same, or one is a
/// capital and the other stands as far behind it as the small letters do.
pub proof fn law_letters_have_two_cases(a: u8, b: u8)
    ensures
        lower_byte(a) == lower_byte(b) <==> a == b || (65 <= a <= 90 && b == a + 32) || (65 <= b
            <= 90 && a == b + 32),
{
}

/// A name is found where it first stands, and only a name that stands nowhere is
/// not found.
pub proof fn law_a_name_is_found_where_it_first_stands(names: Seq<Seq<u8>>, name: Seq<u8>, at: int)
    requires
        0 <= at < names.len(),
        names[at] == name,
        forall|i: int| 0 <= i < at ==> #[trigger] names[i] != name,
    ensures
        position(names, name) == Some(at),
{
    lemma_first_place(names, name, at, 0);
}

proof fn lemma_first_place(names: Seq<Seq<u8>>, name: Seq<u8>, at: int, from: int)
    requires
        0 <= from <= at < names.len(),
        names[at] == name,
        forall|i: int| from <= i < at ==> #[trigger] names[i] != name,
    ensures
        position_from(names, name, from) == Some(at),
    decreases at - from,
{
    if from < at {
        lemma_first_place(names, name, at, from + 1);
    }
}

} // verus!
