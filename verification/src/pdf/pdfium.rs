//! What is made of the answers of the drawing library: decisions and texts, in
//! plain values. The library itself is asked elsewhere, in a process of its own.

use crate::images::names::{
    beneath, file_name, join as join_path, law_a_name_stands_in_its_directory, name_of, name_values,
    parent, parent_of, plain_name, trimmed_end,
};
use crate::pdf::capabilities::{ActionKind, AnnotationSubtype, FormType};
use crate::pdf::{
    full_region, on_page, request_fault, LinkTarget, PdfError, PdfFault, Region, RenderRequest,
};
use crate::pdftext::{is_high, is_low};
use crate::pdfwrite::object::{utf16, utf16_of};
use crate::text::{
    chars_of, decimal_text, is_white_space, join, joined, owned, push_decimal, push_str,
    text_between, text_from_utf8, views, white_space,
};
use vstd::prelude::*;
use vstd::utf8::{decode_utf8, valid_utf8};

verus! {

/// The longest page label that is read, in bytes.
pub const MAX_PAGE_LABEL_BYTES: u64 = 256;

/// The longest title of a bookmark that is read, in bytes.
pub const MAX_BOOKMARK_TITLE_BYTES: u64 = 4_096;

/// The longest name of an attachment that is read, in bytes.
pub const MAX_ATTACHMENT_NAME_BYTES: u64 = 1_024;

/// How many attachments are looked at.
pub const MAX_ATTACHMENTS: i32 = 4_096;

/// How many annotations of a page are looked at.
pub const MAX_ANNOTATIONS_PER_PAGE: i32 = 256;

/// How many pages are looked at for what they declare.
pub const MAX_INSPECTED_PAGES: usize = 512;

/// How many bytes of a file are scanned for transitions.
pub const MAX_SCANNED_BYTES: u64 = 8_388_608;

/// The order in which a bitmap holds its channels, as the library counts it.
pub const FPDF_BITMAP_BGRA: i32 = 4;

/// Makes the library fill a bitmap in the order that frames are in.
pub const FPDF_REVERSE_BYTE_ORDER: i32 = 0x10;

/// Makes the library draw the annotations of a page.
pub const FPDF_ANNOT: i32 = 0x01;

/// A rendering that is not done yet.
pub const FPDF_RENDER_TOBECONTINUED: u32 = 1;

/// A rendering that is done.
pub const FPDF_RENDER_DONE: u32 = 2;

/// The longest address that is passed on.
pub const MAX_URI_BYTES: u64 = 2_048;

/// The most links of one page that are passed on.
pub const MAX_LINKS_PER_PAGE: usize = 512;

/// The most scripts that are named.
pub const MAX_JAVASCRIPT_ACTIONS: i32 = 64;

/// The longest name of a script.
pub const MAX_JAVASCRIPT_NAME_BYTES: u64 = 512;

/// The largest attachment.
pub const MAX_ATTACHMENT_FILE_BYTES: u64 = 67_108_864;

/// How paths are spelled on a platform.
#[derive(Debug, Clone, Copy, PartialEq, Eq, Structural)]
pub enum PathConvention {
    /// With slashes, which is how a document spells them too.
    Posix,
    /// With colons.
    Apple,
    /// With backslashes.
    Windows,
}

/// How paths are spelled on the platform of this name.
pub fn convention_of(platform: &str) -> (convention: PathConvention)
    ensures
        convention == (if platform@ == "macos"@ {
            PathConvention::Apple
        } else if platform@ == "windows"@ {
            PathConvention::Windows
        } else {
            PathConvention::Posix
        }),
{
    if crate::text::same_text(platform, "macos") {
        PathConvention::Apple
    } else if crate::text::same_text(platform, "windows") {
        PathConvention::Windows
    } else {
        PathConvention::Posix
    }
}

/// What separates names in this spelling.
pub open spec fn separator(convention: PathConvention) -> char {
    match convention {
        PathConvention::Posix => '/',
        PathConvention::Apple => ':',
        PathConvention::Windows => '\\',
    }
}

/// A path with slashes for its separators.
pub open spec fn with_slashes(path: Seq<char>, convention: PathConvention) -> Seq<char> {
    path.map_values(
        |c: char|
            if c == separator(convention) {
                '/'
            } else {
                c
            },
    )
}

/// Spells a path as a document does. For a relative path, which is all that is
/// ever followed, this undoes exactly what the library does to it.
pub fn pdf_separators(path: &str, convention: PathConvention) -> (out: String)
    ensures
        out@ == with_slashes(path@, convention),
{
    let from = match convention {
        PathConvention::Posix => '/',
        PathConvention::Apple => ':',
        PathConvention::Windows => '\\',
    };
    let chars = chars_of(path);
    let mut out = String::new();
    let mut i: usize = 0;
    assert(out@ =~= with_slashes(path@, convention).take(0));
    while i < chars.len()
        invariant
            i <= chars@.len(),
            chars@ == path@,
            from == separator(convention),
            out@ == with_slashes(path@, convention).take(i as int),
        decreases chars@.len() - i,
    {
        if chars[i] == from {
            out.push('/');
        } else {
            out.push(chars[i]);
        }
        assert(out@ =~= with_slashes(path@, convention).take(i + 1));
        i += 1;
    }
    assert(out@ =~= with_slashes(path@, convention));
    out
}

/// A path of slashes that holds none of another separator survives being spelled
/// with it and back.
pub proof fn law_spelling_is_undone(path: Seq<char>, convention: PathConvention)
    requires
        !path.contains(separator(convention)) || convention == PathConvention::Posix,
    ensures
        with_slashes(
            path.map_values(
                |c: char|
                    if c == '/' {
                        separator(convention)
                    } else {
                        c
                    },
            ),
            convention,
        ) == path,
{
    let host = path.map_values(
        |c: char|
            if c == '/' {
                separator(convention)
            } else {
                c
            },
    );
    assert forall|i: int| 0 <= i < path.len() implies with_slashes(host, convention)[i]
        == path[i] by {
        assert(path.contains(path[i]));
    }
    assert(with_slashes(host, convention) =~= path);
}

/// The places where the library is looked for, in order: where the environment
/// says, beside the program, where a package puts it, and here.
pub open spec fn library_places(environment: Option<Seq<u8>>, program: Option<Seq<u8>>) -> Seq<
    Seq<u8>,
> {
    let first = match environment {
        Some(path) => seq![path],
        None => Seq::empty(),
    };
    let beside = match program {
        Some(path) => {
            let folder = parent(path);
            let near = seq![folder, beneath(folder, crate::bytes::utf8("lib"@))];
            if file_name(folder) is Some {
                near.push(
                    beneath(parent(folder), crate::bytes::utf8("lib/pulpit"@)),
                ).push(beneath(parent(folder), crate::bytes::utf8("lib64/pulpit"@)))
            } else {
                near
            }
        },
        None => Seq::empty(),
    };
    first + beside + seq![crate::bytes::utf8("./lib"@), crate::bytes::utf8("."@)]
}

/// The value of an optional path.
pub open spec fn path_value(path: Option<Vec<u8>>) -> Option<Seq<u8>> {
    match path {
        Some(bytes) => Some(bytes@),
        None => None,
    }
}

/// Lists the places where the library is looked for.
pub fn library_candidates(environment: Option<Vec<u8>>, program: Option<Vec<u8>>) -> (places: Vec<
    Vec<u8>,
>)
    ensures
        name_values(places@) == library_places(path_value(environment), path_value(program)),
{
    let ghost all = library_places(path_value(environment), path_value(program));
    let mut places: Vec<Vec<u8>> = Vec::new();
    let ghost mut so_far: Seq<Seq<u8>> = Seq::empty();
    assert(name_values(places@) =~= so_far);
    if let Some(path) = environment {
        places.push(path);
        proof {
            so_far = seq![path@];
            assert(name_values(places@) =~= so_far);
        }
    }
    if let Some(path) = program {
        let folder = parent_of(path.as_slice());
        let lib = join_path(folder.as_slice(), "lib".as_bytes());
        let above = parent_of(folder.as_slice());
        let named = name_of(folder.as_slice()).is_some();
        let ghost near = seq![folder@, lib@];
        let ghost start = so_far;
        places.push(folder);
        places.push(lib);
        proof {
            so_far = start + near;
            assert(name_values(places@) =~= so_far);
        }
        if named {
            let one = join_path(above.as_slice(), "lib/pulpit".as_bytes());
            let two = join_path(above.as_slice(), "lib64/pulpit".as_bytes());
            let ghost more = near.push(one@).push(two@);
            places.push(one);
            places.push(two);
            proof {
                so_far = start + more;
                assert(name_values(places@) =~= so_far);
            }
        }
    }
    places.push(crate::bytes::text_bytes("./lib"));
    places.push(crate::bytes::text_bytes("."));
    proof {
        assert(so_far + seq![crate::bytes::utf8("./lib"@), crate::bytes::utf8("."@)] =~= all);
        assert(name_values(places@) =~= all);
    }
    places
}

/// What is said when the library was found nowhere.
pub fn binding_failure(attempts: &[String]) -> (error: PdfError)
    ensures
        error@ == PdfFault::Unavailable(joined(views(attempts@), "; "@)),
{
    PdfError::Unavailable(join(attempts, "; "))
}

/// The form that the library's number stands for.
pub fn form_type(code: i32) -> (form: FormType)
    ensures
        form == (if code == 0 {
            FormType::NoForm
        } else if code == 2 || code == 3 {
            FormType::Xfa
        } else {
            FormType::AcroForm
        }),
{
    if code == 0 {
        FormType::NoForm
    } else if code == 2 || code == 3 {
        FormType::Xfa
    } else {
        FormType::AcroForm
    }
}

/// The annotation that the library's number stands for.
pub open spec fn subtype_of(code: u32) -> AnnotationSubtype {
    if code == 2 {
        AnnotationSubtype::Link
    } else if code == 20 {
        AnnotationSubtype::Widget
    } else if code == 21 {
        AnnotationSubtype::Screen
    } else if code == 19 {
        AnnotationSubtype::Movie
    } else if code == 18 {
        AnnotationSubtype::Sound
    } else if code == 25 {
        AnnotationSubtype::ThreeD
    } else if code == 26 {
        AnnotationSubtype::RichMedia
    } else {
        AnnotationSubtype::Other
    }
}

/// The annotation that the library's number stands for.
pub fn annotation_subtype(code: u32) -> (subtype: AnnotationSubtype)
    ensures
        subtype == subtype_of(code),
{
    match code {
        2 => AnnotationSubtype::Link,
        20 => AnnotationSubtype::Widget,
        21 => AnnotationSubtype::Screen,
        19 => AnnotationSubtype::Movie,
        18 => AnnotationSubtype::Sound,
        25 => AnnotationSubtype::ThreeD,
        26 => AnnotationSubtype::RichMedia,
        _ => AnnotationSubtype::Other,
    }
}

/// The action of a link: a destination of its own comes first, and then what the
/// library's number stands for.
pub open spec fn action_of(has_destination: bool, action: Option<u64>) -> ActionKind {
    if has_destination {
        ActionKind::GoTo
    } else {
        match action {
            None => ActionKind::NoAction,
            Some(code) => if code == 1 {
                ActionKind::GoTo
            } else if code == 3 {
                ActionKind::Uri
            } else if code == 4 {
                ActionKind::Launch
            } else if code == 2 {
                ActionKind::RemoteGoTo
            } else if code == 5 {
                ActionKind::EmbeddedGoTo
            } else {
                ActionKind::Unrecognised
            },
        }
    }
}

/// The action of a link.
pub fn link_action(has_destination: bool, action: Option<u64>) -> (kind: ActionKind)
    ensures
        kind == action_of(has_destination, action),
{
    if has_destination {
        return ActionKind::GoTo;
    }
    match action {
        None => ActionKind::NoAction,
        Some(code) => match code {
            1 => ActionKind::GoTo,
            3 => ActionKind::Uri,
            4 => ActionKind::Launch,
            2 => ActionKind::RemoteGoTo,
            5 => ActionKind::EmbeddedGoTo,
            _ => ActionKind::Unrecognised,
        },
    }
}

/// Where a text without the white space before it starts.
pub open spec fn trim_start(text: Seq<char>, from: int) -> int
    decreases text.len() - from,
{
    if from < text.len() && is_white_space(text[from]) {
        trim_start(text, from + 1)
    } else {
        from
    }
}

/// Where the first `end` characters of a text without the white space behind
/// them end, not before `start`.
pub open spec fn trim_end(text: Seq<char>, start: int, end: int) -> int
    decreases end - start,
{
    if end > start && is_white_space(text[end - 1]) {
        trim_end(text, start, end - 1)
    } else {
        end
    }
}

/// A text without the white space around it.
pub open spec fn trimmed(text: Seq<char>) -> Seq<char> {
    let start = trim_start(text, 0);
    text.subrange(start, trim_end(text, start, text.len() as int))
}

fn trim(text: &str) -> (out: String)
    ensures
        out@ == trimmed(text@),
{
    let chars = chars_of(text);
    let length: usize = chars.len();
    let mut start: usize = 0;
    while start < length && white_space(chars[start])
        invariant
            start <= length,
            length == chars@.len(),
            chars@ == text@,
            trim_start(text@, start as int) == trim_start(text@, 0),
        decreases length - start,
    {
        start += 1;
    }
    let mut end: usize = length;
    while end > start && white_space(chars[end - 1])
        invariant
            start <= end <= length,
            length == chars@.len(),
            chars@ == text@,
            trim_end(text@, start as int, end as int) == trim_end(
                text@,
                start as int,
                length as int,
            ),
        decreases end - start,
    {
        end -= 1;
    }
    text_between(chars.as_slice(), start, end)
}

/// The code unit at `at` of UTF-16 with its low byte first.
pub open spec fn little_unit(bytes: Seq<u8>, at: int) -> int {
    bytes[at] + bytes[at + 1] * 256
}

/// The text that UTF-16 with its low byte first stands for, from `at` on and up
/// to a zero. There is none where half a character stands in it; a last byte
/// that is alone does not count.
pub open spec fn utf16le_from(bytes: Seq<u8>, at: int) -> Option<Seq<char>>
    decreases bytes.len() - at,
{
    if at + 1 >= bytes.len() || little_unit(bytes, at) == 0 {
        Some(Seq::empty())
    } else {
        let unit = little_unit(bytes, at);
        if is_high(unit) {
            if at + 3 < bytes.len() && is_low(little_unit(bytes, at + 2)) {
                match utf16le_from(bytes, at + 4) {
                    Some(rest) => Some(
                        seq![
                            (0x10000 + (unit - 0xD800) * 0x400 + (little_unit(bytes, at + 2)
                                - 0xDC00)) as char,
                        ] + rest,
                    ),
                    None => None,
                }
            } else {
                None
            }
        } else if is_low(unit) {
            None
        } else {
            match utf16le_from(bytes, at + 2) {
                Some(rest) => Some(seq![unit as char] + rest),
                None => None,
            }
        }
    }
}

/// A text with another before it, where there is one.
pub open spec fn behind(before: Seq<char>, rest: Option<Seq<char>>) -> Option<Seq<char>> {
    match rest {
        Some(text) => Some(before + text),
        None => None,
    }
}

/// Decodes UTF-16 with its low byte first, up to a zero.
pub fn decode_utf16le(bytes: &[u8]) -> (text: Option<String>)
    ensures
        match text {
            Some(found) => utf16le_from(bytes@, 0) == Some(found@),
            None => utf16le_from(bytes@, 0) is None,
        },
{
    let length: usize = bytes.len();
    let mut text = String::new();
    let mut at: usize = 0;
    proof {
        if let Some(rest) = utf16le_from(bytes@, 0) {
            assert(text@ + rest =~= rest);
        }
    }
    while at < length && length - at >= 2
        invariant
            at <= length,
            length == bytes@.len(),
            behind(text@, utf16le_from(bytes@, at as int)) == utf16le_from(bytes@, 0),
        decreases length - at,
    {
        let ghost start = at as int;
        let ghost before = text@;
        let unit: u32 = bytes[at] as u32 + bytes[at + 1] as u32 * 256;
        assert(unit == little_unit(bytes@, start));
        if unit == 0 {
            assert(text@ + Seq::<char>::empty() =~= text@);
            return Some(text);
        }
        let mut code: u32 = unit;
        let mut taken: usize = 2;
        if unit >= 0xD800 && unit < 0xE000 {
            if unit >= 0xDC00 || length - at < 4 {
                return None;
            }
            let second: u32 = bytes[at + 2] as u32 + bytes[at + 3] as u32 * 256;
            assert(second == little_unit(bytes@, start + 2));
            if second < 0xDC00 || second >= 0xE000 {
                return None;
            }
            code = 0x10000 + (unit - 0xD800) * 0x400 + (second - 0xDC00);
            taken = 4;
        }
        match std::char::from_u32(code) {
            Some(c) => {
                proof {
                    crate::text::lemma_char_code(c);
                }
                text.push(c);
            },
            None => {
                return None;
            },
        }
        at += taken;
        proof {
            if let Some(rest) = utf16le_from(bytes@, at as int) {
                assert(text@ + rest =~= before + (seq![code as char] + rest));
            }
        }
    }
    assert(text@ + Seq::<char>::empty() =~= text@);
    Some(text)
}

/// A text of the library, trimmed, where anything is left of it.
pub open spec fn label_text(bytes: Seq<u8>) -> Option<Seq<char>> {
    match utf16le_from(bytes, 0) {
        Some(text) => if trimmed(text).len() > 0 {
            Some(trimmed(text))
        } else {
            None
        },
        None => None,
    }
}

/// Reads a text of the library: a title, or the label of a page.
pub fn utf16le_text(bytes: &[u8]) -> (text: Option<String>)
    ensures
        match text {
            Some(found) => label_text(bytes@) == Some(found@),
            None => label_text(bytes@) is None,
        },
{
    match decode_utf16le(bytes) {
        Some(whole) => {
            let out = trim(whole.as_str());
            if chars_of(out.as_str()).len() > 0 {
                Some(out)
            } else {
                None
            }
        },
        None => None,
    }
}

/// The texts among the first `n` that are not blank.
pub open spec fn worth_keeping(read: Seq<Option<Vec<u8>>>, n: int) -> Seq<Seq<char>>
    decreases n,
{
    if n <= 0 {
        Seq::empty()
    } else {
        let before = worth_keeping(read, n - 1);
        match read[n - 1] {
            Some(bytes) => match utf16le_from(bytes@, 0) {
                Some(text) => if trimmed(text).len() > 0 {
                    before.push(text)
                } else {
                    before
                },
                None => before,
            },
            None => before,
        }
    }
}

/// Joins what a document says of itself.
pub fn metadata_text(read: &[Option<Vec<u8>>]) -> (text: String)
    ensures
        text@ == joined(worth_keeping(read@, read@.len() as int), " "@),
{
    let mut collected: Vec<String> = Vec::new();
    let mut i: usize = 0;
    assert(views(collected@) =~= Seq::empty());
    while i < read.len()
        invariant
            i <= read@.len(),
            views(collected@) == worth_keeping(read@, i as int),
        decreases read@.len() - i,
    {
        let ghost before = views(collected@);
        if let Some(bytes) = &read[i] {
            if let Some(text) = decode_utf16le(bytes.as_slice()) {
                if chars_of(trim(text.as_str()).as_str()).len() > 0 {
                    collected.push(text);
                    assert(views(collected@) =~= before.push(text@));
                }
            }
        }
        i += 1;
    }
    join(collected.as_slice(), " ")
}

/// The names of scripts among the first `n`, trimmed.
pub open spec fn script_list(read: Seq<Option<Vec<u8>>>, n: int) -> Seq<Seq<char>>
    decreases n,
{
    if n <= 0 {
        Seq::empty()
    } else {
        let before = script_list(read, n - 1);
        match read[n - 1] {
            Some(bytes) => match label_text(bytes@) {
                Some(name) => before.push(name),
                None => before,
            },
            None => before,
        }
    }
}

/// How many scripts are named.
pub open spec fn script_count(count: i32) -> int {
    if count < 0 {
        0
    } else if count > MAX_JAVASCRIPT_ACTIONS {
        MAX_JAVASCRIPT_ACTIONS as int
    } else {
        count as int
    }
}

/// Names, made up to a number of them.
pub open spec fn made_up(names: Seq<Seq<char>>, count: int) -> Seq<Seq<char>>
    decreases count - names.len(),
{
    if names.len() >= count {
        names
    } else {
        made_up(names.push("unnamed script"@), count)
    }
}

/// Names the scripts of a document. One whose name cannot be read is there all
/// the same, and the count is what matters.
pub fn script_names(read: &[Option<Vec<u8>>], count: i32) -> (names: Vec<String>)
    ensures
        views(names@) == made_up(
            script_list(read@, read@.len() as int),
            script_count(count),
        ),
{
    let mut names: Vec<String> = Vec::new();
    let mut i: usize = 0;
    assert(views(names@) =~= Seq::empty());
    while i < read.len()
        invariant
            i <= read@.len(),
            views(names@) == script_list(read@, i as int),
        decreases read@.len() - i,
    {
        let ghost before = views(names@);
        if let Some(bytes) = &read[i] {
            if let Some(name) = utf16le_text(bytes.as_slice()) {
                names.push(name);
                assert(views(names@) =~= before.push(name@));
            }
        }
        i += 1;
    }
    let wanted: usize = if count < 0 {
        0
    } else if count > MAX_JAVASCRIPT_ACTIONS {
        64
    } else {
        count as usize
    };
    while names.len() < wanted
        invariant
            wanted == script_count(count),
            made_up(views(names@), wanted as int) == made_up(
                script_list(read@, read@.len() as int),
                wanted as int,
            ),
        decreases wanted - names@.len(),
    {
        let ghost before = views(names@);
        names.push(owned("unnamed script"));
        assert(views(names@) =~= before.push("unnamed script"@));
    }
    names
}

/// A destination in the document: a page, and a part of it to show.
#[derive(Debug, Clone, Copy, PartialEq, Eq, Structural)]
pub struct Destination {
    pub page: i32,
    pub zoom: Option<Region>,
}

/// What the library says of the action of a link.
pub enum LinkAction {
    GoTo(Option<Destination>),
    /// The address, with the zeros behind it.
    Uri(Vec<u8>),
    /// The file that a program would be, with the zeros behind it. It is never
    /// run.
    Launch(Vec<u8>),
    Other,
}

/// How long bytes are without the zeros behind them.
pub open spec fn without_zeros(bytes: Seq<u8>) -> Seq<u8>
    decreases bytes.len(),
{
    if bytes.len() > 0 && bytes.last() == 0 {
        without_zeros(bytes.drop_last())
    } else {
        bytes
    }
}

/// The text of bytes with zeros behind them, trimmed. There is none where it is
/// empty, too long, or not UTF-8.
pub open spec fn address(bytes: Seq<u8>) -> Option<Seq<char>> {
    if bytes.len() == 0 || bytes.len() > MAX_URI_BYTES {
        None
    } else if !valid_utf8(without_zeros(bytes)) {
        None
    } else {
        Some(trimmed(decode_utf8(without_zeros(bytes))))
    }
}

/// Where a link leads, as a value: to a page, or to an address.
pub enum Target {
    Page(nat, Option<Region>),
    Uri(Seq<char>),
}

/// The value of a target.
pub open spec fn target_value(target: LinkTarget) -> Target {
    match target {
        LinkTarget::Page { page, zoom } => Target::Page(page as nat, zoom),
        LinkTarget::Uri(uri) => Target::Uri(uri@),
    }
}

/// Where a destination leads, where there is one in this document.
pub open spec fn destination_target(destination: Option<Destination>) -> Option<Target> {
    match destination {
        Some(found) => if found.page < 0 {
            None
        } else {
            Some(Target::Page(found.page as nat, found.zoom))
        },
        None => None,
    }
}

/// Where a link leads: to its own destination, or to where its action does. A
/// launch becomes an address that only a player reads, and is never run.
pub open spec fn target_of(
    direct: Option<Destination>,
    action: Option<LinkAction>,
    convention: PathConvention,
) -> Option<Target> {
    if direct is Some {
        destination_target(direct)
    } else {
        match action {
            None => None,
            Some(LinkAction::GoTo(destination)) => destination_target(destination),
            Some(LinkAction::Uri(bytes)) => match address(bytes@) {
                Some(uri) => if uri.len() > 0 {
                    Some(Target::Uri(uri))
                } else {
                    None
                },
                None => None,
            },
            Some(LinkAction::Launch(bytes)) => match address(bytes@) {
                Some(path) => if path.len() > 0 {
                    Some(Target::Uri("run:"@ + with_slashes(path, convention)))
                } else {
                    None
                },
                None => None,
            },
            Some(LinkAction::Other) => None,
        }
    }
}

fn read_address(bytes: Vec<u8>) -> (text: Option<String>)
    ensures
        match text {
            Some(found) => address(bytes@) == Some(found@),
            None => address(bytes@) is None,
        },
{
    if bytes.len() == 0 || bytes.len() as u64 > MAX_URI_BYTES {
        return None;
    }
    let ghost all = bytes@;
    let mut rest = bytes;
    while rest.len() > 0 && rest[rest.len() - 1] == 0
        invariant
            without_zeros(rest@) == without_zeros(all),
        decreases rest@.len(),
    {
        let ghost before = rest@;
        rest.pop();
        assert(rest@ =~= before.drop_last());
    }
    match text_from_utf8(rest.as_slice()) {
        Some(text) => Some(trim(text.as_str())),
        None => None,
    }
}

fn follow(destination: Option<Destination>) -> (target: Option<LinkTarget>)
    ensures
        match target {
            Some(found) => destination_target(destination) == Some(target_value(found)),
            None => destination_target(destination) is None,
        },
{
    match destination {
        Some(found) => if found.page < 0 {
            None
        } else {
            Some(LinkTarget::Page { page: found.page as usize, zoom: found.zoom })
        },
        None => None,
    }
}

/// Decides where a link leads.
pub fn link_target(
    direct: Option<Destination>,
    action: Option<LinkAction>,
    convention: PathConvention,
) -> (target: Option<LinkTarget>)
    ensures
        match target {
            Some(found) => target_of(direct, action, convention) == Some(target_value(found)),
            None => target_of(direct, action, convention) is None,
        },
{
    if direct.is_some() {
        return follow(direct);
    }
    match action {
        None => None,
        Some(LinkAction::GoTo(destination)) => follow(destination),
        Some(LinkAction::Uri(bytes)) => match read_address(bytes) {
            Some(uri) => {
                if chars_of(uri.as_str()).len() > 0 {
                    Some(LinkTarget::Uri(uri))
                } else {
                    None
                }
            },
            None => None,
        },
        Some(LinkAction::Launch(bytes)) => match read_address(bytes) {
            Some(path) => {
                if chars_of(path.as_str()).len() > 0 {
                    let mut uri = owned("run:");
                    push_str(&mut uri, pdf_separators(path.as_str(), convention).as_str());
                    Some(LinkTarget::Uri(uri))
                } else {
                    None
                }
            },
            None => None,
        },
        Some(LinkAction::Other) => None,
    }
}

/// Whatever a link asks to be run, all that comes of it is an address that says
/// so.
pub proof fn law_nothing_is_launched(bytes: Vec<u8>, convention: PathConvention)
    ensures
        match target_of(None, Some(LinkAction::Launch(bytes)), convention) {
            Some(Target::Uri(uri)) => uri.len() >= "run:"@.len() && uri.take(
                "run:"@.len() as int,
            ) == "run:"@,
            Some(Target::Page(_, _)) => false,
            None => true,
        },
{
    if let Some(Target::Uri(uri)) = target_of(None, Some(LinkAction::Launch(bytes)), convention) {
        assert(uri.take("run:"@.len() as int) =~= "run:"@);
    }
}

/// A part of a page that is worth showing larger: one that lies on the page and
/// is not all of it.
pub fn worth_zooming(region: Region) -> (zoom: Option<Region>)
    ensures
        zoom == (if on_page(region) && region != full_region() {
            Some(region)
        } else {
            None
        }),
{
    if region.is_valid() && !region.is_full() {
        Some(region)
    } else {
        None
    }
}

/// Where a whole page lies so that the part of it that is asked for fills a
/// frame: where its corner is, and how large it is, in pixels.
#[derive(Debug, Clone, Copy, PartialEq, Eq, Structural)]
pub struct Placement {
    pub start_x: i32,
    pub start_y: i32,
    pub width: i32,
    pub height: i32,
}

/// How long a side is of which `share` millionths take `side` pixels, rounded,
/// as far as it can be told to the library.
pub open spec fn full_side(side: u32, share: u32) -> int {
    let full = (side * 1_000_000 + (share / 2) as int) / (share as int);
    if full > i32::MAX {
        i32::MAX as int
    } else {
        full
    }
}

/// How far a side is moved back so that what starts `offset` millionths along it
/// starts the frame, rounded.
pub open spec fn moved_back(offset: u32, full: int) -> int {
    -((offset * full + 500_000) / 1_000_000)
}

fn stretch(side: u32, share: u32) -> (full: i32)
    requires
        share > 0,
    ensures
        full == full_side(side, share),
        full >= 0,
{
    let length: u64 = (side as u64 * 1_000_000 + (share / 2) as u64) / share as u64;
    assert((side * 1_000_000 + (share / 2) as int) / (share as int) >= 0) by (nonlinear_arith)
        requires
            share > 0,
    ;
    if length > i32::MAX as u64 {
        i32::MAX
    } else {
        length as i32
    }
}

fn move_back(offset: u32, full: i32) -> (start: i32)
    requires
        offset <= 1_000_000,
        full >= 0,
    ensures
        start == moved_back(offset, full as int),
{
    assert(0 <= offset * full <= 1_000_000 * full) by (nonlinear_arith)
        requires
            offset <= 1_000_000,
            full >= 0,
    ;
    let distance: u64 = (offset as u64 * full as u64 + 500_000) / 1_000_000;
    assert(distance <= full);
    -(distance as i32)
}

/// Places a page so that the part of it that is asked for fills a frame.
pub fn page_placement(region: Region, width: u32, height: u32) -> (placement: Placement)
    requires
        on_page(region),
    ensures
        placement.width == full_side(width, region.width),
        placement.height == full_side(height, region.height),
        placement.start_x == moved_back(region.x, placement.width as int),
        placement.start_y == moved_back(region.y, placement.height as int),
{
    let full_width: i32 = stretch(width, region.width);
    let full_height: i32 = stretch(height, region.height);
    Placement {
        start_x: move_back(region.x, full_width),
        start_y: move_back(region.y, full_height),
        width: full_width,
        height: full_height,
    }
}

/// A whole page fills the frame as it stands.
pub proof fn law_a_whole_page_is_not_moved(width: u32, height: u32)
    requires
        width <= i32::MAX,
        height <= i32::MAX,
    ensures
        full_side(width, full_region().width) == width,
        full_side(height, full_region().height) == height,
        moved_back(full_region().x, width as int) == 0,
        moved_back(full_region().y, height as int) == 0,
{
}

/// The part that is asked for fills the frame: as much of a whole side as the part
/// has of the page is as long as that side of the frame, to within half of what a
/// pixel stands for.
pub proof fn law_the_part_fills_the_frame(side: u32, share: u32)
    requires
        0 < share <= 1_000_000,
        full_side(side, share) < i32::MAX,
    ensures
        -(share as int) <= 2 * (full_side(side, share) * share - side * 1_000_000) <= share as int,
{
    let full = full_side(side, share);
    let whole = side * 1_000_000 + (share / 2) as int;
    let rest = whole % (share as int);
    assert(whole == share * full + rest && 0 <= rest < share) by (nonlinear_arith)
        requires
            full == whole / (share as int),
            rest == whole % (share as int),
            share > 0,
    ;
    assert(share * full == full * share) by (nonlinear_arith);
}

/// No side is made longer than the library can be told.
pub proof fn law_a_side_is_as_long_as_can_be_told(side: u32, share: u32)
    requires
        0 < share <= 1_000_000,
        side * 1_000_000 > i32::MAX * (share as int),
    ensures
        full_side(side, share) == i32::MAX,
{
    let whole = side * 1_000_000 + (share / 2) as int;
    assert(whole / (share as int) >= i32::MAX) by (nonlinear_arith)
        requires
            whole >= i32::MAX * (share as int),
            share > 0,
    ;
}

/// What starts `offset` millionths along a side starts the frame: the page is
/// moved back by that much of its side, to within half a pixel.
pub proof fn law_the_part_starts_the_frame(offset: u32, full: int)
    requires
        offset <= 1_000_000,
        full >= 0,
    ensures
        -1_000_000 <= 2 * (offset * full + moved_back(offset, full) * 1_000_000) <= 1_000_000,
        -full <= moved_back(offset, full) <= 0,
{
    assert(0 <= offset * full <= 1_000_000 * full) by (nonlinear_arith)
        requires
            0 <= offset <= 1_000_000,
            full >= 0,
    ;
}

/// What is to be done about a rendering.
#[derive(Debug, Clone, PartialEq, Eq)]
pub enum RenderStep {
    /// Let it go on.
    Continue,
    /// It is done.
    Done,
    /// It has failed, or is not wanted any more.
    Failed(PdfError),
}

/// Decides what to do about a rendering: work that is not wanted any more gives
/// way, but what is done is done.
pub fn render_step(status: u32, cancelled: bool) -> (step: RenderStep)
    ensures
        match step {
            RenderStep::Continue => status == FPDF_RENDER_TOBECONTINUED && !cancelled,
            RenderStep::Done => status == FPDF_RENDER_DONE,
            RenderStep::Failed(error) => status != FPDF_RENDER_DONE && if cancelled {
                error@ == PdfFault::Cancelled
            } else {
                status != FPDF_RENDER_TOBECONTINUED && error@ == PdfFault::Render(
                    "PDFium render status "@ + decimal_text(status as nat),
                )
            },
        },
{
    if status == FPDF_RENDER_DONE {
        return RenderStep::Done;
    }
    if cancelled {
        return RenderStep::Failed(PdfError::Cancelled);
    }
    if status == FPDF_RENDER_TOBECONTINUED {
        return RenderStep::Continue;
    }
    let mut reason = owned("PDFium render status ");
    push_decimal(&mut reason, status as u64);
    RenderStep::Failed(PdfError::Render(reason))
}

/// The flags that a page is drawn with.
pub fn render_flags(with_annotations: bool) -> (flags: i32)
    ensures
        flags == (if with_annotations {
            0x11
        } else {
            0x10int
        }),
{
    if with_annotations {
        FPDF_REVERSE_BYTE_ORDER + FPDF_ANNOT
    } else {
        FPDF_REVERSE_BYTE_ORDER
    }
}

/// What is wrong with drawing a request into so many bytes, if anything.
pub open spec fn target_fault(request: RenderRequest, length: nat) -> Option<PdfFault> {
    match request_fault(request) {
        Some(fault) => Some(fault),
        None => if length < request.width * request.height * 4 {
            Some(
                PdfFault::Invalid(
                    "a "@ + decimal_text(length) + " byte target cannot hold a "@ + decimal_text(
                        request.width as nat,
                    ) + "x"@ + decimal_text(request.height as nat) + " frame"@,
                ),
            )
        } else {
            None
        },
    }
}

/// Refuses to draw into too few bytes; says how many are needed.
pub fn check_target(request: &RenderRequest, length: usize) -> (bytes: Result<usize, PdfError>)
    ensures
        match bytes {
            Ok(needed) => target_fault(*request, length as nat) is None && needed == request.width
                * request.height * 4,
            Err(error) => target_fault(*request, length as nat) == Some(error@),
        },
{
    if let Err(error) = request.validate() {
        return Err(error);
    }
    assert(0 <= request.width * request.height <= 16_384 * 16_384) by (nonlinear_arith)
        requires
            0 <= request.width <= 16_384,
            0 <= request.height <= 16_384,
    ;
    let needed: usize = request.width as usize * request.height as usize * 4;
    if length < needed {
        let mut reason = owned("a ");
        push_decimal(&mut reason, length as u64);
        push_str(&mut reason, " byte target cannot hold a ");
        push_decimal(&mut reason, request.width as u64);
        push_str(&mut reason, "x");
        push_decimal(&mut reason, request.height as u64);
        push_str(&mut reason, " frame");
        return Err(PdfError::Invalid(reason));
    }
    Ok(needed)
}

/// What is wrong with a document that was just opened, if anything.
pub open spec fn document_fault(path: Seq<char>, failure: Option<u64>, pages: i32) -> Option<
    PdfFault,
> {
    match failure {
        Some(code) => Some(
            PdfFault::Open(path, "PDFium error "@ + decimal_text(code as nat)),
        ),
        None => if pages <= 0 {
            Some(PdfFault::Open(path, "document has no pages"@))
        } else {
            None
        },
    }
}

/// Refuses a document that could not be opened, with the library's own number,
/// and one without pages: it must not take the place of one that works.
pub fn check_document(path: &str, failure: Option<u64>, pages: i32) -> (checked: Result<
    (),
    PdfError,
>)
    ensures
        match checked {
            Ok(()) => document_fault(path@, failure, pages) is None,
            Err(error) => document_fault(path@, failure, pages) == Some(error@),
        },
{
    if let Some(code) = failure {
        let mut reason = owned("PDFium error ");
        push_decimal(&mut reason, code);
        return Err(PdfError::Open { path: owned(path), reason });
    }
    if pages <= 0 {
        return Err(PdfError::Open { path: owned(path), reason: owned("document has no pages") });
    }
    Ok(())
}

/// Refuses a page that the document does not have.
pub fn check_page(page: usize, count: usize) -> (checked: Result<(), PdfError>)
    ensures
        match checked {
            Ok(()) => page < count,
            Err(error) => page >= count && error@ == PdfFault::PageOutOfRange(
                page as nat,
                count as nat,
            ),
        },
{
    if page >= count {
        Err(PdfError::PageOutOfRange { page, count })
    } else {
        Ok(())
    }
}

/// Is a text of so many bytes worth asking for? Two bytes are the zero at its
/// end alone, and what is longer than `most` is not what it claims to be.
pub fn worth_reading(length: u64, most: u64) -> (worth: bool)
    ensures
        worth == (2 < length <= most),
{
    length > 2 && length <= most
}

/// The name of an attachment, where it has one. It is told exactly: a name that
/// was trimmed could stand for another attachment.
pub fn attachment_name(bytes: &[u8]) -> (name: Option<String>)
    ensures
        match name {
            Some(found) => utf16le_from(bytes@, 0) == Some(found@) && found@.len() > 0,
            None => utf16le_from(bytes@, 0) is None || utf16le_from(bytes@, 0)->Some_0.len() == 0,
        },
{
    match decode_utf16le(bytes) {
        Some(text) => if chars_of(text.as_str()).len() > 0 {
            Some(text)
        } else {
            None
        },
        None => None,
    }
}

/// What was read of an attachment: so many bytes of those that were made ready.
pub fn take_attachment(name: &str, read: bool, bytes: Vec<u8>, written: usize) -> (taken: Result<
    Vec<u8>,
    PdfError,
>)
    ensures
        match taken {
            Ok(contents) => read && contents@ == (if written < bytes@.len() {
                bytes@.take(written as int)
            } else {
                bytes@
            }),
            Err(error) => !read && error@ == PdfFault::Invalid(
                "attachment `"@ + name@ + "` could not be read"@,
            ),
        },
{
    if !read {
        let mut reason = owned("attachment `");
        push_str(&mut reason, name);
        push_str(&mut reason, "` could not be read");
        return Err(PdfError::Invalid(reason));
    }
    let mut contents = bytes;
    if written < contents.len() {
        contents.truncate(written);
    }
    assert(written < bytes@.len() ==> contents@ =~= bytes@.take(written as int));
    Ok(contents)
}

/// What is said of an attachment that is not there.
pub fn no_attachment(name: &str) -> (error: PdfError)
    ensures
        error@ == PdfFault::Invalid("the document has no attachment named `"@ + name@ + "`"@),
{
    let mut reason = owned("the document has no attachment named `");
    push_str(&mut reason, name);
    push_str(&mut reason, "`");
    PdfError::Invalid(reason)
}

/// Where a bookmark leads: to the page of its own destination, or else to that of
/// an action that goes to one. A bookmark that wants anything else leads nowhere.
pub open spec fn bookmark_page(direct: Option<i32>, action: Option<(u64, Option<i32>)>) -> Option<
    nat,
> {
    let page = match direct {
        Some(page) => Some(page),
        None => match action {
            Some((code, destination)) => if code == 1 {
                destination
            } else {
                None
            },
            None => None,
        },
    };
    match page {
        Some(index) => if index >= 0 {
            Some(index as nat)
        } else {
            None
        },
        None => None,
    }
}

/// Where a bookmark leads, from the page of its own destination and from the
/// number and the page of its action.
pub fn bookmark_target(direct: Option<i32>, action: Option<(u64, Option<i32>)>) -> (target: Option<
    LinkTarget,
>)
    ensures
        match target {
            Some(found) => match bookmark_page(direct, action) {
                Some(page) => target_value(found) == Target::Page(page, None),
                None => false,
            },
            None => bookmark_page(direct, action) is None,
        },
{
    let page: Option<i32> = match direct {
        Some(page) => Some(page),
        None => match action {
            Some((1, destination)) => destination,
            _ => None,
        },
    };
    match page {
        Some(index) => if index >= 0 {
            Some(LinkTarget::Page { page: index as usize, zoom: None })
        } else {
            None
        },
        None => None,
    }
}

/// Refuses an attachment that has no file, or one that is too large, before
/// any memory is asked for.
pub fn check_attachment(name: &str, has_stream: bool, needed: u64) -> (checked: Result<
    (),
    PdfError,
>)
    ensures
        match checked {
            Ok(()) => has_stream && 0 < needed <= MAX_ATTACHMENT_FILE_BYTES,
            Err(error) => if !has_stream || needed == 0 {
                error@ == PdfFault::Invalid("attachment `"@ + name@ + "` has no file stream"@)
            } else {
                needed > MAX_ATTACHMENT_FILE_BYTES && error@ == PdfFault::Invalid(
                    "attachment `"@ + name@ + "` of "@ + decimal_text(needed as nat)
                        + " bytes exceeds the 67108864 byte limit"@,
                )
            },
        },
{
    let mut reason = owned("attachment `");
    push_str(&mut reason, name);
    if !has_stream || needed == 0 {
        push_str(&mut reason, "` has no file stream");
        return Err(PdfError::Invalid(reason));
    }
    if needed > MAX_ATTACHMENT_FILE_BYTES {
        push_str(&mut reason, "` of ");
        push_decimal(&mut reason, needed);
        push_str(&mut reason, " bytes exceeds the 67108864 byte limit");
        return Err(PdfError::Invalid(reason));
    }
    Ok(())
}

/// Adds what was found on a page to what was found before, but no more than so
/// much in all; says whether that is reached.
pub fn gather<T>(hits: &mut Vec<T>, found: Vec<T>, most: usize) -> (full: bool)
    ensures
        full == (old(hits)@.len() + found@.len() >= most),
        final(hits)@ == (if old(hits)@.len() + found@.len() >= most {
            (old(hits)@ + found@).take(most as int)
        } else {
            old(hits)@ + found@
        }),
{
    let ghost before = hits@;
    let ghost all = hits@ + found@;
    let mut rest = found;
    hits.append(&mut rest);
    assert(hits@ =~= all);
    if hits.len() >= most {
        hits.truncate(most);
        assert(hits@ =~= all.take(most as int));
        true
    } else {
        false
    }
}

proof fn lemma_trim_start(text: Seq<char>, from: int)
    requires
        0 <= from <= text.len(),
    ensures
        from <= trim_start(text, from) <= text.len(),
        forall|i: int| from <= i < trim_start(text, from) ==> is_white_space(#[trigger] text[i]),
        trim_start(text, from) < text.len() ==> !is_white_space(text[trim_start(text, from)]),
    decreases text.len() - from,
{
    if from < text.len() && is_white_space(text[from]) {
        lemma_trim_start(text, from + 1);
    }
}

proof fn lemma_trim_end(text: Seq<char>, start: int, end: int)
    requires
        0 <= start <= end <= text.len(),
    ensures
        start <= trim_end(text, start, end) <= end,
        forall|i: int| trim_end(text, start, end) <= i < end ==> is_white_space(#[trigger] text[i]),
        trim_end(text, start, end) > start ==> !is_white_space(
            text[trim_end(text, start, end) - 1],
        ),
    decreases end - start,
{
    if end > start && is_white_space(text[end - 1]) {
        lemma_trim_end(text, start, end - 1);
    }
}

/// A text is taken without the white space around it: what is cut off is white space
/// alone, and what is left neither starts nor ends in it.
pub proof fn law_texts_are_trimmed(text: Seq<char>)
    ensures
        exists|before: Seq<char>, after: Seq<char>|
            {
                &&& text == #[trigger] (before + trimmed(text) + after)
                &&& forall|i: int| 0 <= i < before.len() ==> is_white_space(#[trigger] before[i])
                &&& forall|i: int| 0 <= i < after.len() ==> is_white_space(#[trigger] after[i])
            },
        trimmed(text).len() > 0 ==> !is_white_space(trimmed(text)[0]) && !is_white_space(
            trimmed(text).last(),
        ),
{
    lemma_trim_start(text, 0);
    let start = trim_start(text, 0);
    lemma_trim_end(text, start, text.len() as int);
    let end = trim_end(text, start, text.len() as int);
    let before = text.take(start);
    let after = text.skip(end);
    assert(text =~= before + trimmed(text) + after);
}

/// Code units with their low bytes first.
pub open spec fn little_bytes(units: Seq<u16>) -> Seq<u8>
    decreases units.len(),
{
    if units.len() == 0 {
        Seq::empty()
    } else {
        little_bytes(units.drop_last()) + seq![
            (units.last() % 256) as u8,
            (units.last() / 256) as u8,
        ]
    }
}

proof fn lemma_little_joined(a: Seq<u16>, b: Seq<u16>)
    ensures
        little_bytes(a + b) == little_bytes(a) + little_bytes(b),
    decreases b.len(),
{
    if b.len() == 0 {
        assert(a + b =~= a);
        assert(little_bytes(a) + little_bytes(b) =~= little_bytes(a));
    } else {
        assert((a + b).drop_last() =~= a + b.drop_last());
        lemma_little_joined(a, b.drop_last());
        assert(little_bytes(a + b) =~= little_bytes(a) + little_bytes(b));
    }
}

proof fn lemma_little_char(c: char)
    ensures
        ({
            let bytes = little_bytes(utf16_of(c));
            if (c as int) < 0x10000 {
                &&& bytes.len() == 2
                &&& bytes[0] + bytes[1] * 256 == c as int
            } else {
                &&& bytes.len() == 4
                &&& bytes[0] + bytes[1] * 256 == 0xD800 + (c as int - 0x10000) / 0x400
                &&& bytes[2] + bytes[3] * 256 == 0xDC00 + (c as int - 0x10000) % 0x400
            }
        }),
{
    let units = utf16_of(c);
    reveal_with_fuel(little_bytes, 3);
    if units.len() == 1 {
        assert(units.drop_last() =~= Seq::empty());
    } else {
        assert(units.drop_last() =~= seq![units[0]]);
        assert(seq![units[0]].drop_last() =~= Seq::empty());
        assert(units.last() == units[1]);
    }
}

proof fn lemma_little_text(data: Seq<u8>, at: int, text: Seq<char>)
    requires
        0 <= at,
        at + little_bytes(utf16(text)).len() <= data.len(),
        data.subrange(at, at + little_bytes(utf16(text)).len()) == little_bytes(utf16(text)),
        forall|i: int| 0 <= i < text.len() ==> (#[trigger] text[i]) as int != 0,
    ensures
        utf16le_from(data, at) == behind(
            text,
            utf16le_from(data, at + little_bytes(utf16(text)).len()),
        ),
    decreases text.len(),
{
    if text.len() == 0 {
        if let Some(rest) = utf16le_from(data, at) {
            assert(text + rest =~= rest);
        }
    } else {
        let before = text.drop_last();
        let c = text.last();
        let whole = little_bytes(utf16(text));
        let first = little_bytes(utf16(before));
        let last = little_bytes(utf16_of(c));
        lemma_little_joined(utf16(before), utf16_of(c));
        assert(whole == first + last);
        let here = (at + first.len()) as int;
        let end = (at + whole.len()) as int;
        assert(data.subrange(at, here) =~= first) by {
            assert forall|i: int| 0 <= i < first.len() implies data[at + i] == first[i] by {
                assert(data.subrange(at, end)[i] == whole[i]);
            }
        }
        assert forall|i: int| 0 <= i < last.len() implies data[here + i] == #[trigger] last[i] by {
            assert(data.subrange(at, end)[first.len() + i] == whole[first.len() + i]);
        }
        assert forall|i: int| 0 <= i < before.len() implies (#[trigger] before[i]) as int != 0 by {
            assert(before[i] == text[i]);
        }
        lemma_little_text(data, at, before);
        lemma_little_char(c);
        assert(data[here + 0] == last[0]);
        assert(data[here + 1] == last[1]);
        if last.len() == 4 {
            assert(data[here + 2] == last[2]);
            assert(data[here + 3] == last[3]);
        }
        crate::text::lemma_char_code(c);
        assert(text[text.len() - 1] as int != 0);
        let unit = little_unit(data, here);
        if last.len() == 4 {
            let code = c as int - 0x10000;
            assert(unit == 0xD800 + code / 0x400);
            assert(little_unit(data, here + 2) == 0xDC00 + code % 0x400);
            assert(0 <= code < 0x100000);
            assert(is_high(unit) && is_low(little_unit(data, here + 2)));
            assert(0x10000 + (unit - 0xD800) * 0x400 + (little_unit(data, here + 2) - 0xDC00)
                == c as int);
            assert((c as int) as char == c);
        } else {
            assert(unit == c as int);
            assert(!is_high(unit) && !is_low(unit));
            assert(unit as char == c);
        }
        assert(utf16le_from(data, here) == behind(seq![c], utf16le_from(data, end)));
        if let Some(rest) = utf16le_from(data, end) {
            assert(before + (seq![c] + rest) =~= text + rest);
        }
    }
}

/// A text in UTF-16 with its low bytes first is read back as itself, with the zero
/// at its end or without, and whatever stands behind the zero.
pub proof fn law_a_text_of_the_library_is_read_back(text: Seq<char>, behind_zero: Seq<u8>)
    requires
        forall|i: int| 0 <= i < text.len() ==> (#[trigger] text[i]) as int != 0,
    ensures
        utf16le_from(little_bytes(utf16(text)), 0) == Some(text),
        utf16le_from(little_bytes(utf16(text)) + seq![0u8, 0u8] + behind_zero, 0) == Some(text),
{
    let bytes = little_bytes(utf16(text));
    let n = bytes.len() as int;
    let longer = bytes + seq![0u8, 0u8] + behind_zero;
    assert(bytes.subrange(0, n) =~= bytes);
    assert(longer.subrange(0, n) =~= bytes);
    lemma_little_text(bytes, 0, text);
    lemma_little_text(longer, 0, text);
    assert(longer[n] == 0 && longer[n + 1] == 0);
    assert(little_unit(longer, n) == 0);
    assert(text + Seq::<char>::empty() =~= text);
}

/// Only the zeros behind an address are cut off.
pub proof fn law_only_zeros_are_cut_off(bytes: Seq<u8>)
    ensures
        ({
            let kept = without_zeros(bytes);
            &&& kept.len() <= bytes.len()
            &&& bytes.take(kept.len() as int) == kept
            &&& forall|i: int| kept.len() <= i < bytes.len() ==> #[trigger] bytes[i] == 0
            &&& kept.len() > 0 ==> kept.last() != 0
        }),
    decreases bytes.len(),
{
    if bytes.len() > 0 && bytes.last() == 0 {
        let rest = bytes.drop_last();
        law_only_zeros_are_cut_off(rest);
        let kept = without_zeros(bytes);
        assert(bytes.take(kept.len() as int) =~= rest.take(kept.len() as int));
        assert forall|i: int| kept.len() <= i < bytes.len() implies #[trigger] bytes[i] == 0 by {
            if i < rest.len() {
                assert(bytes[i] == rest[i]);
            }
        }
    } else {
        assert(bytes.take(bytes.len() as int) =~= bytes);
    }
}

/// A link leads where its own destination does, and only without one where its
/// action does; a page before the first is none.
pub proof fn law_a_destination_comes_before_an_action(
    page: i32,
    zoom: Option<Region>,
    action: Option<LinkAction>,
    convention: PathConvention,
)
    ensures
        ({
            let own = Some(Destination { page, zoom });
            let found = if page < 0 {
                None
            } else {
                Some(Target::Page(page as nat, zoom))
            };
            &&& target_of(own, action, convention) == found
            &&& target_of(None, Some(LinkAction::GoTo(own)), convention) == found
            &&& target_of(None, Some(LinkAction::GoTo(None)), convention) is None
            &&& target_of(None, None, convention) is None
        }),
{
}

/// Every script counts, up to as many as are named: the names that could be read
/// come first, and the others are made up.
pub proof fn law_every_script_counts(names: Seq<Seq<char>>, count: int)
    ensures
        ({
            let all = made_up(names, count);
            &&& all.len() == (if names.len() < count {
                count
            } else {
                names.len() as int
            })
            &&& all.take(names.len() as int) == names
            &&& forall|i: int|
                names.len() <= i < all.len() ==> #[trigger] all[i] == "unnamed script"@
        }),
    decreases count - names.len(),
{
    let all = made_up(names, count);
    if names.len() < count {
        let more = names.push("unnamed script"@);
        law_every_script_counts(more, count);
        assert(all.take(names.len() as int) =~= all.take(more.len() as int).take(
            names.len() as int,
        ));
        assert(more.take(names.len() as int) =~= names);
        assert forall|i: int| names.len() <= i < all.len() implies #[trigger] all[i]
            == "unnamed script"@ by {
            if i == names.len() {
                assert(all.take(more.len() as int)[i] == more[i]);
            }
        }
    } else {
        assert(all.take(names.len() as int) =~= names);
    }
}

/// The text of bytes that were read, where it is one and is not blank.
pub open spec fn worth(read: Option<Vec<u8>>) -> Option<Seq<char>> {
    match read {
        Some(bytes) => match utf16le_from(bytes@, 0) {
            Some(text) => if exists|i: int| 0 <= i < text.len() && !is_white_space(
                #[trigger] text[i],
            ) {
                Some(text)
            } else {
                None
            },
            None => None,
        },
        None => None,
    }
}

/// Texts are kept as they are, in their order, where anything in them is not
/// white space.
pub proof fn law_only_blank_texts_are_left_out(read: Seq<Option<Vec<u8>>>, n: int)
    requires
        0 <= n <= read.len(),
    ensures
        worth_keeping(read, n) == read.take(n).filter(
            |found: Option<Vec<u8>>| worth(found) is Some,
        ).map_values(|found: Option<Vec<u8>>| worth(found).unwrap()),
    decreases n,
{
    let kept = |found: Option<Vec<u8>>| worth(found) is Some;
    let text = |found: Option<Vec<u8>>| worth(found).unwrap();
    reveal(Seq::filter);
    if n > 0 {
        law_only_blank_texts_are_left_out(read, n - 1);
        let all = read.take(n);
        let last = read[n - 1];
        assert(all.drop_last() =~= read.take(n - 1));
        assert(all.last() == last);
        let before = all.drop_last().filter(kept);
        match last {
            Some(bytes) => match utf16le_from(bytes@, 0) {
                Some(found) => {
                    lemma_blank(found);
                },
                None => {},
            },
            None => {},
        }
        if kept(last) {
            assert(all.filter(kept) =~= before.push(last));
            assert(before.push(last).map_values(text) =~= before.map_values(text).push(text(last)));
        } else {
            assert(all.filter(kept) =~= before);
        }
        assert(worth_keeping(read, n) =~= all.filter(kept).map_values(text));
    } else {
        assert(read.take(0).filter(kept) =~= Seq::empty());
        assert(worth_keeping(read, n) =~= read.take(0).filter(kept).map_values(text));
    }
}

proof fn lemma_blank(text: Seq<char>)
    ensures
        trimmed(text).len() > 0 <==> exists|i: int|
            0 <= i < text.len() && !is_white_space(#[trigger] text[i]),
{
    let start = trim_start(text, 0);
    lemma_blank_start(text, 0);
    lemma_blank_end(text, start, text.len() as int);
    if exists|i: int| 0 <= i < text.len() && !is_white_space(#[trigger] text[i]) {
        let i = choose|i: int| 0 <= i < text.len() && !is_white_space(#[trigger] text[i]);
        assert(start <= i);
    }
}

proof fn lemma_blank_start(text: Seq<char>, from: int)
    requires
        0 <= from <= text.len(),
    ensures
        from <= trim_start(text, from) <= text.len(),
        forall|i: int| from <= i < trim_start(text, from) ==> is_white_space(#[trigger] text[i]),
        trim_start(text, from) < text.len() ==> !is_white_space(text[trim_start(text, from)]),
    decreases text.len() - from,
{
    if from < text.len() && is_white_space(text[from]) {
        lemma_blank_start(text, from + 1);
    }
}

proof fn lemma_blank_end(text: Seq<char>, start: int, end: int)
    requires
        0 <= start <= end <= text.len(),
    ensures
        start <= trim_end(text, start, end) <= end,
        start < end && !is_white_space(text[start]) ==> start < trim_end(text, start, end),
    decreases end - start,
{
    if end > start && is_white_space(text[end - 1]) {
        lemma_blank_end(text, start, end - 1);
    }
}

/// A bookmark goes to its own destination whatever its action is, and without one to
/// that of an action that goes to a page of this document.
pub proof fn law_a_bookmark_goes_to_its_own_destination(
    page: i32,
    code: u64,
    destination: i32,
    action: Option<(u64, Option<i32>)>,
)
    requires
        page >= 0,
        destination >= 0,
    ensures
        bookmark_page(Some(page), action) == Some(page as nat),
        bookmark_page(None, None) is None,
        bookmark_page(None, Some((code, None))) is None,
        bookmark_page(None, Some((code, Some(destination)))) == if action_of(false, Some(code))
            == ActionKind::GoTo {
            Some(destination as nat)
        } else {
            None
        },
{
}

/// The library is looked for where the environment says before anywhere else, and
/// then right beside the program.
pub proof fn law_the_environment_comes_first(
    environment: Seq<u8>,
    folder: Seq<u8>,
    name: Seq<u8>,
    program: Option<Seq<u8>>,
)
    requires
        plain_name(name),
        trimmed_end(folder) == folder,
    ensures
        library_places(Some(environment), program)[0] == environment,
        library_places(Some(environment), program).drop_first() == library_places(None, program),
        library_places(None, Some(beneath(folder, name)))[0] == folder,
{
    law_a_name_stands_in_its_directory(folder, name);
    assert(library_places(Some(environment), program).drop_first() =~= library_places(
        None,
        program,
    ));
}

/// Scripts are named by their texts without the white space around them, in their
/// order, and those without a name are left out.
pub proof fn law_scripts_keep_their_order(read: Seq<Option<Vec<u8>>>, n: int)
    requires
        0 <= n <= read.len(),
    ensures
        script_list(read, n) == read.take(n).filter(
            |found: Option<Vec<u8>>| worth(found) is Some,
        ).map_values(|found: Option<Vec<u8>>| trimmed(worth(found).unwrap())),
    decreases n,
{
    let kept = |found: Option<Vec<u8>>| worth(found) is Some;
    let text = |found: Option<Vec<u8>>| trimmed(worth(found).unwrap());
    reveal(Seq::filter);
    if n > 0 {
        law_scripts_keep_their_order(read, n - 1);
        let all = read.take(n);
        let last = read[n - 1];
        assert(all.drop_last() =~= read.take(n - 1));
        assert(all.last() == last);
        let before = all.drop_last().filter(kept);
        match last {
            Some(bytes) => match utf16le_from(bytes@, 0) {
                Some(found) => {
                    lemma_blank(found);
                },
                None => {},
            },
            None => {},
        }
        if kept(last) {
            assert(all.filter(kept) =~= before.push(last));
            assert(before.push(last).map_values(text) =~= before.map_values(text).push(text(last)));
        } else {
            assert(all.filter(kept) =~= before);
        }
        assert(script_list(read, n) =~= all.filter(kept).map_values(text));
    } else {
        assert(read.take(0).filter(kept) =~= Seq::empty());
        assert(script_list(read, n) =~= read.take(0).filter(kept).map_values(text));
    }
}

/// A request is drawn into bytes exactly where it is sound and they hold four for each
/// of its pixels, and a document is used exactly where it opened and has pages.
pub proof fn law_there_is_room_for_the_frame(
    request: RenderRequest,
    length: nat,
    path: Seq<char>,
    failure: Option<u64>,
    pages: i32,
)
    ensures
        target_fault(request, length) is None <==> request_fault(request) is None && request.width
            * request.height * 4 <= length,
        document_fault(path, failure, pages) is None <==> failure is None && pages >= 1,
{
}

} // verus!
