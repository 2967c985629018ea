//! Small documents that are made to order: a known number of pages, each
//! showing its number, with keywords and one embedded file if they are wanted.

use crate::bytes::{
    decimal, occurs_at, padded_decimal, push_bytes, push_decimal, push_padded_decimal, push_text,
    text_bytes, utf8,
};
use crate::number::{is_digit, unsigned_of};
use crate::pdfwrite::object::{escaped, push_escaped};
use crate::pdfwrite::writer::startxref_of;
use vstd::prelude::*;

verus! {

/// The references to the first `n` pages.
pub open spec fn kids(n: nat) -> Seq<u8>
    decreases n,
{
    if n == 0 {
        Seq::empty()
    } else {
        kids((n - 1) as nat) + decimal((4 + (n - 1) * 2) as nat) + utf8(" 0 R "@)
    }
}

/// What is embedded: a name and a text.
pub type Attachment = (Seq<char>, Seq<char>);

/// How many objects stand before an embedded file.
pub open spec fn objects_before(pages: nat, has_metadata: bool) -> nat {
    3 + pages * 2 + if has_metadata {
        1nat
    } else {
        0
    }
}

/// The catalog.
pub open spec fn catalog_body(pages: nat, has_metadata: bool, attachment: Option<Attachment>) -> Seq<u8> {
    utf8("<< /Type /Catalog /Pages 2 0 R"@) + (match attachment {
        Some((name, _)) => utf8(" /Names << /EmbeddedFiles << /Names [ ("@) + escaped(utf8(name))
            + utf8(") "@) + decimal(objects_before(pages, has_metadata) + 1) + utf8(
            " 0 R ] >> >>"@,
        ),
        None => Seq::empty(),
    }) + utf8(" >>"@)
}

/// The page tree.
pub open spec fn pages_body(pages: nat) -> Seq<u8> {
    utf8("<< /Type /Pages /Count "@) + decimal(pages) + utf8(" /Kids [ "@) + kids(pages) + utf8(
        "] >>"@,
    )
}

/// A page whose content is the object of this number.
pub open spec fn page_body(content: nat) -> Seq<u8> {
    utf8(
        "<< /Type /Page /Parent 2 0 R /MediaBox [0 0 720 405] /Resources << /Font << /F1 3 0 R >> >> /Contents "@,
    ) + decimal(content) + utf8(" 0 R >>"@)
}

/// What draws the number of a page.
pub open spec fn page_stream(number: nat) -> Seq<u8> {
    utf8("BT /F1 96 Tf 300 180 Td ("@) + decimal(number) + utf8(
        ") Tj ET\n1 0 0 RG 4 w 10 10 700 385 re S\n"@,
    )
}

/// The content of a page.
pub open spec fn content_body(number: nat) -> Seq<u8> {
    utf8("<< /Length "@) + decimal(page_stream(number).len()) + utf8(" >>\nstream\n"@)
        + page_stream(number) + utf8("endstream"@)
}

/// The objects of the first `n` pages: for each the page and its content.
pub open spec fn page_objects(n: nat) -> Seq<Seq<u8>>
    decreases n,
{
    if n == 0 {
        Seq::empty()
    } else {
        page_objects((n - 1) as nat).push(page_body((4 + (n - 1) * 2 + 1) as nat)).push(
            content_body(n),
        )
    }
}

/// The information dictionary.
pub open spec fn info_body(metadata: Seq<char>) -> Seq<u8> {
    utf8("<< /Keywords ("@) + escaped(utf8(metadata)) + utf8(") /Producer (pulpit fixtures) >>"@)
}

/// What describes an embedded file whose content is the object of this number.
pub open spec fn filespec_body(name: Seq<char>, stream: nat) -> Seq<u8> {
    utf8("<< /Type /Filespec /F ("@) + escaped(utf8(name)) + utf8(") /UF ("@) + escaped(
        utf8(name),
    ) + utf8(") /EF << /F "@) + decimal(stream) + utf8(" 0 R >> >>"@)
}

/// An embedded file.
pub open spec fn embedded_body(contents: Seq<char>) -> Seq<u8> {
    utf8("<< /Type /EmbeddedFile /Subtype /application#2Fjson /Length "@) + decimal(
        utf8(contents).len() + 1,
    ) + utf8(" >>\nstream\n"@) + utf8(contents) + utf8("\nendstream"@)
}

/// The objects of a document, by their number less one.
pub open spec fn bodies(
    pages: nat,
    metadata: Option<Seq<char>>,
    attachment: Option<Attachment>,
) -> Seq<Seq<u8>> {
    let start = seq![
        catalog_body(pages, metadata is Some, attachment),
        pages_body(pages),
        utf8("<< /Type /Font /Subtype /Type1 /BaseFont /Helvetica >>"@),
    ] + page_objects(pages);
    let informed = match metadata {
        Some(text) => start.push(info_body(text)),
        None => start,
    };
    match attachment {
        Some((name, contents)) => informed.push(
            filespec_body(name, objects_before(pages, metadata is Some) + 2),
        ).push(embedded_body(contents)),
        None => informed,
    }
}

/// What a file starts with.
pub open spec fn file_header() -> Seq<u8> {
    utf8("%PDF-1.7\n%"@) + seq![0xE2u8, 0xE3u8, 0xCFu8, 0xD3u8] + utf8("\n"@)
}

/// The first `n` objects of a file, and what stands before them.
pub open spec fn file_body(bodies: Seq<Seq<u8>>, n: nat) -> Seq<u8>
    decreases n,
{
    if n == 0 {
        file_header()
    } else {
        file_body(bodies, (n - 1) as nat) + decimal(n) + utf8(" 0 obj\n"@) + bodies[n - 1] + utf8(
            "\nendobj\n"@,
        )
    }
}

/// The rows of the cross-reference table for the first `n` objects.
pub open spec fn offset_rows(bodies: Seq<Seq<u8>>, n: nat) -> Seq<u8>
    decreases n,
{
    if n == 0 {
        Seq::empty()
    } else {
        offset_rows(bodies, (n - 1) as nat) + padded_decimal(
            file_body(bodies, (n - 1) as nat).len(),
            10,
        ) + utf8(" 00000 n \n"@)
    }
}

/// The cross-reference table and the trailer of a file with these objects;
/// `info` is the number of the information dictionary, if there is one.
pub open spec fn table_part(bodies: Seq<Seq<u8>>, info: Option<nat>) -> Seq<u8> {
    let count = bodies.len();
    utf8("xref\n"@) + utf8("0 "@) + decimal(count + 1) + utf8("\n0000000000 65535 f \n"@)
        + offset_rows(bodies, count) + utf8("trailer\n<< /Size "@) + decimal(count + 1) + utf8(
        " /Root 1 0 R"@,
    ) + (match info {
        Some(number) => utf8(" /Info "@) + decimal(number) + utf8(" 0 R"@),
        None => Seq::empty(),
    }) + utf8(" >>\n"@)
}

/// A file with these objects.
pub open spec fn file_bytes(bodies: Seq<Seq<u8>>, info: Option<nat>) -> Seq<u8> {
    file_body(bodies, bodies.len()) + table_part(bodies, info) + utf8("startxref\n"@) + decimal(
        file_body(bodies, bodies.len()).len(),
    ) + utf8("\n%%EOF\n"@)
}

/// A document made to order. It has at least one page.
pub open spec fn synthesized(
    pages: nat,
    metadata: Option<Seq<char>>,
    attachment: Option<Attachment>,
) -> Seq<u8> {
    let count = if pages == 0 {
        1
    } else {
        pages
    };
    file_bytes(
        bodies(count, metadata, attachment),
        if metadata is Some {
            Some((4 + count * 2) as nat)
        } else {
            None
        },
    )
}

proof fn lemma_page_objects(n: nat)
    ensures
        page_objects(n).len() == 2 * n,
    decreases n,
{
    if n > 0 {
        lemma_page_objects((n - 1) as nat);
    }
}

/// Where the numbers of objects are given before the objects are written, they
/// are the numbers that the objects get.
pub proof fn law_computed_numbers_hold(
    pages: nat,
    metadata: Option<Seq<char>>,
    attachment: Option<Attachment>,
)
    ensures
        ({
            let all = bodies(pages, metadata, attachment);
            let before = objects_before(pages, metadata is Some);
            &&& metadata matches Some(text) ==> all[(3 + pages * 2) as int] == info_body(text)
            &&& attachment matches Some((name, contents)) ==> {
                &&& all.len() == before + 2
                &&& all[before as int] == filespec_body(name, before + 2)
                &&& all[(before + 1) as int] == embedded_body(contents)
            }
            &&& attachment is None ==> all.len() == before
        }),
{
    lemma_page_objects(pages);
}

proof fn lemma_body_grows(bodies: Seq<Seq<u8>>, i: nat, n: nat)
    requires
        i <= n <= bodies.len(),
    ensures
        file_body(bodies, i).len() <= file_body(bodies, n).len(),
        file_body(bodies, n).take(file_body(bodies, i).len() as int) == file_body(bodies, i),
    decreases n - i,
{
    if i < n {
        lemma_body_grows(bodies, i, (n - 1) as nat);
        let len = file_body(bodies, i).len() as int;
        assert(file_body(bodies, n).take(len) =~= file_body(bodies, (n - 1) as nat).take(len));
    } else {
        assert(file_body(bodies, n).take(file_body(bodies, n).len() as int) =~= file_body(
            bodies,
            n,
        ));
    }
}

/// The place that the cross-reference table gives for an object is where the
/// object starts, and the end of the file names the place of the table.
pub proof fn law_places_are_right(bodies: Seq<Seq<u8>>, info: Option<nat>, i: nat)
    requires
        i < bodies.len(),
        file_body(bodies, bodies.len()).len() <= u64::MAX,
    ensures
        occurs_at(
            file_bytes(bodies, info),
            decimal(i + 1) + utf8(" 0 obj\n"@),
            file_body(bodies, i).len() as int,
        ),
        startxref_of(file_bytes(bodies, info)) == Some(file_body(bodies, bodies.len()).len()),
        occurs_at(
            file_bytes(bodies, info),
            utf8("xref\n"@),
            file_body(bodies, bodies.len()).len() as int,
        ),
{
    let n = bodies.len();
    let body = file_body(bodies, n);
    let table = table_part(bodies, info);
    let end = utf8("startxref\n"@) + decimal(body.len()) + utf8("\n%%EOF\n"@);
    let rest = table + end;
    assert(file_bytes(bodies, info) =~= body + rest);
    lemma_object_place(bodies, i, rest);
    lemma_table_start(bodies, info);
    crate::pdfwrite::laws::law_startxref_reads_back(body + table, body.len());
    let start = utf8("xref\n"@);
    assert((body + rest).subrange(body.len() as int, (body.len() + start.len()) as int) =~= start) by {
        assert forall|k: int| 0 <= k < start.len() implies (body + rest)[body.len() + k]
            == start[k] by {
            assert((body + rest)[body.len() + k] == table[k]);
            assert(table.take(start.len() as int)[k] == table[k]);
        }
    }
}

proof fn lemma_table_start(bodies: Seq<Seq<u8>>, info: Option<nat>)
    ensures
        utf8("xref\n"@).len() <= table_part(bodies, info).len(),
        table_part(bodies, info).take(utf8("xref\n"@).len() as int) == utf8("xref\n"@),
{
    assert(table_part(bodies, info).take(utf8("xref\n"@).len() as int) =~= utf8("xref\n"@));
}

proof fn lemma_object_place(bodies: Seq<Seq<u8>>, i: nat, rest: Seq<u8>)
    requires
        i < bodies.len(),
    ensures
        occurs_at(
            file_body(bodies, bodies.len()) + rest,
            decimal(i + 1) + utf8(" 0 obj\n"@),
            file_body(bodies, i).len() as int,
        ),
{
    let n = bodies.len();
    let body = file_body(bodies, n);
    let file = body + rest;
    lemma_body_grows(bodies, i, n);
    lemma_body_grows(bodies, i + 1, n);
    let header = decimal(i + 1) + utf8(" 0 obj\n"@);
    let at = file_body(bodies, i).len() as int;
    let upto = file_body(bodies, i + 1);
    assert(file.subrange(at, at + header.len()) =~= header) by {
        assert forall|k: int| 0 <= k < header.len() implies file[at + k] == header[k] by {
            assert(body.take(upto.len() as int)[at + k] == upto[at + k]);
        }
    }
}

/// Texts that may be missing.
pub open spec fn given(text: Option<&str>) -> Option<Seq<char>> {
    match text {
        Some(text) => Some(text@),
        None => None,
    }
}

/// What is embedded, if anything is.
pub open spec fn given_attachment(attachment: Option<(&str, &str)>) -> Option<Attachment> {
    match attachment {
        Some((name, contents)) => Some((name@, contents@)),
        None => None,
    }
}

/// Byte strings, each by its view.
pub open spec fn body_views(bodies: Seq<Vec<u8>>) -> Seq<Seq<u8>> {
    bodies.map_values(|body: Vec<u8>| body@)
}

fn push_body(bodies: &mut Vec<Vec<u8>>, body: Vec<u8>)
    ensures
        body_views(final(bodies)@) == body_views(old(bodies)@).push(body@),
{
    let ghost before = body_views(bodies@);
    bodies.push(body);
    assert(body_views(bodies@) =~= before.push(body@));
}

fn write_catalog(pages: usize, has_metadata: bool, attachment: Option<(&str, &str)>) -> (out: Vec<u8>)
    requires
        2 * pages + 8 <= usize::MAX,
    ensures
        out@ == catalog_body(pages as nat, has_metadata, given_attachment(attachment)),
{
    let mut out = text_bytes("<< /Type /Catalog /Pages 2 0 R");
    let ghost start = out@;
    if let Some((name, _)) = attachment {
        let before: usize = 3 + pages * 2 + if has_metadata {
            1
        } else {
            0
        };
        push_text(&mut out, " /Names << /EmbeddedFiles << /Names [ (");
        push_escaped(&mut out, name.as_bytes());
        push_text(&mut out, ") ");
        push_decimal(&mut out, before as u64 + 1);
        push_text(&mut out, " 0 R ] >> >>");
    }
    push_text(&mut out, " >>");
    assert(out@ =~= catalog_body(pages as nat, has_metadata, given_attachment(attachment)));
    out
}

fn write_page_tree(pages: usize) -> (out: Vec<u8>)
    requires
        2 * pages + 8 <= usize::MAX,
    ensures
        out@ == pages_body(pages as nat),
{
    let mut out = text_bytes("<< /Type /Pages /Count ");
    push_decimal(&mut out, pages as u64);
    push_text(&mut out, " /Kids [ ");
    let ghost start = out@;
    assert(start + Seq::<u8>::empty() =~= start);
    let mut i: usize = 0;
    while i < pages
        invariant
            i <= pages,
            2 * pages + 8 <= usize::MAX,
            out@ == start + kids(i as nat),
        decreases pages - i,
    {
        push_decimal(&mut out, 4 + i as u64 * 2);
        push_text(&mut out, " 0 R ");
        i += 1;
        assert(out@ =~= start + kids(i as nat));
    }
    push_text(&mut out, "] >>");
    out
}

fn write_page(content: usize) -> (out: Vec<u8>)
    ensures
        out@ == page_body(content as nat),
{
    let mut out = text_bytes(
        "<< /Type /Page /Parent 2 0 R /MediaBox [0 0 720 405] /Resources << /Font << /F1 3 0 R >> >> /Contents ",
    );
    push_decimal(&mut out, content as u64);
    push_text(&mut out, " 0 R >>");
    out
}

fn write_content(number: usize) -> (out: Vec<u8>)
    ensures
        out@ == content_body(number as nat),
{
    let mut stream = text_bytes("BT /F1 96 Tf 300 180 Td (");
    push_decimal(&mut stream, number as u64);
    push_text(&mut stream, ") Tj ET\n1 0 0 RG 4 w 10 10 700 385 re S\n");
    let mut out = text_bytes("<< /Length ");
    push_decimal(&mut out, stream.len() as u64);
    push_text(&mut out, " >>\nstream\n");
    push_bytes(&mut out, stream.as_slice());
    push_text(&mut out, "endstream");
    out
}

fn write_info(metadata: &str) -> (out: Vec<u8>)
    ensures
        out@ == info_body(metadata@),
{
    let mut out = text_bytes("<< /Keywords (");
    push_escaped(&mut out, metadata.as_bytes());
    push_text(&mut out, ") /Producer (pulpit fixtures) >>");
    out
}

fn write_filespec(name: &str, stream: u64) -> (out: Vec<u8>)
    ensures
        out@ == filespec_body(name@, stream as nat),
{
    let mut out = text_bytes("<< /Type /Filespec /F (");
    push_escaped(&mut out, name.as_bytes());
    push_text(&mut out, ") /UF (");
    push_escaped(&mut out, name.as_bytes());
    push_text(&mut out, ") /EF << /F ");
    push_decimal(&mut out, stream);
    push_text(&mut out, " 0 R >> >>");
    out
}

fn write_embedded(contents: &str) -> (out: Vec<u8>)
    requires
        utf8(contents@).len() < usize::MAX,
    ensures
        out@ == embedded_body(contents@),
{
    let bytes = contents.as_bytes();
    let length: usize = bytes.len();
    let mut out = text_bytes("<< /Type /EmbeddedFile /Subtype /application#2Fjson /Length ");
    push_decimal(&mut out, length as u64 + 1);
    push_text(&mut out, " >>\nstream\n");
    push_bytes(&mut out, bytes);
    push_text(&mut out, "\nendstream");
    out
}

fn write_bodies(pages: usize, metadata: Option<&str>, attachment: Option<(&str, &str)>) -> (out: Vec<
    Vec<u8>,
>)
    requires
        2 * pages + 8 <= usize::MAX,
        attachment matches Some((_, contents)) ==> utf8(contents@).len() < usize::MAX,
    ensures
        body_views(out@) == bodies(pages as nat, given(metadata), given_attachment(attachment)),
{
    let mut out: Vec<Vec<u8>> = Vec::new();
    assert(body_views(out@) =~= Seq::empty());
    push_body(&mut out, write_catalog(pages, metadata.is_some(), attachment));
    push_body(&mut out, write_page_tree(pages));
    push_body(&mut out, text_bytes("<< /Type /Font /Subtype /Type1 /BaseFont /Helvetica >>"));
    let ghost start = body_views(out@);
    assert(start + Seq::<Seq<u8>>::empty() =~= start);
    let mut i: usize = 0;
    while i < pages
        invariant
            i <= pages,
            2 * pages + 8 <= usize::MAX,
            body_views(out@) == start + page_objects(i as nat),
        decreases pages - i,
    {
        push_body(&mut out, write_page(4 + i * 2 + 1));
        push_body(&mut out, write_content(i + 1));
        i += 1;
        assert(body_views(out@) =~= start + page_objects(i as nat));
    }
    proof {
        assert(start =~= seq![
            catalog_body(pages as nat, metadata is Some, given_attachment(attachment)),
            pages_body(pages as nat),
            utf8("<< /Type /Font /Subtype /Type1 /BaseFont /Helvetica >>"@),
        ]);
    }
    let mut before: u64 = 3 + pages as u64 * 2;
    if let Some(text) = metadata {
        push_body(&mut out, write_info(text));
        before += 1;
    }
    if let Some((name, contents)) = attachment {
        push_body(&mut out, write_filespec(name, before + 2));
        push_body(&mut out, write_embedded(contents));
    }
    out
}

fn write_file(bodies: &[Vec<u8>], info: Option<u64>) -> (out: Vec<u8>)
    requires
        bodies@.len() < usize::MAX,
    ensures
        out@ == file_bytes(
            body_views(bodies@),
            match info {
                Some(number) => Some(number as nat),
                None => None,
            },
        ),
{
    let ghost all = body_views(bodies@);
    let count: usize = bodies.len();
    let mut out = text_bytes("%PDF-1.7\n%");
    let ghost first = out@;
    out.push(0xE2);
    out.push(0xE3);
    out.push(0xCF);
    out.push(0xD3);
    push_text(&mut out, "\n");
    assert(out@ =~= file_header());
    let mut rows: Vec<u8> = Vec::new();
    assert(rows@ =~= Seq::empty());
    let mut i: usize = 0;
    while i < count
        invariant
            i <= count,
            count == bodies@.len(),
            all == body_views(bodies@),
            out@ == file_body(all, i as nat),
            rows@ == offset_rows(all, i as nat),
        decreases count - i,
    {
        assert(all[i as int] == bodies@[i as int]@);
        push_padded_decimal(&mut rows, out.len() as u64, 10);
        push_text(&mut rows, " 00000 n \n");
        push_decimal(&mut out, i as u64 + 1);
        push_text(&mut out, " 0 obj\n");
        push_bytes(&mut out, bodies[i].as_slice());
        push_text(&mut out, "\nendobj\n");
        i += 1;
    }
    let xref_at: u64 = out.len() as u64;
    let mut table = text_bytes("xref\n");
    push_text(&mut table, "0 ");
    push_decimal(&mut table, count as u64 + 1);
    push_text(&mut table, "\n0000000000 65535 f \n");
    push_bytes(&mut table, rows.as_slice());
    push_text(&mut table, "trailer\n<< /Size ");
    push_decimal(&mut table, count as u64 + 1);
    push_text(&mut table, " /Root 1 0 R");
    let ghost before = table@;
    if let Some(number) = info {
        push_text(&mut table, " /Info ");
        push_decimal(&mut table, number);
        push_text(&mut table, " 0 R");
    }
    proof {
        assert(table@ =~= before + (match info {
            Some(number) => utf8(" /Info "@) + decimal(number as nat) + utf8(" 0 R"@),
            None => Seq::empty(),
        }));
    }
    push_text(&mut table, " >>\n");
    push_bytes(&mut out, table.as_slice());
    push_text(&mut out, "startxref\n");
    push_decimal(&mut out, xref_at);
    push_text(&mut out, "\n%%EOF\n");
    out
}

/// Makes a document of this many pages. `metadata` goes into its keywords.
pub fn write_pdf(pages: usize, metadata: Option<&str>) -> (out: Vec<u8>)
    requires
        2 * pages + 8 <= usize::MAX,
    ensures
        out@ == synthesized(pages as nat, given(metadata), None),
{
    write_pdf_with_attachment(pages, metadata, None)
}

/// Makes a document of this many pages that also carries one embedded file,
/// given by its name and its contents.
pub fn write_pdf_with_attachment(
    pages: usize,
    metadata: Option<&str>,
    attachment: Option<(&str, &str)>,
) -> (out: Vec<u8>)
    requires
        2 * pages + 8 <= usize::MAX,
        attachment matches Some((_, contents)) ==> utf8(contents@).len() < usize::MAX,
    ensures
        out@ == synthesized(pages as nat, given(metadata), given_attachment(attachment)),
{
    let count: usize = if pages == 0 {
        1
    } else {
        pages
    };
    let all = write_bodies(count, metadata, attachment);
    let info: Option<u64> = if metadata.is_some() {
        Some(4 + count as u64 * 2)
    } else {
        None
    };
    proof {
        law_computed_numbers_hold(count as nat, given(metadata), given_attachment(attachment));
        assert(body_views(all@).len() == all@.len());
    }
    write_file(all.as_slice(), info)
}

proof fn lemma_page_object(n: nat, i: nat)
    requires
        i < n,
    ensures
        page_objects(n).len() == 2 * n,
        page_objects(n)[2 * (i as int)] == page_body(5 + 2 * i),
        page_objects(n)[2 * (i as int) + 1] == content_body(i + 1),
        kids(n).take((kids(i) + decimal(4 + 2 * i) + utf8(" 0 R "@)).len() as int) == kids(i)
            + decimal(4 + 2 * i) + utf8(" 0 R "@),
        (kids(i) + decimal(4 + 2 * i) + utf8(" 0 R "@)).len() <= kids(n).len(),
    decreases n,
{
    lemma_page_objects((n - 1) as nat);
    let last = kids(i) + decimal(4 + 2 * i) + utf8(" 0 R "@);
    if i < n - 1 {
        lemma_page_object((n - 1) as nat, i);
        let before = kids((n - 1) as nat);
        assert(kids(n).take(last.len() as int) =~= before.take(last.len() as int));
    } else {
        assert(4 + (n - 1) * 2 == 4 + 2 * i);
        assert(kids(n) =~= last);
        assert(kids(n).take(last.len() as int) =~= last);
    }
}

/// The page tree refers to one object for each page, in their order; that object
/// is the page, and refers to the next, which draws the number of the page.
pub proof fn law_each_page_has_its_content(
    pages: nat,
    metadata: Option<Seq<char>>,
    attachment: Option<Attachment>,
    page: nat,
)
    requires
        page < pages,
    ensures
        ({
            let all = bodies(pages, metadata, attachment);
            let object = 4 + 2 * page;
            let reference = decimal(object) + utf8(" 0 R "@);
            &&& all[object - 1] == page_body(object + 1)
            &&& all[object as int] == content_body(page + 1)
            &&& occurs_at(kids(pages), reference, kids(page).len() as int)
            &&& kids(page + 1).len() == kids(page).len() + reference.len()
        }),
{
    lemma_page_place(pages, metadata, attachment, page);
    lemma_page_reference(pages, page);
}

proof fn lemma_page_place(
    pages: nat,
    metadata: Option<Seq<char>>,
    attachment: Option<Attachment>,
    page: nat,
)
    requires
        page < pages,
    ensures
        bodies(pages, metadata, attachment)[3 + 2 * (page as int)] == page_body(5 + 2 * page),
        bodies(pages, metadata, attachment)[4 + 2 * (page as int)] == content_body(page + 1),
{
    lemma_page_object(pages, page);
    let all = bodies(pages, metadata, attachment);
    assert(all[3 + 2 * (page as int)] == page_objects(pages)[2 * (page as int)]);
    assert(all[4 + 2 * (page as int)] == page_objects(pages)[2 * (page as int) + 1]);
}

proof fn lemma_page_reference(pages: nat, page: nat)
    requires
        page < pages,
    ensures
        ({
            let reference = decimal(4 + 2 * page) + utf8(" 0 R "@);
            &&& occurs_at(kids(pages), reference, kids(page).len() as int)
            &&& kids(page + 1).len() == kids(page).len() + reference.len()
        }),
{
    let reference = decimal(4 + 2 * page) + utf8(" 0 R "@);
    let start = kids(page).len() as int;
    let last = kids(page) + decimal(4 + 2 * page) + utf8(" 0 R "@);
    lemma_page_object(pages, page);
    lemma_page_object(page + 1, page);
    assert(last =~= kids(page) + reference);
    let taken = kids(pages).take(last.len() as int);
    assert(taken.subrange(start, start + reference.len()) =~= reference);
    assert(kids(pages).subrange(start, start + reference.len()) =~= taken.subrange(
        start,
        start + reference.len(),
    ));
    assert(4 + (page + 1 - 1) * 2 == 4 + 2 * page);
    assert(kids(page + 1) == kids(page) + decimal(4 + 2 * page) + utf8(" 0 R "@));
}

/// A stream with this length written before it and these bytes in it, behind what its
/// dictionary starts with.
pub open spec fn stream_says(body: Seq<u8>, start: Seq<u8>, data: Seq<u8>, end: Seq<u8>) -> bool {
    let digits = decimal(data.len());
    let rest = utf8(" >>\nstream\n"@) + data + end;
    &&& occurs_at(body, start, 0)
    &&& occurs_at(body, digits, start.len() as int)
    &&& unsigned_of(digits, data.len()) == Some(data.len())
    &&& body.skip((start.len() + digits.len()) as int) == rest
}

proof fn lemma_stream(start: Seq<u8>, data: Seq<u8>, end: Seq<u8>)
    ensures
        stream_says(
            start + decimal(data.len()) + utf8(" >>\nstream\n"@) + data + end,
            start,
            data,
            end,
        ),
{
    let digits = decimal(data.len());
    let middle = utf8(" >>\nstream\n"@);
    let body = start + digits + middle + data + end;
    crate::pdfwrite::laws::law_decimal_reads_back(data.len());
    assert(is_digit(digits[0]));
    assert(body.subrange(0, start.len() as int) =~= start);
    assert(body.subrange(start.len() as int, (start.len() + digits.len()) as int) =~= digits);
    assert(body.skip((start.len() + digits.len()) as int) =~= middle + data + end);
}

/// The streams of a document are as long as they say: what draws a page is all that
/// stands before the end of its stream, and what is embedded has a line end behind it
/// that counts.
pub proof fn law_streams_are_as_long_as_they_say(number: nat, contents: Seq<char>)
    ensures
        stream_says(
            content_body(number),
            utf8("<< /Length "@),
            page_stream(number),
            utf8("endstream"@),
        ),
        stream_says(
            embedded_body(contents),
            utf8("<< /Type /EmbeddedFile /Subtype /application#2Fjson /Length "@),
            utf8(contents).push(10),
            utf8("endstream"@),
        ),
{
    lemma_stream(utf8("<< /Length "@), page_stream(number), utf8("endstream"@));
    let start = utf8("<< /Type /EmbeddedFile /Subtype /application#2Fjson /Length "@);
    let data = utf8(contents).push(10);
    lemma_stream(start, data, utf8("endstream"@));
    reveal_strlit("\nendstream");
    reveal_strlit("endstream");
    vstd::utf8::is_ascii_chars_encode_utf8("\nendstream"@);
    vstd::utf8::is_ascii_chars_encode_utf8("endstream"@);
    assert(utf8("\nendstream"@) =~= seq![10u8] + utf8("endstream"@));
    assert(embedded_body(contents) =~= start + decimal(data.len()) + utf8(" >>\nstream\n"@) + data
        + utf8("endstream"@));
}

} // verus!
