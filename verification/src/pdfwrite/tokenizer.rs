//! Splitting PDF bytes into tokens.

use crate::bytes::{copy_bytes, same_bytes, utf8};
use crate::pdfwrite::error::PdfWriteError;
use vstd::prelude::*;
use vstd::slice::slice_subrange;

verus! {

/// The six whitespace characters of PDF.
pub open spec fn is_space(byte: u8) -> bool {
    byte == 0 || byte == 9 || byte == 10 || byte == 12 || byte == 13 || byte == 32
}

/// The characters that end a token: whitespace, and the characters that PDF
/// reserves as delimiters, `%` among them.
pub open spec fn is_delimiter(byte: u8) -> bool {
    ||| is_space(byte)
    ||| byte == 0x28
    ||| byte == 0x29
    ||| byte == 0x3C
    ||| byte == 0x3E
    ||| byte == 0x5B
    ||| byte == 0x5D
    ||| byte == 0x7B
    ||| byte == 0x7D
    ||| byte == 0x2F
    ||| byte == 0x25
}

/// The first place at or after `at` that holds `byte`, or the end.
pub open spec fn next_of(data: Seq<u8>, byte: u8, at: int) -> int
    decreases data.len() - at,
{
    if at >= data.len() || data[at] == byte {
        at
    } else {
        next_of(data, byte, at + 1)
    }
}

/// The first place at or after `at` that is neither whitespace nor inside a
/// comment, or the end. A comment runs from `%` to the end of its line.
pub open spec fn skip_space(data: Seq<u8>, at: int) -> int
    decreases data.len() - at,
{
    if at >= data.len() {
        at
    } else if is_space(data[at]) {
        skip_space(data, at + 1)
    } else if data[at] == 0x25 {
        let line_end = next_of(data, 10, at + 1);
        if at < line_end <= data.len() {
            skip_space(data, line_end)
        } else {
            at
        }
    } else {
        at
    }
}

/// The first delimiter at or after `at`, or the end.
pub open spec fn run_end(data: Seq<u8>, at: int) -> int
    decreases data.len() - at,
{
    if at >= data.len() || is_delimiter(data[at]) {
        at
    } else {
        run_end(data, at + 1)
    }
}

/// Where a literal string ends that has `depth` parentheses open at `at`: past
/// the parenthesis that closes the last of them, or at the end. A backslash
/// keeps the byte after it from counting.
pub open spec fn literal_end(data: Seq<u8>, at: int, depth: nat) -> int
    decreases data.len() - at,
{
    if at >= data.len() || depth == 0 {
        at
    } else if data[at] == 0x5C && at + 1 < data.len() {
        literal_end(data, at + 2, depth)
    } else if data[at] == 0x28 {
        literal_end(data, at + 1, depth + 1)
    } else if data[at] == 0x29 {
        literal_end(data, at + 1, (depth - 1) as nat)
    } else {
        literal_end(data, at + 1, depth)
    }
}

/// Where the token that starts at `start` ends.
pub open spec fn token_end(data: Seq<u8>, start: int) -> int {
    let first = data[start];
    let doubled = start + 1 < data.len() && data[start + 1] == first;
    if first == 0x3C {
        if doubled {
            start + 2
        } else {
            let close = next_of(data, 0x3E, start + 1);
            if close < data.len() {
                close + 1
            } else {
                data.len() as int
            }
        }
    } else if first == 0x3E {
        if doubled {
            start + 2
        } else {
            start + 1
        }
    } else if first == 0x5B || first == 0x5D || first == 0x7B || first == 0x7D || first == 0x29 {
        start + 1
    } else if first == 0x2F {
        run_end(data, start + 1)
    } else if first == 0x28 {
        literal_end(data, start + 1, 1)
    } else {
        run_end(data, start)
    }
}

proof fn lemma_next_of(data: Seq<u8>, byte: u8, at: int)
    requires
        0 <= at <= data.len(),
    ensures
        at <= next_of(data, byte, at) <= data.len(),
        next_of(data, byte, at) < data.len() ==> data[next_of(data, byte, at)] == byte,
        forall|i: int| at <= i < next_of(data, byte, at) ==> data[i] != byte,
    decreases data.len() - at,
{
    if at < data.len() && data[at] != byte {
        lemma_next_of(data, byte, at + 1);
    }
}

/// Skipping never goes back, and stops at something or at the end.
pub proof fn lemma_skip_space(data: Seq<u8>, at: int)
    requires
        0 <= at <= data.len(),
    ensures
        at <= skip_space(data, at) <= data.len(),
        skip_space(data, at) < data.len() ==> !is_space(data[skip_space(data, at)])
            && data[skip_space(data, at)] != 0x25,
    decreases data.len() - at,
{
    if at < data.len() {
        if is_space(data[at]) {
            lemma_skip_space(data, at + 1);
        } else if data[at] == 0x25 {
            lemma_next_of(data, 10, at + 1);
            lemma_skip_space(data, next_of(data, 10, at + 1));
        }
    }
}

proof fn lemma_run_end(data: Seq<u8>, at: int)
    requires
        0 <= at <= data.len(),
    ensures
        at <= run_end(data, at) <= data.len(),
    decreases data.len() - at,
{
    if at < data.len() && !is_delimiter(data[at]) {
        lemma_run_end(data, at + 1);
    }
}

proof fn lemma_literal_end(data: Seq<u8>, at: int, depth: nat)
    requires
        0 <= at <= data.len(),
    ensures
        at <= literal_end(data, at, depth) <= data.len(),
    decreases data.len() - at,
{
    if at < data.len() && depth > 0 {
        if data[at] == 0x5C && at + 1 < data.len() {
            lemma_literal_end(data, at + 2, depth);
        } else if data[at] == 0x28 {
            lemma_literal_end(data, at + 1, depth + 1);
        } else if data[at] == 0x29 {
            lemma_literal_end(data, at + 1, (depth - 1) as nat);
        } else {
            lemma_literal_end(data, at + 1, depth);
        }
    }
}

/// Reading a token takes at least one byte, and stays inside the data.
pub proof fn lemma_token_end(data: Seq<u8>, at: int)
    requires
        0 <= at <= data.len(),
        skip_space(data, at) < data.len(),
    ensures
        at <= skip_space(data, at) < token_end(data, skip_space(data, at)) <= data.len(),
{
    lemma_skip_space(data, at);
    let start = skip_space(data, at);
    lemma_next_of(data, 0x3E, start + 1);
    lemma_run_end(data, start + 1);
    lemma_run_end(data, start);
    lemma_literal_end(data, start + 1, 1);
}

/// The tokens from `at` on, up to the first that says the object is over:
/// `endobj`, or the `stream` that opens a body that is no PDF syntax.
pub open spec fn object_tokens(data: Seq<u8>, at: int) -> Seq<Seq<u8>>
    decreases data.len() - at,
{
    let start = skip_space(data, at);
    if at < 0 || start >= data.len() || !(at < token_end(data, start) <= data.len()) {
        Seq::empty()
    } else {
        let token = data.subrange(start, token_end(data, start));
        if token == utf8("endobj"@) || token == utf8("stream"@) {
            Seq::empty()
        } else {
            seq![token] + object_tokens(data, token_end(data, start))
        }
    }
}

/// What is behind the end of a line, where a line ends here.
pub open spec fn past_line(data: Seq<u8>) -> Seq<u8> {
    if data.len() > 1 && data[0] == 13 && data[1] == 10 {
        data.skip(2)
    } else if data.len() > 0 && data[0] == 10 {
        data.skip(1)
    } else {
        data
    }
}

/// What follows the `stream` that ends the tokens from `at` on, from the line
/// behind it; nothing where they end otherwise.
pub open spec fn stream_tail(data: Seq<u8>, at: int) -> Option<Seq<u8>>
    decreases data.len() - at,
{
    let start = skip_space(data, at);
    if at < 0 || start >= data.len() || !(at < token_end(data, start) <= data.len()) {
        None
    } else {
        let token = data.subrange(start, token_end(data, start));
        if token == utf8("endobj"@) {
            None
        } else if token == utf8("stream"@) {
            Some(past_line(data.skip(token_end(data, start))))
        } else {
            stream_tail(data, token_end(data, start))
        }
    }
}

/// The views of a list of tokens.
pub open spec fn token_views(tokens: Seq<Vec<u8>>) -> Seq<Seq<u8>> {
    tokens.map_values(|token: Vec<u8>| token@)
}

/// Is this one of the six whitespace characters?
pub fn is_space_byte(byte: u8) -> (space: bool)
    ensures
        space == is_space(byte),
{
    matches!(byte, 0 | 9 | 10 | 12 | 13 | 32)
}

/// Does this character end a token?
pub fn is_delimiter_byte(byte: u8) -> (delimiter: bool)
    ensures
        delimiter == is_delimiter(byte),
{
    is_space_byte(byte) || matches!(
        byte,
        0x28 | 0x29 | 0x3C | 0x3E | 0x5B | 0x5D | 0x7B | 0x7D | 0x2F | 0x25
    )
}

/// Reads the tokens of a byte string, one after the other.
#[derive(Debug)]
pub struct PdfTokenizer<'a> {
    data: &'a [u8],
    pos: usize,
}

impl<'a> PdfTokenizer<'a> {
    #[verifier::type_invariant]
    spec fn inside(self) -> bool {
        self.pos <= self.data@.len()
    }

    /// What is being read.
    pub closed spec fn bytes(self) -> Seq<u8> {
        self.data@
    }

    /// Where the next token is looked for.
    pub closed spec fn at(self) -> int {
        self.pos as int
    }

    pub fn new(data: &'a [u8]) -> (tokenizer: Self)
        ensures
            tokenizer.bytes() == data@,
            tokenizer.at() == 0,
    {
        PdfTokenizer { data, pos: 0 }
    }

    /// Skips whitespace and comments.
    fn skip_whitespace(&mut self)
        ensures
            final(self).bytes() == old(self).bytes(),
            final(self).at() == skip_space(old(self).bytes(), old(self).at()),
    {
        proof {
            use_type_invariant(&*self);
        }
        let data = self.data;
        let ghost from = self.pos as int;
        let mut pos: usize = self.pos;
        while pos < data.len() && (is_space_byte(data[pos]) || data[pos] == 0x25)
            invariant
                from <= pos <= data@.len(),
                skip_space(data@, pos as int) == skip_space(data@, from),
            decreases data@.len() - pos,
        {
            if is_space_byte(data[pos]) {
                pos += 1;
            } else {
                let ghost comment = pos as int;
                pos += 1;
                proof {
                    lemma_next_of(data@, 10, comment + 1);
                }
                while pos < data.len() && data[pos] != 10
                    invariant
                        comment < pos <= data@.len(),
                        next_of(data@, 10, pos as int) == next_of(data@, 10, comment + 1),
                    decreases data@.len() - pos,
                {
                    pos += 1;
                }
            }
        }
        self.pos = pos;
    }

    /// Where the run of ordinary characters at `from` ends.
    fn scan_to_delimiter(&self, from: usize) -> (end: usize)
        requires
            from <= self.bytes().len(),
        ensures
            end == run_end(self.bytes(), from as int),
            from <= end <= self.bytes().len(),
    {
        let data = self.data;
        let mut pos: usize = from;
        while pos < data.len() && !is_delimiter_byte(data[pos])
            invariant
                from <= pos <= data@.len(),
                run_end(data@, pos as int) == run_end(data@, from as int),
            decreases data@.len() - pos,
        {
            pos += 1;
        }
        pos
    }

    /// Where the hexadecimal string whose `<` stands before `from` ends.
    fn scan_hex_string(&self, from: usize) -> (end: usize)
        requires
            0 < from <= self.bytes().len(),
        ensures
            end <= self.bytes().len(),
            end == ({
                let close = next_of(self.bytes(), 0x3E, from as int);
                if close < self.bytes().len() {
                    close + 1
                } else {
                    self.bytes().len() as int
                }
            }),
    {
        let data = self.data;
        let mut pos: usize = from;
        while pos < data.len() && data[pos] != 0x3E
            invariant
                from <= pos <= data@.len(),
                next_of(data@, 0x3E, pos as int) == next_of(data@, 0x3E, from as int),
            decreases data@.len() - pos,
        {
            pos += 1;
        }
        if pos < data.len() {
            pos + 1
        } else {
            pos
        }
    }

    /// Where the literal string whose `(` stands before `from` ends.
    fn scan_literal(&self, from: usize) -> (end: usize)
        requires
            0 < from <= self.bytes().len(),
        ensures
            end == literal_end(self.bytes(), from as int, 1),
            end <= self.bytes().len(),
    {
        let data = self.data;
        let mut pos: usize = from;
        let mut depth: usize = 1;
        let length: usize = data.len();
        while pos < data.len() && depth > 0
            invariant
                0 < from <= pos <= data@.len(),
                length == data@.len(),
                depth <= pos - from + 1,
                literal_end(data@, pos as int, depth as nat) == literal_end(data@, from as int, 1),
            decreases data@.len() - pos,
        {
            let byte: u8 = data[pos];
            if byte == 0x5C && data.len() - pos > 1 {
                pos += 2;
            } else {
                if byte == 0x28 {
                    depth += 1;
                } else if byte == 0x29 {
                    depth -= 1;
                }
                pos += 1;
            }
        }
        pos
    }

    /// The next token, or nothing when only whitespace and comments are left.
    /// A token is the bytes that reading it consumed.
    pub fn next_token(&mut self) -> (token: Result<Option<Vec<u8>>, PdfWriteError>)
        ensures
            final(self).bytes() == old(self).bytes(),
            ({
                let data = old(self).bytes();
                let start = skip_space(data, old(self).at());
                if start >= data.len() {
                    &&& token == Ok::<Option<Vec<u8>>, PdfWriteError>(None)
                    &&& final(self).at() == data.len()
                } else {
                    &&& token matches Ok(Some(found))
                    &&& found@ == data.subrange(start, token_end(data, start))
                    &&& final(self).at() == token_end(data, start)
                    &&& old(self).at() <= start < token_end(data, start) <= data.len()
                }
            }),
    {
        proof {
            use_type_invariant(&*self);
            lemma_skip_space(self.data@, self.pos as int);
        }
        self.skip_whitespace();
        let data = self.data;
        let start: usize = self.pos;
        if start >= data.len() {
            return Ok(None);
        }
        proof {
            lemma_token_end(data@, old(self).at());
        }
        let first: u8 = data[start];
        let doubled = data.len() - start > 1 && data[start + 1] == first;
        let end: usize = match first {
            0x3C => if doubled {
                start + 2
            } else {
                self.scan_hex_string(start + 1)
            },
            0x3E => if doubled {
                start + 2
            } else {
                start + 1
            },
            0x5B | 0x5D | 0x7B | 0x7D | 0x29 => start + 1,
            0x2F => self.scan_to_delimiter(start + 1),
            0x28 => self.scan_literal(start + 1),
            _ => self.scan_to_delimiter(start),
        };
        self.pos = end;
        Ok(Some(copy_bytes(slice_subrange(data, start, end))))
    }

    /// Looks for the next token at `pos` instead, when that is inside the data.
    pub fn seek(&mut self, pos: usize)
        ensures
            final(self).bytes() == old(self).bytes(),
            final(self).at() == if pos <= old(self).bytes().len() {
                pos as int
            } else {
                old(self).at()
            },
    {
        if pos <= self.data.len() {
            self.pos = pos;
        }
    }

    /// Where the next token is looked for.
    pub fn position(&self) -> (pos: usize)
        ensures
            pos == self.at(),
    {
        self.pos
    }
}

/// The tokens of one object, up to `endobj` or `stream`.
pub fn tokenize(slice: &[u8]) -> (tokens: Vec<Vec<u8>>)
    ensures
        token_views(tokens@) == object_tokens(slice@, 0),
{
    let mut tokenizer = PdfTokenizer::new(slice);
    let mut tokens: Vec<Vec<u8>> = Vec::new();
    let ghost all = object_tokens(slice@, 0);
    let mut done = false;
    assert(token_views(tokens@) + object_tokens(slice@, 0) =~= all);
    while !done
        invariant
            tokenizer.bytes() == slice@,
            0 <= tokenizer.at() <= slice@.len(),
            done ==> token_views(tokens@) == all,
            !done ==> token_views(tokens@) + object_tokens(slice@, tokenizer.at()) == all,
        decreases (if done { 0int } else { slice@.len() + 1 - tokenizer.at() }),
    {
        let ghost at = tokenizer.at();
        let ghost before = token_views(tokens@);
        match tokenizer.next_token() {
            Ok(Some(token)) => {
                if same_bytes(token.as_slice(), "endobj".as_bytes()) || same_bytes(
                    token.as_slice(),
                    "stream".as_bytes(),
                ) {
                    done = true;
                    assert(token_views(tokens@) =~= all);
                } else {
                    let ghost found = token@;
                    tokens.push(token);
                    proof {
                        assert(token_views(tokens@) =~= before + seq![found]);
                        assert(before + (seq![found] + object_tokens(slice@, tokenizer.at()))
                            =~= token_views(tokens@) + object_tokens(slice@, tokenizer.at()));
                    }
                }
            },
            _ => {
                done = true;
                assert(token_views(tokens@) =~= all);
            },
        }
    }
    tokens
}

/// What follows the `stream` that ends the tokens of an object.
pub fn find_stream_tail<'a>(slice: &'a [u8]) -> (tail: Option<&'a [u8]>)
    ensures
        match tail {
            Some(found) => stream_tail(slice@, 0) == Some(found@),
            None => stream_tail(slice@, 0) is None,
        },
{
    let mut tokenizer = PdfTokenizer::new(slice);
    loop
        invariant
            tokenizer.bytes() == slice@,
            0 <= tokenizer.at() <= slice@.len(),
            stream_tail(slice@, tokenizer.at()) == stream_tail(slice@, 0),
        decreases slice@.len() + 1 - tokenizer.at(),
    {
        match tokenizer.next_token() {
            Ok(Some(token)) => {
                if same_bytes(token.as_slice(), "endobj".as_bytes()) {
                    return None;
                }
                if same_bytes(token.as_slice(), "stream".as_bytes()) {
                    let end: usize = tokenizer.position();
                    let mut from: usize = end;
                    if slice.len() - end > 1 && slice[end] == 13 && slice[end + 1] == 10 {
                        from = end + 2;
                    } else if slice.len() - end > 0 && slice[end] == 10 {
                        from = end + 1;
                    }
                    let tail = slice_subrange(slice, from, slice.len());
                    assert(tail@ =~= past_line(slice@.skip(end as int)));
                    return Some(tail);
                }
            },
            _ => return None,
        }
    }
}

} // verus!
