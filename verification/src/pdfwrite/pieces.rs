//! The tokens of a text that is put together from pieces.

use crate::bytes::utf8;
use crate::pdfwrite::tokenizer::{
    is_delimiter, is_space, lemma_token_end, literal_end, next_of, object_tokens, run_end,
    skip_space, stream_tail, token_end,
};
use vstd::prelude::*;
use vstd::utf8::is_ascii_chars_encode_utf8;

verus! {

/// The tokens of a text.
pub open spec fn tokens_of(text: Seq<u8>) -> Seq<Seq<u8>> {
    object_tokens(text, 0)
}

/// What follows the `stream` that ends the tokens of a text.
pub open spec fn tail_of(text: Seq<u8>) -> Option<Seq<u8>> {
    stream_tail(text, 0)
}

proof fn lemma_next_of_within(data: Seq<u8>, byte: u8, at: int, from: int)
    requires
        0 <= from <= at <= data.len(),
    ensures
        next_of(data, byte, at) == from + next_of(data.skip(from), byte, at - from),
    decreases data.len() - at,
{
    if at < data.len() {
        assert(data.skip(from)[at - from] == data[at]);
        lemma_next_of_within(data, byte, at + 1, from);
    }
}

proof fn lemma_run_end_within(data: Seq<u8>, at: int, from: int)
    requires
        0 <= from <= at <= data.len(),
    ensures
        run_end(data, at) == from + run_end(data.skip(from), at - from),
    decreases data.len() - at,
{
    if at < data.len() {
        assert(data.skip(from)[at - from] == data[at]);
        lemma_run_end_within(data, at + 1, from);
    }
}

proof fn lemma_literal_end_within(data: Seq<u8>, at: int, depth: nat, from: int)
    requires
        0 <= from <= at <= data.len(),
    ensures
        literal_end(data, at, depth) == from + literal_end(data.skip(from), at - from, depth),
    decreases data.len() - at,
{
    if at < data.len() && depth > 0 {
        assert(data.skip(from)[at - from] == data[at]);
        if data[at] == 0x5C && at + 1 < data.len() {
            lemma_literal_end_within(data, at + 2, depth, from);
        } else if data[at] == 0x28 {
            lemma_literal_end_within(data, at + 1, depth + 1, from);
        } else if data[at] == 0x29 {
            lemma_literal_end_within(data, at + 1, (depth - 1) as nat, from);
        } else {
            lemma_literal_end_within(data, at + 1, depth, from);
        }
    }
}

proof fn lemma_skip_space_within(data: Seq<u8>, at: int, from: int)
    requires
        0 <= from <= at <= data.len(),
    ensures
        skip_space(data, at) == from + skip_space(data.skip(from), at - from),
    decreases data.len() - at,
{
    if at < data.len() {
        assert(data.skip(from)[at - from] == data[at]);
        if is_space(data[at]) {
            lemma_skip_space_within(data, at + 1, from);
        } else if data[at] == 0x25 {
            lemma_next_of_within(data, 10, at + 1, from);
            let line_end = next_of(data, 10, at + 1);
            if at < line_end <= data.len() {
                lemma_skip_space_within(data, line_end, from);
            }
        }
    }
}

proof fn lemma_token_end_within(data: Seq<u8>, start: int, from: int)
    requires
        0 <= from <= start < data.len(),
    ensures
        token_end(data, start) == from + token_end(data.skip(from), start - from),
{
    let rest = data.skip(from);
    assert(rest[start - from] == data[start]);
    if start + 1 < data.len() {
        assert(rest[start + 1 - from] == data[start + 1]);
    }
    lemma_next_of_within(data, 0x3E, start + 1, from);
    lemma_run_end_within(data, start + 1, from);
    lemma_run_end_within(data, start, from);
    lemma_literal_end_within(data, start + 1, 1, from);
}

/// What tokens stand from a place on does not depend on what is before it.
pub proof fn lemma_tokens_within(data: Seq<u8>, at: int, from: int)
    requires
        0 <= from <= at <= data.len(),
    ensures
        object_tokens(data, at) == object_tokens(data.skip(from), at - from),
        stream_tail(data, at) == stream_tail(data.skip(from), at - from),
    decreases data.len() - at,
{
    let rest = data.skip(from);
    lemma_skip_space_within(data, at, from);
    let start = skip_space(data, at);
    if start < data.len() {
        lemma_token_end(data, at);
        lemma_token_end_within(data, start, from);
        let end = token_end(data, start);
        assert(data.subrange(start, end) =~= rest.subrange(start - from, end - from));
        assert(data.skip(end) =~= rest.skip(end - from));
        lemma_tokens_within(data, end, from);
    }
}

/// White space before a text adds no token.
pub proof fn lemma_space(byte: u8, rest: Seq<u8>)
    requires
        is_space(byte),
    ensures
        tokens_of(seq![byte] + rest) == tokens_of(rest),
        tail_of(seq![byte] + rest) == tail_of(rest),
{
    let data = seq![byte] + rest;
    assert(data[0] == byte);
    assert(skip_space(data, 0) == skip_space(data, 1));
    if skip_space(data, 1) < data.len() {
        lemma_token_end(data, 1);
    }
    assert(object_tokens(data, 0) == object_tokens(data, 1));
    assert(stream_tail(data, 0) == stream_tail(data, 1));
    lemma_tokens_within(data, 1, 1);
    assert(data.skip(1) =~= rest);
}

/// A piece that is read as one token comes first, and the rest after it.
pub proof fn lemma_first_token(token: Seq<u8>, rest: Seq<u8>)
    requires
        token.len() > 0,
        !is_space(token[0]),
        token[0] != 0x25,
        token_end(token + rest, 0) == token.len(),
        token != utf8("endobj"@),
        token != utf8("stream"@),
    ensures
        tokens_of(token + rest) == seq![token] + tokens_of(rest),
        tail_of(token + rest) == tail_of(rest),
{
    let data = token + rest;
    assert(data[0] == token[0]);
    assert(skip_space(data, 0) == 0);
    assert(data.subrange(0, token.len() as int) =~= token);
    lemma_tokens_within(data, token.len() as int, token.len() as int);
    assert(data.skip(token.len() as int) =~= rest);
}

/// Where a run of characters that are no delimiters ends.
pub proof fn lemma_run(data: Seq<u8>, at: int, end: int)
    requires
        0 <= at <= end <= data.len(),
        forall|i: int| at <= i < end ==> !is_delimiter(#[trigger] data[i]),
        end < data.len() ==> is_delimiter(data[end]),
    ensures
        run_end(data, at) == end,
    decreases end - at,
{
    if at < end {
        lemma_run(data, at + 1, end);
    }
}

/// A text without delimiters, which is read as one token.
pub open spec fn is_word(text: Seq<u8>) -> bool {
    &&& text.len() > 0
    &&& forall|i: int| 0 <= i < text.len() ==> !is_delimiter(#[trigger] text[i])
    &&& text != utf8("endobj"@)
    &&& text != utf8("stream"@)
}

/// A text starts with a delimiter, or there is none.
pub open spec fn is_parted(rest: Seq<u8>) -> bool {
    rest.len() == 0 || is_delimiter(rest[0])
}

/// A word is a token.
pub proof fn lemma_word(word: Seq<u8>, rest: Seq<u8>)
    requires
        is_word(word),
        is_parted(rest),
    ensures
        tokens_of(word + rest) == seq![word] + tokens_of(rest),
        tail_of(word + rest) == tail_of(rest),
{
    let data = word + rest;
    let end = word.len() as int;
    assert forall|i: int| 0 <= i < end implies !is_delimiter(#[trigger] data[i]) by {
        assert(data[i] == word[i]);
    }
    if end < data.len() {
        assert(data[end] == rest[0]);
    }
    lemma_run(data, 0, end);
    assert(!is_delimiter(word[0]));
    lemma_first_token(word, rest);
}

/// A word with white space behind it is a token.
pub proof fn lemma_word_and_space(word: Seq<u8>, space: u8, rest: Seq<u8>)
    requires
        is_word(word),
        is_space(space),
    ensures
        tokens_of(word + (seq![space] + rest)) == seq![word] + tokens_of(rest),
        tail_of(word + (seq![space] + rest)) == tail_of(rest),
{
    lemma_word(word, seq![space] + rest);
    lemma_space(space, rest);
}

/// A slash with a word behind it is a token.
pub proof fn lemma_name(word: Seq<u8>, rest: Seq<u8>)
    requires
        is_word(word),
        is_parted(rest),
    ensures
        tokens_of(seq![0x2Fu8] + word + rest) == seq![seq![0x2Fu8] + word] + tokens_of(rest),
        tail_of(seq![0x2Fu8] + word + rest) == tail_of(rest),
{
    let name = seq![0x2Fu8] + word;
    let data = name + rest;
    let end = name.len() as int;
    assert forall|i: int| 1 <= i < end implies !is_delimiter(#[trigger] data[i]) by {
        assert(data[i] == word[i - 1]);
    }
    if end < data.len() {
        assert(data[end] == rest[0]);
    }
    lemma_run(data, 1, end);
    assert(data[0] == 0x2F);
    assert(utf8("endobj"@)[0] != 0x2F && utf8("stream"@)[0] != 0x2F) by {
        lemma_ends();
    }
    lemma_first_token(name, rest);
}

/// The words that end an object, by their first letters.
proof fn lemma_ends()
    ensures
        utf8("endobj"@).len() == 6,
        utf8("endobj"@)[0] == 101,
        utf8("stream"@).len() == 6,
        utf8("stream"@)[0] == 115,
{
    reveal_strlit("endobj");
    reveal_strlit("stream");
    is_ascii_chars_encode_utf8("endobj"@);
    is_ascii_chars_encode_utf8("stream"@);
}

/// A bracket, and what opens or closes a dictionary, is a token.
pub proof fn lemma_bracket(bracket: Seq<u8>, rest: Seq<u8>)
    requires
        bracket == seq![0x5Bu8] || bracket == seq![0x5Du8] || bracket == seq![0x3Cu8, 0x3Cu8]
            || bracket == seq![0x3Eu8, 0x3Eu8],
    ensures
        tokens_of(bracket + rest) == seq![bracket] + tokens_of(rest),
        tail_of(bracket + rest) == tail_of(rest),
{
    let data = bracket + rest;
    assert(data[0] == bracket[0]);
    if bracket.len() == 2 {
        assert(data[1] == bracket[1]);
    }
    lemma_ends();
    lemma_first_token(bracket, rest);
}

proof fn lemma_close(data: Seq<u8>, byte: u8, at: int, end: int)
    requires
        0 <= at <= end < data.len(),
        forall|i: int| at <= i < end ==> #[trigger] data[i] != byte,
        data[end] == byte,
    ensures
        next_of(data, byte, at) == end,
    decreases end - at,
{
    if at < end {
        lemma_close(data, byte, at + 1, end);
    }
}

/// A hexadecimal string is a token.
pub proof fn lemma_hex_string(digits: Seq<u8>, rest: Seq<u8>)
    requires
        forall|i: int| 0 <= i < digits.len() ==> #[trigger] digits[i] != 0x3E && digits[i] != 0x3C,
    ensures
        tokens_of(seq![0x3Cu8] + digits + seq![0x3Eu8] + rest) == seq![
            seq![0x3Cu8] + digits + seq![0x3Eu8],
        ] + tokens_of(rest),
        tail_of(seq![0x3Cu8] + digits + seq![0x3Eu8] + rest) == tail_of(rest),
{
    let token = seq![0x3Cu8] + digits + seq![0x3Eu8];
    let data = token + rest;
    let end = digits.len() as int + 1;
    assert(data[0] == 0x3C);
    assert(data[end] == 0x3E);
    assert forall|i: int| 1 <= i < end implies #[trigger] data[i] != 0x3E && data[i] != 0x3C by {
        assert(data[i] == digits[i - 1]);
    }
    lemma_close(data, 0x3E, 1, end);
    lemma_ends();
    lemma_first_token(token, rest);
}

} // verus!
