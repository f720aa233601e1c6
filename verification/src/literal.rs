//! Quoted and indented string literals.

use crate::error::{failure, ErrorKind, ParseError};
use crate::outcome::{yields, Outcome};
use crate::scanner::{
    indented_end, is_not_indented_string_delim, is_not_string_delim, lemma_indented_end_some,
    lemma_quoted_end_some, quoted_end, APOSTROPHE, QUOTE,
};
use crate::syntax::{Node, Type};
use crate::text::decode_text;
use vstd::prelude::*;
use vstd::slice::slice_subrange;
use vstd::utf8::{decode_utf8, valid_utf8};

verus! {

/// The buffer begins with `"`.
pub open spec fn opens_quoted(s: Seq<u8>) -> bool {
    s.len() >= 1 && s[0] == QUOTE
}

/// The buffer begins with `''`.
pub open spec fn opens_indented(s: Seq<u8>) -> bool {
    s.len() >= 2 && s[0] == APOSTROPHE && s[1] == APOSTROPHE
}

/// A quoted literal at the start of `s`: `"`, the content up to the first
/// closing `"`, and that `"`. The node holds the content decoded as UTF-8,
/// with nothing unescaped or otherwise rewritten.
pub open spec fn string_spec(s: Seq<u8>) -> Outcome {
    if !opens_quoted(s) {
        Err(failure(ErrorKind::StructuralMismatch, 0))
    } else {
        match quoted_end(s.skip(1)) {
            None => Err(failure(ErrorKind::UnterminatedLiteral, s.len() as int)),
            Some(n) => {
                let content = s.subrange(1, 1 + n);
                if valid_utf8(content) {
                    Ok((Node::String(decode_utf8(content)), n + 2))
                } else {
                    Err(failure(ErrorKind::InvalidEncoding, 1))
                }
            },
        }
    }
}

/// An indented literal at the start of `s`: `''`, the content up to the
/// first closing `''`, and that `''`. The node holds the content decoded as
/// UTF-8, indentation included.
pub open spec fn indented_string_spec(s: Seq<u8>) -> Outcome {
    if !opens_indented(s) {
        Err(failure(ErrorKind::StructuralMismatch, 0))
    } else {
        match indented_end(s.skip(2)) {
            None => Err(failure(ErrorKind::UnterminatedLiteral, s.len() as int)),
            Some(n) => {
                let content = s.subrange(2, 2 + n);
                if valid_utf8(content) {
                    Ok((Node::IndentedString(decode_utf8(content)), n + 4))
                } else {
                    Err(failure(ErrorKind::InvalidEncoding, 2))
                }
            },
        }
    }
}

/// A quoted literal consumes at least its two delimiters and one byte of
/// content, and never more than the buffer; a failure lies inside the buffer.
pub proof fn lemma_string_bounds(s: Seq<u8>)
    ensures
        match string_spec(s) {
            Ok((node, used)) => 3 <= used <= s.len() && node is String,
            Err(f) => 0 <= f.offset <= s.len(),
        },
{
    if opens_quoted(s) && quoted_end(s.skip(1)).is_some() {
        lemma_quoted_end_some(s.skip(1));
    }
}

/// An indented literal consumes at least its four delimiter bytes and one
/// byte of content, and never more than the buffer; a failure lies inside
/// the buffer.
pub proof fn lemma_indented_string_bounds(s: Seq<u8>)
    ensures
        match indented_string_spec(s) {
            Ok((node, used)) => 5 <= used <= s.len() && node is IndentedString,
            Err(f) => 0 <= f.offset <= s.len(),
        },
{
    if opens_indented(s) && indented_end(s.skip(2)).is_some() {
        lemma_indented_end_some(s.skip(2));
    }
}

/// Parses a quoted string literal at the start of `input`.
pub fn string<'a>(input: &'a [u8]) -> (r: Result<(&'a [u8], Type), ParseError>)
    ensures
        yields(input@, r, string_spec(input@)),
{
    if input.len() < 1 || input[0] != QUOTE {
        return Err(ParseError::new(ErrorKind::StructuralMismatch, 0));
    }
    let body = slice_subrange(input, 1, input.len());
    assert(body@ =~= input@.skip(1));
    match is_not_string_delim(body) {
        Err(e) => Err(ParseError::new(e.kind(), e.offset() + 1)),
        Ok((tail, content)) => {
            assert(content@ =~= input@.subrange(1, 1 + content@.len() as int));
            match decode_text(content) {
                None => Err(ParseError::new(ErrorKind::InvalidEncoding, 1)),
                Some(text) => {
                    let rest = slice_subrange(tail, 1, tail.len());
                    assert(rest@ =~= input@.skip(input@.len() - rest@.len()));
                    Ok((rest, Type::String(text)))
                },
            }
        },
    }
}

/// Parses an indented string literal at the start of `input`.
pub fn indented_string<'a>(input: &'a [u8]) -> (r: Result<(&'a [u8], Type), ParseError>)
    ensures
        yields(input@, r, indented_string_spec(input@)),
{
    if input.len() < 2 || input[0] != APOSTROPHE || input[1] != APOSTROPHE {
        return Err(ParseError::new(ErrorKind::StructuralMismatch, 0));
    }
    let body = slice_subrange(input, 2, input.len());
    assert(body@ =~= input@.skip(2));
    match is_not_indented_string_delim(body) {
        Err(e) => Err(ParseError::new(e.kind(), e.offset() + 2)),
        Ok((tail, content)) => {
            assert(content@ =~= input@.subrange(2, 2 + content@.len() as int));
            match decode_text(content) {
                None => Err(ParseError::new(ErrorKind::InvalidEncoding, 2)),
                Some(text) => {
                    let rest = slice_subrange(tail, 2, tail.len());
                    assert(rest@ =~= input@.skip(input@.len() - rest@.len()));
                    Ok((rest, Type::IndentedString(text)))
                },
            }
        },
    }
}

} // verus!
