//! Delimiter scanners: where does the content of a literal end?
//!
//! Both scanners receive the bytes that follow an opening delimiter and make
//! one forward pass. Whether a candidate is the terminator depends only on a
//! fixed window around it: the byte before it, and for indented strings also
//! the byte after it. A candidate at offset 0 has no byte before it inside
//! the scanned slice; it is never taken as the terminator.

use crate::error::{failure, ErrorKind, ParseError};
use vstd::prelude::*;
use vstd::slice::slice_subrange;

verus! {

/// The byte `"`.
pub const QUOTE: u8 = 0x22;

/// The byte `\`, which escapes a following `"`.
pub const BACKSLASH: u8 = 0x5c;

/// The byte `'`.
pub const APOSTROPHE: u8 = 0x27;

/// The `"` at offset `p` ends a quoted literal whose content starts at
/// offset 0 of `s`: a byte stands before it, and that byte is not `\`.
pub open spec fn closes_quoted(s: Seq<u8>, p: int) -> bool {
    &&& 1 <= p < s.len()
    &&& s[p] == QUOTE
    &&& s[p - 1] != BACKSLASH
}

/// The `''` at offsets `p` and `p + 1` ends an indented literal whose
/// content starts at offset 0 of `s`: a byte stands before the pair, and
/// neither that byte nor the byte after the pair, if there is one, is a
/// third `'`.
pub open spec fn closes_indented(s: Seq<u8>, p: int) -> bool {
    &&& 1 <= p
    &&& p + 1 < s.len()
    &&& s[p] == APOSTROPHE
    &&& s[p + 1] == APOSTROPHE
    &&& s[p - 1] != APOSTROPHE
    &&& (p + 2 < s.len() ==> s[p + 2] != APOSTROPHE)
}

/// `p` is the first offset at which a quoted literal can end.
pub open spec fn first_quoted_close(s: Seq<u8>, p: int) -> bool {
    &&& closes_quoted(s, p)
    &&& forall|q: int| 0 <= q < p ==> !closes_quoted(s, q)
}

/// `p` is the first offset at which an indented literal can end.
pub open spec fn first_indented_close(s: Seq<u8>, p: int) -> bool {
    &&& closes_indented(s, p)
    &&& forall|q: int| 0 <= q < p ==> !closes_indented(s, q)
}

/// The length of the content of a quoted literal: the offset of the first
/// closing `"`, if the buffer holds one.
pub open spec fn quoted_end(s: Seq<u8>) -> Option<int> {
    if exists|p: int| first_quoted_close(s, p) {
        Some(choose|p: int| first_quoted_close(s, p))
    } else {
        None
    }
}

/// The length of the content of an indented literal: the offset of the
/// first closing `''`, if the buffer holds one.
pub open spec fn indented_end(s: Seq<u8>) -> Option<int> {
    if exists|p: int| first_indented_close(s, p) {
        Some(choose|p: int| first_indented_close(s, p))
    } else {
        None
    }
}

/// The end that `quoted_end` names is a first closing `"`.
pub proof fn lemma_quoted_end_some(s: Seq<u8>)
    requires
        quoted_end(s).is_some(),
    ensures
        first_quoted_close(s, quoted_end(s).unwrap()),
{
}

/// The end that `indented_end` names is a first closing `''`.
pub proof fn lemma_indented_end_some(s: Seq<u8>)
    requires
        indented_end(s).is_some(),
    ensures
        first_indented_close(s, indented_end(s).unwrap()),
{
}

/// There is at most one first closing `"`, so it is the one `quoted_end` names.
pub proof fn lemma_quoted_end_is(s: Seq<u8>, p: int)
    requires
        first_quoted_close(s, p),
    ensures
        quoted_end(s) == Some(p),
{
    let c = choose|c: int| first_quoted_close(s, c);
    assert(first_quoted_close(s, c));
    if c < p {
        assert(!closes_quoted(s, c));
    } else if p < c {
        assert(!closes_quoted(s, p));
    }
}

/// Without any closing `"` there is no end.
pub proof fn lemma_quoted_end_none(s: Seq<u8>)
    requires
        forall|q: int| 0 <= q < s.len() ==> !closes_quoted(s, q),
    ensures
        quoted_end(s).is_none(),
{
    if exists|p: int| first_quoted_close(s, p) {
        let c = choose|c: int| first_quoted_close(s, c);
        assert(closes_quoted(s, c));
    }
}

/// There is at most one first closing `''`, so it is the one `indented_end` names.
pub proof fn lemma_indented_end_is(s: Seq<u8>, p: int)
    requires
        first_indented_close(s, p),
    ensures
        indented_end(s) == Some(p),
{
    let c = choose|c: int| first_indented_close(s, c);
    assert(first_indented_close(s, c));
    if c < p {
        assert(!closes_indented(s, c));
    } else if p < c {
        assert(!closes_indented(s, p));
    }
}

/// Without any closing `''` there is no end.
pub proof fn lemma_indented_end_none(s: Seq<u8>)
    requires
        forall|q: int| 0 <= q < s.len() ==> !closes_indented(s, q),
    ensures
        indented_end(s).is_none(),
{
    if exists|p: int| first_indented_close(s, p) {
        let c = choose|c: int| first_indented_close(s, c);
        assert(closes_indented(s, c));
    }
}

/// Splits the bytes after an opening `"` at the closing `"`.
///
/// On success the first slice starts at the closing delimiter and the second
/// is the content before it. The buffer may end before any closing `"`: the
/// scan then reports an unterminated literal at the end of the buffer.
pub fn is_not_string_delim<'a>(i: &'a [u8]) -> (r: Result<(&'a [u8], &'a [u8]), ParseError>)
    ensures
        match r {
            Ok((rest, content)) => {
                &&& quoted_end(i@) == Some(content@.len() as int)
                &&& first_quoted_close(i@, content@.len() as int)
                &&& content@ == i@.take(content@.len() as int)
                &&& rest@ == i@.skip(content@.len() as int)
            },
            Err(e) => {
                &&& quoted_end(i@).is_none()
                &&& forall|q: int| 0 <= q < i@.len() ==> !closes_quoted(i@, q)
                &&& e@ == failure(ErrorKind::UnterminatedLiteral, i@.len() as int)
            },
        },
{
    let n: usize = i.len();
    let mut p: usize = 1;
    while p < n
        invariant
            1 <= p,
            n == i@.len(),
            forall|q: int| 0 <= q < p && q < n ==> !closes_quoted(i@, q),
        decreases n - p,
    {
        if i[p] == QUOTE && i[p - 1] != BACKSLASH {
            proof {
                lemma_quoted_end_is(i@, p as int);
            }
            let content = slice_subrange(i, 0, p);
            let rest = slice_subrange(i, p, n);
            return Ok((rest, content));
        }
        p = p + 1;
    }
    proof {
        lemma_quoted_end_none(i@);
    }
    Err(ParseError::new(ErrorKind::UnterminatedLiteral, n))
}

/// Splits the bytes after an opening `''` at the closing `''`.
///
/// On success the first slice starts at the closing delimiter and the second
/// is the content before it. A `''` that touches a third `'` is part of the
/// content. The buffer may end before any closing `''`: the scan then
/// reports an unterminated literal at the end of the buffer.
pub fn is_not_indented_string_delim<'a>(i: &'a [u8]) -> (r: Result<
    (&'a [u8], &'a [u8]),
    ParseError,
>)
    ensures
        match r {
            Ok((rest, content)) => {
                &&& indented_end(i@) == Some(content@.len() as int)
                &&& first_indented_close(i@, content@.len() as int)
                &&& content@ == i@.take(content@.len() as int)
                &&& rest@ == i@.skip(content@.len() as int)
            },
            Err(e) => {
                &&& indented_end(i@).is_none()
                &&& forall|q: int| 0 <= q < i@.len() ==> !closes_indented(i@, q)
                &&& e@ == failure(ErrorKind::UnterminatedLiteral, i@.len() as int)
            },
        },
{
    let n: usize = i.len();
    let mut p: usize = 1;
    while p < n && p + 1 < n
        invariant
            1 <= p,
            n == i@.len(),
            forall|q: int| 0 <= q < p ==> !closes_indented(i@, q),
        decreases n - p,
    {
        if i[p] == APOSTROPHE && i[p + 1] == APOSTROPHE && i[p - 1] != APOSTROPHE && (p + 2 >= n
            || i[p + 2] != APOSTROPHE) {
            proof {
                lemma_indented_end_is(i@, p as int);
            }
            let content = slice_subrange(i, 0, p);
            let rest = slice_subrange(i, p, n);
            return Ok((rest, content));
        }
        p = p + 1;
    }
    proof {
        lemma_indented_end_none(i@);
    }
    Err(ParseError::new(ErrorKind::UnterminatedLiteral, n))
}

} // verus!
