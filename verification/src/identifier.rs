//! Identifiers: bare names.
//!
//! Where a name ends is decided by the `regex` crate, which searches the
//! buffer for the identifier pattern. The match it reports is then read
//! here, byte by byte, before a node is built from it: a node never holds a
//! name that is empty or has a byte outside the identifier alphabet.

use crate::error::{failure, ErrorKind, ParseError};
use crate::outcome::{yields, Outcome};
use crate::syntax::{is_name_char, is_name_text, well_formed, Node, Type};
use crate::text::decode_text;
use vstd::prelude::*;
use vstd::slice::slice_subrange;
use vstd::utf8::{
    decode_utf8, encode_utf8, encode_utf8_decode_utf8, encode_utf8_valid_utf8, is_ascii_chars,
    is_ascii_chars_encode_utf8, valid_utf8,
};

verus! {

/// The pattern of an identifier: a letter or `_`, then letters, digits, `_`
/// and `-`, anchored at the start of the buffer.
pub const IDENTIFIER_PATTERN: &'static str = "^([a-zA-Z_][a-zA-Z0-9_-]*)";

/// An ASCII letter or `_`.
pub open spec fn is_name_start(b: u8) -> bool {
    ||| 0x41 <= b <= 0x5a
    ||| 0x61 <= b <= 0x7a
    ||| b == 0x5f
}

/// An ASCII letter, an ASCII digit, `_` or `-`.
pub open spec fn is_name_continue(b: u8) -> bool {
    ||| is_name_start(b)
    ||| 0x30 <= b <= 0x39
    ||| b == 0x2d
}

/// The bytes spell an identifier: at least one byte, the first a name start,
/// every later one a name continuation.
pub open spec fn is_name(bytes: Seq<u8>) -> bool {
    &&& bytes.len() >= 1
    &&& is_name_start(bytes[0])
    &&& forall|i: int| 1 <= i < bytes.len() ==> is_name_continue(#[trigger] bytes[i])
}

/// The characters of an ASCII byte sequence, one per byte.
pub open spec fn ascii_text(bytes: Seq<u8>) -> Seq<char> {
    Seq::new(bytes.len(), |i: int| bytes[i] as char)
}

/// The span of the first match of `pattern` in `haystack`, as the `regex`
/// crate finds it with its default settings: the offset of the first byte of
/// the match and the offset just behind its last. `None` when nothing
/// matches or the crate does not accept the pattern.
pub uninterp spec fn regex_find(pattern: Seq<char>, haystack: Seq<u8>) -> Option<(int, int)>;

/// Compiles `pattern` with `regex::bytes::Regex::new` and searches
/// `haystack` with `regex::bytes::Regex::find`. The span that the crate
/// reports is the one that `regex_find` names; that the search depends on
/// nothing but the pattern and the haystack is taken on trust.
#[verifier::external_body]
fn find_first_match(pattern: &str, haystack: &[u8]) -> (r: Option<(usize, usize)>)
    ensures
        match r {
            Some((start, end)) => regex_find(pattern@, haystack@) == Some(
                (start as int, end as int),
            ),
            None => regex_find(pattern@, haystack@).is_none(),
        },
{
    match regex::bytes::Regex::new(pattern) {
        Ok(re) => match re.find(haystack) {
            Some(m) => Some((m.start(), m.end())),
            None => None,
        },
        Err(_) => None,
    }
}

/// The identifier that a reported match stands for. The match counts only
/// if it starts at the first byte of the buffer, lies inside the buffer and
/// spells an identifier; the node then holds exactly the matched bytes.
/// Anything else means that no identifier begins here.
pub open spec fn identifier_of_match(s: Seq<u8>, m: Option<(int, int)>) -> Outcome {
    match m {
        Some((start, end)) => {
            if start == 0 && 0 < end <= s.len() && is_name(s.take(end)) {
                Ok((Node::Identifier(ascii_text(s.take(end))), end))
            } else {
                Err(failure(ErrorKind::StructuralMismatch, 0))
            }
        },
        None => Err(failure(ErrorKind::StructuralMismatch, 0)),
    }
}

/// An identifier at the start of `s`: what the search for the identifier
/// pattern reports, accepted as `identifier_of_match` says.
pub open spec fn identifier_spec(s: Seq<u8>) -> Outcome {
    identifier_of_match(s, regex_find(IDENTIFIER_PATTERN@, s))
}

/// An identifier consumes at least one byte and never more than the buffer;
/// the only failure is a mismatch at the first byte.
pub proof fn lemma_identifier_bounds(s: Seq<u8>)
    ensures
        match identifier_spec(s) {
            Ok((node, used)) => 1 <= used <= s.len() && node is Identifier && is_name_start(s[0]),
            Err(f) => f == failure(ErrorKind::StructuralMismatch, 0),
        },
{
    if let Ok((node, used)) = identifier_spec(s) {
        assert(s.take(used)[0] == s[0]);
    }
}

/// Bytes that spell an identifier give, one character per byte, a text
/// that is an identifier.
pub proof fn lemma_name_text(bytes: Seq<u8>)
    requires
        is_name(bytes),
    ensures
        is_name_text(ascii_text(bytes)),
{
    let name = ascii_text(bytes);
    assert(name[0] == bytes[0] as char);
    assert forall|i: int| 1 <= i < name.len() implies is_name_char(#[trigger] name[i]) by {
        assert(is_name_continue(bytes[i]));
        assert(name[i] == bytes[i] as char);
    }
}

/// ASCII bytes are well-formed UTF-8 and decode to one character per byte.
pub proof fn lemma_ascii_decodes(bytes: Seq<u8>)
    requires
        forall|i: int| 0 <= i < bytes.len() ==> #[trigger] bytes[i] < 0x80,
    ensures
        valid_utf8(bytes),
        decode_utf8(bytes) == ascii_text(bytes),
{
    let chars = ascii_text(bytes);
    assert(is_ascii_chars(chars));
    is_ascii_chars_encode_utf8(chars);
    assert(encode_utf8(chars) =~= bytes);
    encode_utf8_valid_utf8(chars);
    encode_utf8_decode_utf8(chars);
}

/// Is `b` an ASCII letter or `_`?
pub fn name_start(b: u8) -> (r: bool)
    ensures
        r == is_name_start(b),
{
    (0x41 <= b && b <= 0x5a) || (0x61 <= b && b <= 0x7a) || b == 0x5f
}

/// Is `b` an ASCII letter, an ASCII digit, `_` or `-`?
pub fn name_continue(b: u8) -> (r: bool)
    ensures
        r == is_name_continue(b),
{
    name_start(b) || (0x30 <= b && b <= 0x39) || b == 0x2d
}

/// Do the first `end` bytes of `input` spell an identifier?
pub fn spells_name(input: &[u8], end: usize) -> (r: bool)
    requires
        end <= input@.len(),
    ensures
        r == is_name(input@.take(end as int)),
{
    if end == 0 || !name_start(input[0]) {
        return false;
    }
    let mut i: usize = 1;
    while i < end
        invariant
            1 <= i <= end <= input@.len(),
            is_name_start(input@[0]),
            forall|j: int| 1 <= j < i ==> is_name_continue(#[trigger] input@[j]),
        decreases end - i,
    {
        if !name_continue(input[i]) {
            assert(input@.take(end as int)[i as int] == input@[i as int]);
            return false;
        }
        i = i + 1;
    }
    assert forall|j: int| 1 <= j < end implies is_name_continue(
        #[trigger] input@.take(end as int)[j],
    ) by {
        assert(input@.take(end as int)[j] == input@[j]);
    }
    true
}

/// Builds the identifier node for the match `m` that a search of `input`
/// for the identifier pattern reported.
pub fn identifier_from_match<'a>(input: &'a [u8], m: Option<(usize, usize)>) -> (r: Result<
    (&'a [u8], Type),
    ParseError,
>)
    ensures
        yields(
            input@,
            r,
            identifier_of_match(
                input@,
                match m {
                    Some((start, end)) => Some((start as int, end as int)),
                    None => None,
                },
            ),
        ),
        r matches Ok((_, node)) ==> well_formed(node@),
{
    match m {
        Some((start, end)) => {
            if start == 0 && 0 < end && end <= input.len() && spells_name(input, end) {
                let name = slice_subrange(input, 0, end);
                assert(name@ =~= input@.take(end as int));
                proof {
                    lemma_ascii_decodes(name@);
                    lemma_name_text(name@);
                }
                match decode_text(name) {
                    Some(text) => {
                        let rest = slice_subrange(input, end, input.len());
                        assert(rest@ =~= input@.skip(input@.len() - rest@.len()));
                        Ok((rest, Type::Identifier(text)))
                    },
                    // A name is ASCII, so it always decodes.
                    None => Err(ParseError::new(ErrorKind::StructuralMismatch, 0)),
                }
            } else {
                Err(ParseError::new(ErrorKind::StructuralMismatch, 0))
            }
        },
        None => Err(ParseError::new(ErrorKind::StructuralMismatch, 0)),
    }
}

/// Parses an identifier at the start of `input`.
pub fn identifier<'a>(input: &'a [u8]) -> (r: Result<(&'a [u8], Type), ParseError>)
    ensures
        yields(input@, r, identifier_spec(input@)),
        r matches Ok((_, node)) ==> well_formed(node@),
{
    let m = find_first_match(IDENTIFIER_PATTERN, input);
    identifier_from_match(input, m)
}

} // verus!
