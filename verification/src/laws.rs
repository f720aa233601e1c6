//! Laws of the grammar, proved from the models of the parsers.

use crate::error::{failure, ErrorKind, Failure};
use crate::expression::{
    attr_set_spec, bindings_spec, expression_spec, is_space, lemma_attr_set_bounds,
    lemma_bindings_bounds, lemma_expression_bounds, opens_set, prepended, CLOSE_BRACE,
    OPEN_BRACE,
};
use crate::identifier::{identifier_spec, is_name_start, lemma_identifier_bounds};
use crate::literal::{
    indented_string_spec, lemma_indented_string_bounds, lemma_string_bounds, opens_indented,
    opens_quoted, string_spec,
};
use crate::outcome::ends_at;
use crate::scanner::{
    closes_indented, closes_quoted, first_indented_close, first_quoted_close, indented_end,
    lemma_indented_end_is, lemma_indented_end_some, lemma_quoted_end_is, lemma_quoted_end_some,
    quoted_end, APOSTROPHE, BACKSLASH, QUOTE,
};
use crate::syntax::Node;
use vstd::prelude::*;
use vstd::utf8::{
    decode_utf8, encode_utf8, encode_utf8_decode_utf8, encode_utf8_valid_utf8, valid_utf8,
};

verus! {

/// Content that a quoted literal can hold as it stands: it is not empty,
/// it does not end in `\`, and no `"` in it closes the literal.
pub open spec fn quotable(content: Seq<u8>) -> bool {
    &&& content.len() >= 1
    &&& content.last() != BACKSLASH
    &&& forall|p: int| 0 <= p < content.len() ==> !closes_quoted(content, p)
}

/// Content that an indented literal can hold as it stands: it is not empty,
/// it does not end in `'`, and no `''` in it closes the literal.
pub open spec fn indentable(content: Seq<u8>) -> bool {
    &&& content.len() >= 1
    &&& content.last() != APOSTROPHE
    &&& forall|p: int| 0 <= p < content.len() ==> !closes_indented(content, p)
}

/// Quoting and parsing gives the content back. Whatever follows the closing
/// `"`, the bytes `"`, `content`, `"` parse as a quoted literal that consumes
/// exactly those bytes, and its content is `content`, byte for byte.
pub proof fn lemma_quoted_bytes_round_trip(content: Seq<u8>, after: Seq<u8>)
    requires
        quotable(content),
    ensures
        quoted_end(content + seq![QUOTE] + after) == Some(content.len() as int),
        valid_utf8(content) ==> string_spec(seq![QUOTE] + content + seq![QUOTE] + after) == Ok::<
            (Node, int),
            Failure,
        >((Node::String(decode_utf8(content)), content.len() as int + 2)),
        !valid_utf8(content) ==> string_spec(seq![QUOTE] + content + seq![QUOTE] + after)
            == Err::<(Node, int), Failure>(failure(ErrorKind::InvalidEncoding, 1)),
{
    let body = content + seq![QUOTE] + after;
    let s = seq![QUOTE] + content + seq![QUOTE] + after;
    let n = content.len() as int;
    assert(s.skip(1) =~= body);
    assert(s.subrange(1, 1 + n) =~= content);
    assert(body[n] == QUOTE);
    assert(body[n - 1] == content.last());
    assert forall|q: int| 0 <= q < n implies !closes_quoted(body, q) by {
        assert(!closes_quoted(content, q));
        assert(body[q] == content[q]);
        if q >= 1 {
            assert(body[q - 1] == content[q - 1]);
        }
    }
    assert(first_quoted_close(body, n));
    lemma_quoted_end_is(body, n);
}

/// Parsing `"` + `text` + `"` yields a string node whose content is `text`
/// exactly and consumes the whole buffer, the closing quote being its last
/// byte. This holds of every text that is not empty, does not end in `\`
/// and holds no `"` that would close the literal early.
pub proof fn lemma_string_round_trip(text: Seq<char>)
    requires
        quotable(encode_utf8(text)),
    ensures
        string_spec(seq![QUOTE] + encode_utf8(text) + seq![QUOTE]) == Ok::<(Node, int), Failure>(
            (Node::String(text), (seq![QUOTE] + encode_utf8(text) + seq![QUOTE]).len() as int),
        ),
{
    let content = encode_utf8(text);
    encode_utf8_valid_utf8(text);
    encode_utf8_decode_utf8(text);
    lemma_quoted_bytes_round_trip(content, Seq::empty());
    assert(seq![QUOTE] + content + seq![QUOTE] + Seq::<u8>::empty() =~= seq![QUOTE] + content
        + seq![QUOTE]);
}

/// Wrapping in `''` and parsing gives the content back. If what follows
/// the closing `''` does not begin with `'`, the bytes `''`, `content`, `''`
/// parse as an indented literal that consumes exactly those bytes, and its
/// content is `content`, byte for byte.
pub proof fn lemma_indented_bytes_round_trip(content: Seq<u8>, after: Seq<u8>)
    requires
        indentable(content),
        after.len() == 0 || after[0] != APOSTROPHE,
    ensures
        indented_end(content + seq![APOSTROPHE, APOSTROPHE] + after) == Some(
            content.len() as int,
        ),
        valid_utf8(content) ==> indented_string_spec(
            seq![APOSTROPHE, APOSTROPHE] + content + seq![APOSTROPHE, APOSTROPHE] + after,
        ) == Ok::<(Node, int), Failure>(
            (Node::IndentedString(decode_utf8(content)), content.len() as int + 4),
        ),
        !valid_utf8(content) ==> indented_string_spec(
            seq![APOSTROPHE, APOSTROPHE] + content + seq![APOSTROPHE, APOSTROPHE] + after,
        ) == Err::<(Node, int), Failure>(failure(ErrorKind::InvalidEncoding, 2)),
{
    let body = content + seq![APOSTROPHE, APOSTROPHE] + after;
    let s = seq![APOSTROPHE, APOSTROPHE] + content + seq![APOSTROPHE, APOSTROPHE] + after;
    let n = content.len() as int;
    assert(s.skip(2) =~= body);
    assert(s.subrange(2, 2 + n) =~= content);
    assert(body[n] == APOSTROPHE);
    assert(body[n + 1] == APOSTROPHE);
    assert(body[n - 1] == content.last());
    if n + 2 < body.len() {
        assert(body[n + 2] == after[0]);
    }
    assert forall|q: int| 0 <= q < n implies !closes_indented(body, q) by {
        assert(!closes_indented(content, q));
        assert(body[q] == content[q]);
        if q >= 1 {
            assert(body[q - 1] == content[q - 1]);
        }
        if q + 1 < n {
            assert(body[q + 1] == content[q + 1]);
        }
        if q + 2 < n {
            assert(body[q + 2] == content[q + 2]);
        }
    }
    assert(first_indented_close(body, n));
    lemma_indented_end_is(body, n);
}

/// Parsing `''` + `text` + `''` yields an indented string node whose
/// content is `text` exactly and consumes the whole buffer. This holds of
/// every text that is not empty, does not end in `'` and holds no `''` that
/// would close the literal early.
pub proof fn lemma_indented_string_round_trip(text: Seq<char>)
    requires
        indentable(encode_utf8(text)),
    ensures
        indented_string_spec(
            seq![APOSTROPHE, APOSTROPHE] + encode_utf8(text) + seq![APOSTROPHE, APOSTROPHE],
        ) == Ok::<(Node, int), Failure>(
            (
                Node::IndentedString(text),
                (seq![APOSTROPHE, APOSTROPHE] + encode_utf8(text) + seq![
                    APOSTROPHE,
                    APOSTROPHE,
                ]).len() as int,
            ),
        ),
{
    let content = encode_utf8(text);
    encode_utf8_valid_utf8(text);
    encode_utf8_decode_utf8(text);
    lemma_indented_bytes_round_trip(content, Seq::empty());
    assert(seq![APOSTROPHE, APOSTROPHE] + content + seq![APOSTROPHE, APOSTROPHE] + Seq::<
        u8,
    >::empty() =~= seq![APOSTROPHE, APOSTROPHE] + content + seq![APOSTROPHE, APOSTROPHE]);
}

/// A buffer that does not begin with a letter or `_` holds no identifier
/// at its start, whatever the search reports: the identifier parser fails
/// with a mismatch at the first byte.
pub proof fn lemma_identifier_rejects(s: Seq<u8>)
    requires
        s.len() == 0 || !is_name_start(s[0]),
    ensures
        identifier_spec(s) == Err::<(Node, int), Failure>(
            failure(ErrorKind::StructuralMismatch, 0),
        ),
{
    lemma_identifier_bounds(s);
}

/// The dispatcher goes by the first bytes of the buffer: `"` selects the
/// quoted string, `''` the indented string, `{` the attribute set, and
/// anything else is left to the identifier. Once a form is selected its
/// outcome is final, failure included.
pub proof fn lemma_expression_dispatch(s: Seq<u8>, budget: nat)
    ensures
        opens_quoted(s) ==> expression_spec(s, budget) == string_spec(s),
        opens_indented(s) ==> expression_spec(s, budget) == indented_string_spec(s),
        opens_set(s) ==> expression_spec(s, budget) == attr_set_spec(s, budget),
        !opens_quoted(s) && !opens_indented(s) && !opens_set(s) ==> expression_spec(s, budget)
            == identifier_spec(s),
{
    lemma_string_bounds(s);
    lemma_indented_string_bounds(s);
    lemma_attr_set_bounds(s, budget);
    lemma_identifier_bounds(s);
    if opens_set(s) && budget > 0 {
        lemma_bindings_bounds(s.skip(1), (budget - 1) as nat);
    }
}

/// What is left after a parse is parsed on its own terms. If the parse of
/// two concatenated buffers ends where the first buffer ends, then the
/// remainder is the second buffer, and parsing the remainder gives what
/// parsing the second buffer alone gives.
pub proof fn lemma_remainder_reparses(first: Seq<u8>, second: Seq<u8>, budget: nat)
    requires
        ends_at(expression_spec(first + second, budget), first.len() as int),
    ensures
        (first + second).skip(first.len() as int) == second,
        expression_spec((first + second).skip(first.len() as int), budget) == expression_spec(
            second,
            budget,
        ),
{
    assert((first + second).skip(first.len() as int) =~= second);
}

/// A quoted literal is parsed the same whatever follows it. If `first` is
/// one whole quoted literal, then `first` followed by `second` parses to the
/// same node, the parse ends where `first` ends, and the remainder, parsed
/// again, gives what `second` gives on its own.
pub proof fn lemma_string_then(first: Seq<u8>, second: Seq<u8>, budget: nat)
    requires
        ends_at(string_spec(first), first.len() as int),
    ensures
        string_spec(first + second) == string_spec(first),
        expression_spec(first + second, budget) == string_spec(first),
        expression_spec((first + second).skip(first.len() as int), budget) == expression_spec(
            second,
            budget,
        ),
{
    let whole = first + second;
    let n = first.len() - 2;
    lemma_quoted_end_some(first.skip(1));
    assert(first_quoted_close(first.skip(1), n));
    assert forall|q: int| 0 <= q <= n implies closes_quoted(whole.skip(1), q) == closes_quoted(
        first.skip(1),
        q,
    ) by {
        assert(whole.skip(1)[q] == first.skip(1)[q]);
        if q >= 1 {
            assert(whole.skip(1)[q - 1] == first.skip(1)[q - 1]);
        }
    }
    assert(first_quoted_close(whole.skip(1), n));
    lemma_quoted_end_is(whole.skip(1), n);
    assert(whole.subrange(1, 1 + n) =~= first.subrange(1, 1 + n));
    assert(opens_quoted(whole));
    lemma_expression_dispatch(whole, budget);
    assert(whole.skip(first.len() as int) =~= second);
}

/// An indented literal is parsed the same whatever follows it, unless that
/// begins with `'`. If `first` is one whole indented literal and `second`
/// does not begin with `'`, then `first` followed by `second` parses to the
/// same node, the parse ends where `first` ends, and the remainder, parsed
/// again, gives what `second` gives on its own.
pub proof fn lemma_indented_string_then(first: Seq<u8>, second: Seq<u8>, budget: nat)
    requires
        ends_at(indented_string_spec(first), first.len() as int),
        second.len() == 0 || second[0] != APOSTROPHE,
    ensures
        indented_string_spec(first + second) == indented_string_spec(first),
        expression_spec(first + second, budget) == indented_string_spec(first),
        expression_spec((first + second).skip(first.len() as int), budget) == expression_spec(
            second,
            budget,
        ),
{
    let whole = first + second;
    let n = first.len() - 4;
    lemma_indented_end_some(first.skip(2));
    assert(first_indented_close(first.skip(2), n));
    assert forall|q: int| 0 <= q < n implies !closes_indented(whole.skip(2), q) by {
        assert(!closes_indented(first.skip(2), q));
        assert(whole.skip(2)[q] == first.skip(2)[q]);
        assert(whole.skip(2)[q + 1] == first.skip(2)[q + 1]);
        assert(whole.skip(2)[q + 2] == first.skip(2)[q + 2]);
        if q >= 1 {
            assert(whole.skip(2)[q - 1] == first.skip(2)[q - 1]);
        }
    }
    assert(closes_indented(whole.skip(2), n)) by {
        assert(whole.skip(2)[n] == first.skip(2)[n]);
        assert(whole.skip(2)[n + 1] == first.skip(2)[n + 1]);
        assert(whole.skip(2)[n - 1] == first.skip(2)[n - 1]);
        if n + 2 < whole.skip(2).len() {
            assert(whole.skip(2)[n + 2] == second[0]);
        }
    }
    assert(first_indented_close(whole.skip(2), n));
    lemma_indented_end_is(whole.skip(2), n);
    assert(whole.subrange(2, 2 + n) =~= first.subrange(2, 2 + n));
    assert(opens_indented(whole));
    assert(!opens_quoted(whole));
    lemma_expression_dispatch(whole, budget);
    assert(whole.skip(first.len() as int) =~= second);
}

/// Every byte of `s` from `from` up to, not including, `to` is white space.
pub open spec fn spaces(s: Seq<u8>, from: int, to: int) -> bool {
    forall|i: int| from <= i < to ==> is_space(#[trigger] s[i])
}

/// White space before a binding or before the closing brace is skipped:
/// it adds to the bytes consumed and changes nothing else.
pub proof fn lemma_bindings_skip_spaces(s: Seq<u8>, count: nat, budget: nat)
    requires
        count <= s.len(),
        spaces(s, 0, count as int),
    ensures
        bindings_spec(s, budget) == prepended(
            Seq::empty(),
            count as int,
            bindings_spec(s.skip(count as int), budget),
        ),
    decreases count,
{
    let tail = bindings_spec(s.skip(count as int), budget);
    if count == 0 {
        assert(s.skip(0) =~= s);
        match tail {
            Ok((more, n)) => {
                assert(Seq::<Node>::empty() + more =~= more);
            },
            Err(f) => {},
        }
    } else {
        assert(is_space(s[0]));
        assert forall|i: int| 0 <= i < count - 1 implies is_space(#[trigger] s.skip(1)[i]) by {
            assert(s.skip(1)[i] == s[i + 1]);
        }
        lemma_bindings_skip_spaces(s.skip(1), (count - 1) as nat, budget);
        assert(s.skip(1).skip(count - 1) =~= s.skip(count as int));
        match tail {
            Ok((more, n)) => {
                assert(Seq::<Node>::empty() + (Seq::<Node>::empty() + more) =~= Seq::<
                    Node,
                >::empty() + more);
            },
            Err(f) => {},
        }
    }
}

/// A set inside a set parses to a set node inside a set node. Let the
/// buffer hold `{`, then `lead` bytes of white space, then an attribute set
/// that parses to `inner` within `budget` levels, then `trail` bytes of
/// white space, then `}`. Within one level more, the buffer parses to the
/// attribute set whose only binding is `inner`, and the parse ends behind
/// that `}`.
pub proof fn lemma_nested_set(s: Seq<u8>, lead: int, trail: int, budget: nat)
    requires
        opens_set(s),
        0 <= lead,
        0 <= trail,
        1 + lead <= s.len(),
        spaces(s, 1, 1 + lead),
        attr_set_spec(s.skip(1 + lead), budget) is Ok,
        ({
            let n = attr_set_spec(s.skip(1 + lead), budget)->Ok_0.1;
            &&& 1 + lead + n + trail < s.len()
            &&& spaces(s, 1 + lead + n, 1 + lead + n + trail)
            &&& s[1 + lead + n + trail] == CLOSE_BRACE
        }),
    ensures
        attr_set_spec(s, budget + 1) == Ok::<(Node, int), Failure>(
            (
                Node::AttrSet(seq![attr_set_spec(s.skip(1 + lead), budget)->Ok_0.0]),
                attr_set_spec(s.skip(1 + lead), budget)->Ok_0.1 + lead + trail + 2,
            ),
        ),
{
    let body = s.skip(1);
    let set = body.skip(lead);
    assert(set =~= s.skip(1 + lead));
    let inner = attr_set_spec(set, budget)->Ok_0.0;
    let n = attr_set_spec(set, budget)->Ok_0.1;
    lemma_attr_set_bounds(set, budget);
    let tail = set.skip(n);
    let close = tail.skip(trail);

    assert forall|i: int| 0 <= i < lead implies is_space(#[trigger] body[i]) by {
        assert(body[i] == s[i + 1]);
    }
    lemma_bindings_skip_spaces(body, lead as nat, budget);

    assert(opens_set(set));
    lemma_expression_dispatch(set, budget);
    assert(expression_spec(set, budget) == attr_set_spec(set, budget));

    assert forall|i: int| 0 <= i < trail implies is_space(#[trigger] tail[i]) by {
        assert(tail[i] == s[1 + lead + n + i]);
    }
    lemma_bindings_skip_spaces(tail, trail as nat, budget);
    assert(close[0] == s[1 + lead + n + trail]);
    assert(bindings_spec(close, budget) == Ok::<(Seq<Node>, int), Failure>(
        (Seq::empty(), 1),
    ));
    assert(Seq::<Node>::empty() + Seq::<Node>::empty() =~= Seq::<Node>::empty());
    assert(bindings_spec(tail, budget) == Ok::<(Seq<Node>, int), Failure>(
        (Seq::empty(), trail + 1),
    ));
    assert(seq![inner] + Seq::<Node>::empty() =~= seq![inner]);
    assert(bindings_spec(set, budget) == Ok::<(Seq<Node>, int), Failure>(
        (seq![inner], n + trail + 1),
    ));
    assert(Seq::<Node>::empty() + seq![inner] =~= seq![inner]);
    assert(bindings_spec(body, budget) == Ok::<(Seq<Node>, int), Failure>(
        (seq![inner], lead + n + trail + 1),
    ));
}

/// An attribute set that parsed ends with its own closing brace: the parse
/// never succeeds on a prefix that leaves a set open.
pub proof fn lemma_set_is_closed(s: Seq<u8>, budget: nat)
    requires
        attr_set_spec(s, budget) is Ok,
    ensures
        s[0] == OPEN_BRACE,
        2 <= attr_set_spec(s, budget)->Ok_0.1 <= s.len(),
        s[attr_set_spec(s, budget)->Ok_0.1 - 1] == CLOSE_BRACE,
        attr_set_spec(s, budget)->Ok_0.0 is AttrSet,
{
    lemma_attr_set_bounds(s, budget);
    lemma_bindings_end_closed(s.skip(1), (budget - 1) as nat);
}

/// A body that parsed ends with the closing brace of its set.
pub proof fn lemma_bindings_end_closed(s: Seq<u8>, budget: nat)
    requires
        bindings_spec(s, budget) is Ok,
    ensures
        0 < bindings_spec(s, budget)->Ok_0.1 <= s.len(),
        s[bindings_spec(s, budget)->Ok_0.1 - 1] == CLOSE_BRACE,
    decreases s.len(),
{
    lemma_bindings_bounds(s, budget);
    if s.len() == 0 {
    } else if is_space(s[0]) {
        lemma_bindings_end_closed(s.skip(1), budget);
    } else if s[0] == CLOSE_BRACE {
    } else {
        lemma_expression_bounds(s, budget);
        let n = expression_spec(s, budget)->Ok_0.1;
        lemma_bindings_end_closed(s.skip(n), budget);
    }
}

/// One closing brace short. If the whole of `s` is one attribute set, then
/// `{` followed by `s` is a set that is never closed: its parse fails with
/// `UnclosedAttrSet` at the end of the buffer, and not with a success on
/// the inner set.
pub proof fn lemma_one_brace_short(s: Seq<u8>, budget: nat)
    requires
        ends_at(attr_set_spec(s, budget), s.len() as int),
    ensures
        attr_set_spec(seq![OPEN_BRACE] + s, budget + 1) == Err::<(Node, int), Failure>(
            failure(ErrorKind::UnclosedAttrSet, s.len() as int + 1),
        ),
{
    let outer = seq![OPEN_BRACE] + s;
    assert(outer.skip(1) =~= s);
    lemma_attr_set_bounds(s, budget);
    lemma_expression_dispatch(s, budget);
    assert(s.skip(s.len() as int).len() == 0);
}

/// A set left open inside leaves the set around it open. If the parse of
/// `s` as an attribute set fails with `UnclosedAttrSet`, then so does the
/// parse of `{` followed by `s`, at the same place in the text.
pub proof fn lemma_unclosed_outer(s: Seq<u8>, budget: nat)
    requires
        attr_set_spec(s, budget) is Err,
        attr_set_spec(s, budget)->Err_0.kind == ErrorKind::UnclosedAttrSet,
    ensures
        attr_set_spec(seq![OPEN_BRACE] + s, budget + 1) == Err::<(Node, int), Failure>(
            attr_set_spec(s, budget)->Err_0.shifted(1),
        ),
{
    let outer = seq![OPEN_BRACE] + s;
    assert(outer.skip(1) =~= s);
    lemma_attr_set_bounds(s, budget);
    lemma_expression_dispatch(s, budget);
}

/// A `{` with nothing but white space behind it is an unclosed set.
pub proof fn lemma_unclosed_blank(s: Seq<u8>, budget: nat)
    requires
        opens_set(s),
        spaces(s, 1, s.len() as int),
        budget > 0,
    ensures
        attr_set_spec(s, budget) == Err::<(Node, int), Failure>(
            failure(ErrorKind::UnclosedAttrSet, s.len() as int),
        ),
{
    let body = s.skip(1);
    assert forall|i: int| 0 <= i < body.len() implies is_space(#[trigger] body[i]) by {
        assert(body[i] == s[i + 1]);
    }
    lemma_bindings_skip_spaces(body, body.len(), (budget - 1) as nat);
    assert(body.skip(body.len() as int).len() == 0);
}

/// The parse ran into the limit on nesting.
pub open spec fn too_deep<T>(o: Result<T, Failure>) -> bool {
    o matches Err(f) && f.kind == ErrorKind::NestingTooDeep
}

/// The budget decides nothing but whether the limit is hit: a parse that
/// stays within a budget has the same outcome within every larger one.
pub proof fn lemma_expression_budget(s: Seq<u8>, small: nat, large: nat)
    requires
        small <= large,
        !too_deep(expression_spec(s, small)),
    ensures
        expression_spec(s, large) == expression_spec(s, small),
    decreases s.len(), 1int,
{
    lemma_string_bounds(s);
    lemma_indented_string_bounds(s);
    lemma_identifier_bounds(s);
    lemma_attr_set_bounds(s, small);
    lemma_attr_set_bounds(s, large);
    lemma_expression_dispatch(s, small);
    lemma_expression_dispatch(s, large);
    if opens_set(s) {
        lemma_attr_set_budget(s, small, large);
    }
}

/// An attribute set that parses within a budget, or fails for another
/// reason than the limit, has the same outcome within every larger budget.
pub proof fn lemma_attr_set_budget(s: Seq<u8>, small: nat, large: nat)
    requires
        small <= large,
        !too_deep(attr_set_spec(s, small)),
    ensures
        attr_set_spec(s, large) == attr_set_spec(s, small),
    decreases s.len(), 0int,
{
    if opens_set(s) {
        lemma_bindings_budget(s.skip(1), (small - 1) as nat, (large - 1) as nat);
    }
}

/// A body that parses within a budget, or fails for another reason than
/// the limit, has the same outcome within every larger budget.
pub proof fn lemma_bindings_budget(s: Seq<u8>, small: nat, large: nat)
    requires
        small <= large,
        !too_deep(bindings_spec(s, small)),
    ensures
        bindings_spec(s, large) == bindings_spec(s, small),
    decreases s.len(), 2int,
{
    if s.len() == 0 {
    } else if is_space(s[0]) {
        lemma_bindings_budget(s.skip(1), small, large);
    } else if s[0] == CLOSE_BRACE {
    } else {
        lemma_expression_budget(s, small, large);
        lemma_expression_bounds(s, small);
        if let Ok((node, n)) = expression_spec(s, small) {
            lemma_bindings_budget(s.skip(n), small, large);
        }
    }
}

} // verus!
