//! Attribute sets and the expression dispatcher.
//!
//! An attribute set is `{`, any number of bindings, and `}`. Each binding is
//! an expression, so attribute sets nest. Spaces, tabs and line breaks
//! before a binding or before the closing brace are skipped. The depth to
//! which sets may nest is bounded by a budget that every `{` uses up by one.

use crate::error::{failure, ErrorKind, Failure, ParseError};
use crate::identifier::{
    identifier, identifier_spec, lemma_identifier_bounds, lemma_name_text,
};
use crate::literal::{
    indented_string, indented_string_spec, lemma_indented_string_bounds, lemma_string_bounds,
    string, string_spec,
};
use crate::outcome::{yields, Outcome};
use crate::syntax::{
    lemma_attr_set_view, nests_within, nodes_view, well_formed, AttrSet, Node, Type,
};
use vstd::prelude::*;
use vstd::slice::slice_subrange;

verus! {

/// The byte `{`.
pub const OPEN_BRACE: u8 = 0x7b;

/// The byte `}`.
pub const CLOSE_BRACE: u8 = 0x7d;

/// How deeply attribute sets may nest when the caller names no budget.
pub const MAX_NESTING: usize = 64;

/// A space, a tab, a line feed or a carriage return.
pub open spec fn is_space(b: u8) -> bool {
    b == 0x20 || b == 0x09 || b == 0x0a || b == 0x0d
}

/// The buffer begins with `{`.
pub open spec fn opens_set(s: Seq<u8>) -> bool {
    s.len() >= 1 && s[0] == OPEN_BRACE
}

/// The parser declined: the form it looks for does not begin at the first
/// byte of the buffer.
pub open spec fn declined(o: Outcome) -> bool {
    o == Err::<(Node, int), Failure>(failure(ErrorKind::StructuralMismatch, 0))
}

/// Ordered choice: the first outcome unless that parser declined.
pub open spec fn or_else(first: Outcome, second: Outcome) -> Outcome {
    if declined(first) {
        second
    } else {
        first
    }
}

/// The outcome of a run of bindings: the nodes in source order and the
/// number of bytes consumed, closing brace included, or the failure.
pub type Bindings = Result<(Seq<Node>, int), Failure>;

/// The outcome `tail` of scanning the rest of a body, seen from the start
/// of the body: `done` are the bindings before the rest, `used` the bytes
/// before it.
pub open spec fn prepended(done: Seq<Node>, used: int, tail: Bindings) -> Bindings {
    match tail {
        Ok((more, n)) => Ok((done + more, used + n)),
        Err(f) => Err(f.shifted(used)),
    }
}

/// An expression at the start of `s`: a quoted string, else an indented
/// string, else an attribute set, else an identifier. A later form is tried
/// only when every earlier one declined.
pub open spec fn expression_spec(s: Seq<u8>, budget: nat) -> Outcome
    decreases s.len(), 1int,
{
    or_else(
        string_spec(s),
        or_else(
            indented_string_spec(s),
            or_else(attr_set_spec(s, budget), identifier_spec(s)),
        ),
    )
}

/// An attribute set at the start of `s`, with `budget` levels of nesting
/// left, this one included.
pub open spec fn attr_set_spec(s: Seq<u8>, budget: nat) -> Outcome
    decreases s.len(), 0int,
{
    if !opens_set(s) {
        Err(failure(ErrorKind::StructuralMismatch, 0))
    } else if budget == 0 {
        Err(failure(ErrorKind::NestingTooDeep, 0))
    } else {
        match bindings_spec(s.skip(1), (budget - 1) as nat) {
            Ok((nodes, n)) => Ok((Node::AttrSet(nodes), n + 1)),
            Err(f) => Err(f.shifted(1)),
        }
    }
}

/// The body of an attribute set from `s` on, up to and including the
/// closing brace. `budget` is what is left for each binding.
pub open spec fn bindings_spec(s: Seq<u8>, budget: nat) -> Bindings
    decreases s.len(), 2int,
{
    if s.len() == 0 {
        Err(failure(ErrorKind::UnclosedAttrSet, 0))
    } else if is_space(s[0]) {
        prepended(Seq::empty(), 1, bindings_spec(s.skip(1), budget))
    } else if s[0] == CLOSE_BRACE {
        Ok((Seq::empty(), 1))
    } else {
        match expression_spec(s, budget) {
            Err(f) => Err(f),
            Ok((node, n)) => {
                // An expression always consumes at least one byte; the test
                // only makes that plain where the rest of the body is read.
                if 0 < n <= s.len() {
                    prepended(seq![node], n, bindings_spec(s.skip(n), budget))
                } else {
                    Err(failure(ErrorKind::StructuralMismatch, 0))
                }
            },
        }
    }
}

/// An expression that succeeds consumes at least one byte and never more
/// than the buffer; a failure lies inside the buffer.
pub proof fn lemma_expression_bounds(s: Seq<u8>, budget: nat)
    ensures
        match expression_spec(s, budget) {
            Ok((node, used)) => 0 < used <= s.len(),
            Err(f) => 0 <= f.offset <= s.len(),
        },
    decreases s.len(), 1int,
{
    lemma_string_bounds(s);
    lemma_indented_string_bounds(s);
    lemma_attr_set_bounds(s, budget);
    lemma_identifier_bounds(s);
}

/// An attribute set that succeeds consumes at least its two braces and
/// never more than the buffer; a failure lies inside the buffer.
pub proof fn lemma_attr_set_bounds(s: Seq<u8>, budget: nat)
    ensures
        match attr_set_spec(s, budget) {
            Ok((node, used)) => 2 <= used <= s.len() && node is AttrSet,
            Err(f) => 0 <= f.offset <= s.len(),
        },
    decreases s.len(), 0int,
{
    if opens_set(s) && budget > 0 {
        lemma_bindings_bounds(s.skip(1), (budget - 1) as nat);
    }
}

/// A body that succeeds consumes at least its closing brace and never more
/// than the buffer; a failure lies inside the buffer.
pub proof fn lemma_bindings_bounds(s: Seq<u8>, budget: nat)
    ensures
        match bindings_spec(s, budget) {
            Ok((nodes, used)) => 0 < used <= s.len(),
            Err(f) => 0 <= f.offset <= s.len(),
        },
    decreases s.len(), 2int,
{
    if s.len() == 0 {
    } else if is_space(s[0]) {
        lemma_bindings_bounds(s.skip(1), budget);
    } else if s[0] == CLOSE_BRACE {
    } else {
        lemma_expression_bounds(s, budget);
        if let Ok((node, n)) = expression_spec(s, budget) {
            lemma_bindings_bounds(s.skip(n), budget);
        }
    }
}

/// Every node that the expression parser builds keeps the invariant of
/// syntax nodes, and its attribute sets nest no deeper than the budget.
pub proof fn lemma_expression_well_formed(s: Seq<u8>, budget: nat)
    ensures
        expression_spec(s, budget) matches Ok((node, _)) ==> well_formed(node) && nests_within(
            node,
            budget,
        ),
    decreases s.len(), 1int,
{
    lemma_string_bounds(s);
    lemma_indented_string_bounds(s);
    lemma_identifier_bounds(s);
    lemma_attr_set_well_formed(s, budget);
    if let Ok((node, used)) = identifier_spec(s) {
        lemma_name_text(s.take(used));
    }
}

/// Every node that the attribute set parser builds keeps the invariant of
/// syntax nodes, and its attribute sets, the outermost included, nest no
/// deeper than the budget.
pub proof fn lemma_attr_set_well_formed(s: Seq<u8>, budget: nat)
    ensures
        attr_set_spec(s, budget) matches Ok((node, _)) ==> well_formed(node) && nests_within(
            node,
            budget,
        ),
    decreases s.len(), 0int,
{
    if opens_set(s) && budget > 0 {
        lemma_bindings_well_formed(s.skip(1), (budget - 1) as nat);
    }
}

/// Every binding of a body keeps the invariant of syntax nodes and nests
/// no deeper than the budget of the body.
pub proof fn lemma_bindings_well_formed(s: Seq<u8>, budget: nat)
    ensures
        bindings_spec(s, budget) matches Ok((nodes, _)) ==> forall|i: int|
            0 <= i < nodes.len() ==> well_formed(#[trigger] nodes[i]) && nests_within(
                nodes[i],
                budget,
            ),
    decreases s.len(), 2int,
{
    if s.len() == 0 {
    } else if is_space(s[0]) {
        lemma_bindings_well_formed(s.skip(1), budget);
        if let Ok((more, n)) = bindings_spec(s.skip(1), budget) {
            assert(Seq::<Node>::empty() + more =~= more);
        }
    } else if s[0] == CLOSE_BRACE {
    } else {
        lemma_expression_well_formed(s, budget);
        lemma_expression_bounds(s, budget);
        if let Ok((node, n)) = expression_spec(s, budget) {
            lemma_bindings_well_formed(s.skip(n), budget);
            if let Ok((more, m)) = bindings_spec(s.skip(n), budget) {
                let nodes = seq![node] + more;
                assert forall|i: int| 0 <= i < nodes.len() implies well_formed(
                    #[trigger] nodes[i],
                ) && nests_within(nodes[i], budget) by {
                    if i > 0 {
                        assert(nodes[i] == more[i - 1]);
                    }
                }
            }
        }
    }
}

/// Is `b` a space, a tab, a line feed or a carriage return?
pub fn space(b: u8) -> (r: bool)
    ensures
        r == is_space(b),
{
    b == 0x20 || b == 0x09 || b == 0x0a || b == 0x0d
}

/// Did the parser decline, that is, fail with a mismatch at the first byte?
fn has_declined(r: &Result<(&[u8], Type), ParseError>) -> (b: bool)
    ensures
        b == (r matches Err(e) && e@ == failure(ErrorKind::StructuralMismatch, 0)),
{
    match r {
        Err(e) => e.kind() == ErrorKind::StructuralMismatch && e.offset() == 0,
        Ok(_) => false,
    }
}

/// Parses an expression at the start of `input`. Attribute sets in it may
/// nest `budget` levels deep.
pub fn expression_within<'a>(input: &'a [u8], budget: usize) -> (r: Result<
    (&'a [u8], Type),
    ParseError,
>)
    ensures
        yields(input@, r, expression_spec(input@, budget as nat)),
        r matches Ok((_, node)) ==> well_formed(node@) && nests_within(node@, budget as nat),
    decreases input@.len(), 1int,
{
    proof {
        lemma_expression_well_formed(input@, budget as nat);
    }
    let quoted = string(input);
    if !has_declined(&quoted) {
        return quoted;
    }
    let indented = indented_string(input);
    if !has_declined(&indented) {
        return indented;
    }
    let set = attr_set_within(input, budget);
    if !has_declined(&set) {
        return set;
    }
    identifier(input)
}

/// Parses an attribute set at the start of `input`. Counting this set, sets
/// may nest `budget` levels deep; a `{` beyond that fails with
/// `NestingTooDeep`.
pub fn attr_set_within<'a>(input: &'a [u8], budget: usize) -> (r: Result<
    (&'a [u8], Type),
    ParseError,
>)
    ensures
        yields(input@, r, attr_set_spec(input@, budget as nat)),
        r matches Ok((_, node)) ==> well_formed(node@) && nests_within(node@, budget as nat),
    decreases input@.len(), 0int,
{
    if input.len() < 1 || input[0] != OPEN_BRACE {
        return Err(ParseError::new(ErrorKind::StructuralMismatch, 0));
    }
    if budget == 0 {
        return Err(ParseError::new(ErrorKind::NestingTooDeep, 0));
    }
    let ghost body = input@.skip(1);
    let ghost inner = (budget - 1) as nat;
    let mut rest: &[u8] = slice_subrange(input, 1, input.len());
    let mut nodes: Vec<Type> = Vec::new();
    assert(rest@ =~= body.skip(0));
    assert(nodes_view(nodes@) =~= Seq::<Node>::empty());
    assert(bindings_spec(body, inner) == prepended(
        nodes_view(nodes@),
        0,
        bindings_spec(rest@, inner),
    )) by {
        assert(rest@ =~= body);
        match bindings_spec(body, inner) {
            Ok((more, n)) => {
                assert(Seq::<Node>::empty() + more =~= more);
            },
            Err(f) => {},
        }
    }
    loop
        invariant
            1 <= budget,
            inner == budget - 1,
            opens_set(input@),
            body == input@.skip(1),
            rest@.len() <= body.len(),
            rest@ == body.skip(body.len() - rest@.len()),
            bindings_spec(body, inner) == prepended(
                nodes_view(nodes@),
                body.len() - rest@.len(),
                bindings_spec(rest@, inner),
            ),
        decreases rest@.len(),
    {
        let used: usize = input.len() - rest.len();
        let ghost before = rest@;
        let ghost done = nodes_view(nodes@);
        if rest.len() == 0 {
            return Err(ParseError::new(ErrorKind::UnclosedAttrSet, used));
        }
        let b = rest[0];
        if space(b) {
            rest = slice_subrange(rest, 1, rest.len());
            proof {
                assert(rest@ =~= before.skip(1));
                assert(rest@ =~= body.skip(body.len() - rest@.len()));
                match bindings_spec(rest@, inner) {
                    Ok((more, n)) => {
                        assert(done + (Seq::<Node>::empty() + more) =~= done + more);
                    },
                    Err(f) => {},
                }
            }
        } else if b == CLOSE_BRACE {
            let after = slice_subrange(rest, 1, rest.len());
            let set = AttrSet(nodes);
            proof {
                lemma_attr_set_view(set);
                lemma_attr_set_well_formed(input@, budget as nat);
                assert(done + Seq::<Node>::empty() =~= done);
                assert(after@ =~= input@.skip(input@.len() - after@.len()));
            }
            return Ok((after, Type::AttrSet(set)));
        } else {
            proof {
                lemma_expression_bounds(before, inner);
            }
            match expression_within(rest, budget - 1) {
                Err(e) => {
                    return Err(ParseError::new(e.kind(), e.offset() + used));
                },
                Ok((after, node)) => {
                    let ghost n = before.len() - after@.len();
                    nodes.push(node);
                    rest = after;
                    proof {
                        assert(nodes_view(nodes@) =~= done.push(node@));
                        assert(rest@ =~= body.skip(body.len() - rest@.len()));
                        match bindings_spec(rest@, inner) {
                            Ok((more, m)) => {
                                assert(done + (seq![node@] + more) =~= done.push(node@) + more);
                            },
                            Err(f) => {},
                        }
                    }
                },
            }
        }
    }
}

/// Parses an expression at the start of `input`, with attribute sets nested
/// at most `MAX_NESTING` levels deep.
pub fn expression<'a>(input: &'a [u8]) -> (r: Result<(&'a [u8], Type), ParseError>)
    ensures
        yields(input@, r, expression_spec(input@, MAX_NESTING as nat)),
        r matches Ok((_, node)) ==> well_formed(node@) && nests_within(node@, MAX_NESTING as nat),
{
    expression_within(input, MAX_NESTING)
}

/// Parses an attribute set at the start of `input`, with attribute sets
/// nested at most `MAX_NESTING` levels deep, this one included.
pub fn attr_set<'a>(input: &'a [u8]) -> (r: Result<(&'a [u8], Type), ParseError>)
    ensures
        yields(input@, r, attr_set_spec(input@, MAX_NESTING as nat)),
        r matches Ok((_, node)) ==> well_formed(node@) && nests_within(node@, MAX_NESTING as nat),
{
    attr_set_within(input, MAX_NESTING)
}

} // verus!
