//! The syntax tree that the parsers build.

use vstd::prelude::*;

verus! {

broadcast use vstd::std_specs::vec::axiom_vec_index_decreases;

/// A syntax node in the mathematical model: text as a sequence of
/// characters, the bindings of an attribute set as a sequence of nodes in
/// source order.
pub enum Node {
    String(Seq<char>),
    IndentedString(Seq<char>),
    Identifier(Seq<char>),
    AttrSet(Seq<Node>),
}

/// A syntax node. It owns its text and its children; nothing in it refers
/// to the buffer it was parsed from.
#[derive(Debug, PartialEq)]
pub enum Type {
    /// A double-quoted literal: the text between the quotes.
    String(String),
    /// A `''`-delimited literal: the text between the delimiters, as written.
    IndentedString(String),
    /// A bare name.
    Identifier(String),
    /// An attribute set.
    AttrSet(AttrSet),
}

/// The bindings of an attribute set, in source order.
#[derive(Debug, PartialEq)]
pub struct AttrSet(pub Vec<Type>);

/// A letter of the ASCII alphabet or `_`.
pub open spec fn is_name_start_char(c: char) -> bool {
    ||| 'A' <= c <= 'Z'
    ||| 'a' <= c <= 'z'
    ||| c == '_'
}

/// A letter of the ASCII alphabet, a digit, `_` or `-`.
pub open spec fn is_name_char(c: char) -> bool {
    ||| is_name_start_char(c)
    ||| '0' <= c <= '9'
    ||| c == '-'
}

/// The text is an identifier: it is not empty, begins with a letter or `_`
/// and goes on with letters, digits, `_` and `-`.
pub open spec fn is_name_text(name: Seq<char>) -> bool {
    &&& name.len() >= 1
    &&& is_name_start_char(name[0])
    &&& forall|i: int| 1 <= i < name.len() ==> is_name_char(#[trigger] name[i])
}

/// The invariant of a syntax node: every identifier in it is a name.
pub open spec fn well_formed(node: Node) -> bool
    decreases node,
{
    match node {
        Node::Identifier(name) => is_name_text(name),
        Node::AttrSet(bindings) => forall|i: int|
            0 <= i < bindings.len() ==> well_formed(#[trigger] bindings[i]),
        _ => true,
    }
}

/// Attribute sets in the node nest at most `levels` deep.
pub open spec fn nests_within(node: Node, levels: nat) -> bool
    decreases levels,
{
    match node {
        Node::AttrSet(bindings) => levels > 0 && forall|i: int|
            0 <= i < bindings.len() ==> nests_within(#[trigger] bindings[i], (levels - 1) as nat),
        _ => true,
    }
}

/// The models of a sequence of nodes, in the same order.
pub open spec fn nodes_view(nodes: Seq<Type>) -> Seq<Node> {
    nodes.map_values(|t: Type| t@)
}

impl View for Type {
    type V = Node;

    open spec fn view(&self) -> Node
        decreases self,
    {
        match self {
            Type::String(text) => Node::String(text@),
            Type::IndentedString(text) => Node::IndentedString(text@),
            Type::Identifier(name) => Node::Identifier(name@),
            Type::AttrSet(set) => Node::AttrSet(
                Seq::new(
                    set.0.len() as nat,
                    |i: int|
                        if 0 <= i < set.0.len() {
                            set.0[i]@
                        } else {
                            Node::AttrSet(Seq::empty())
                        },
                ),
            ),
        }
    }
}

/// The model of an attribute set node is the sequence of the models of
/// its bindings.
pub proof fn lemma_attr_set_view(set: AttrSet)
    ensures
        Type::AttrSet(set)@ == Node::AttrSet(nodes_view(set.0@)),
{
    assert(Type::AttrSet(set)@->AttrSet_0 =~= nodes_view(set.0@));
}

impl View for AttrSet {
    type V = Seq<Node>;

    open spec fn view(&self) -> Seq<Node> {
        nodes_view(self.0@)
    }
}

} // verus!
