//! A parser for the primitive forms of a Nix-style expression language:
//! quoted strings, indented strings, identifiers and attribute sets.
//!
//! Every parser is a pure function from a byte buffer to either the
//! unconsumed remainder of the buffer together with a syntax node, or a
//! [`ParseError`] that names the kind of failure and the byte offset at
//! which it was detected. Each parser has a model, a mathematical function
//! over sequences of bytes, and is proved to return what its model says.
//! The module `laws` holds what is proved of the models themselves.

pub mod error;
pub mod expression;
pub mod identifier;
pub mod laws;
pub mod literal;
pub mod outcome;
pub mod scanner;
pub mod syntax;
pub mod text;

pub use error::{ErrorKind, Failure, ParseError};
pub use expression::{attr_set, attr_set_within, expression, expression_within, MAX_NESTING};
pub use identifier::{identifier, identifier_from_match, IDENTIFIER_PATTERN};
pub use literal::{indented_string, string};
pub use scanner::{is_not_indented_string_delim, is_not_string_delim};
pub use syntax::{AttrSet, Node, Type};
