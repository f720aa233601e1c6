//! What a parser returns, in the mathematical model and in code.

use crate::error::{Failure, ParseError};
use crate::syntax::{Node, Type};
use vstd::prelude::*;

verus! {

/// The result of a parser in the model: the node and the number of bytes
/// consumed from the start of the buffer, or the failure.
pub type Outcome = Result<(Node, int), Failure>;

/// The outcome is a success that consumes exactly `used` bytes.
pub open spec fn ends_at(o: Outcome, used: int) -> bool {
    o matches Ok((_, n)) && n == used
}

/// The result `r` of parsing `input` is the modelled outcome `expected`:
/// on success the node has the modelled value and the returned slice is what
/// is left of `input` after the consumed bytes; on failure the kind and the
/// offset are the modelled ones.
pub open spec fn yields(
    input: Seq<u8>,
    r: Result<(&[u8], Type), ParseError>,
    expected: Outcome,
) -> bool {
    match r {
        Ok((rest, node)) => {
            &&& rest@.len() <= input.len()
            &&& rest@ == input.skip(input.len() - rest@.len())
            &&& expected == Ok::<(Node, int), Failure>((node@, input.len() - rest@.len()))
        },
        Err(e) => expected == Err::<(Node, int), Failure>(e@),
    }
}

} // verus!
