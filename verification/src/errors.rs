//! Error taxonomy: parse failures carry the offending (1-based) line
//! number; evaluation failures name the broken precondition.

use vstd::prelude::*;

verus! {

/// A circuit description could not be parsed. `line` is the 1-based number
/// of the first offending line: an unknown instruction keyword, a missing
/// operand, a wire index that is not a decimal number, or a reference to a
/// wire that has not been declared yet.
#[derive(Clone, Debug, PartialEq, Eq, Structural)]
pub struct ParseError {
    pub line: usize,
}

/// An evaluation call was rejected before any work was done.
#[derive(Clone, Debug, PartialEq, Eq, Structural)]
pub enum EvalError {
    /// An input vector's length disagrees with its group's input-wire count.
    ShapeMismatch,
    /// The circuit breaks the well-formedness invariant (a cycle, a wire
    /// written twice, or a read of a wire nothing produces).
    InvariantViolation,
    /// The requested worker count is zero.
    ConfigError,
}

} // verus!
