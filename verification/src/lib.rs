//! A boolean logic circuit library: a directed acyclic graph of NOT/AND/XOR
//! gates over indexed wires, evaluated against two named input groups.
//!
//! The circuit can be evaluated over plain booleans (the reference
//! evaluator) or over an opaque encrypted boolean type that supports the
//! same three operators.

pub mod circuit;
pub mod errors;
pub mod eval;
pub mod parse;
pub mod fhe;
pub mod schedule;
pub mod validate;
