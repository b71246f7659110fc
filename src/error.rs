use vstd::prelude::*;

verus! {

/// Why an input could not be solved.
#[derive(Debug, Clone, Copy, PartialEq, Eq, Structural)]
pub enum InputError {
    /// The line with this (zero-based) index is malformed.
    Malformed { line: usize },
    /// The column with this (zero-based) index cannot be read.
    BadColumn { column: usize },
    /// A part of the input that is needed is absent.
    Missing,
    /// A number or a result does not fit in the integer type that holds it.
    Overflow,
    /// The input admits no answer.
    NoSolution,
}

} // verus!
