use vstd::prelude::*;

verus! {

/// Errors reported by the library. The residual of a solve that did not
/// converge is carried as the raw bit pattern of its IEEE-754 value.
#[derive(Clone, Debug, PartialEq, Eq)]
pub enum HybitError {
    InvalidMatrix(&'static str),
    InvalidArgument(&'static str),
    DimensionMismatch { expected: usize, actual: usize },
    MissingDiagonal { row: usize },
    ZeroDiagonal { row: usize },
    SizeOverflow,
    NumericalBreakdown(&'static str),
    NotConverged { iterations: usize, residual_bits: u64 },
}

} // verus!
