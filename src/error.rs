use vstd::prelude::*;

verus! {

/// Failures that the library reports to its callers.
#[derive(Debug, Clone, Copy, PartialEq, Eq, Structural)]
pub enum AlgoError {
    /// An argument was outside the range that the operation accepts.
    IllegalArgument,
    /// A site was to be opened at random when none was left blocked.
    NoBlockedSites,
    /// A grid was not square, was smaller than two by two, or did not hold
    /// each label of `0..n*n` exactly once.
    InvalidBoard,
}

} // verus!
