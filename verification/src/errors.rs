use vstd::prelude::*;

verus! {

/// Errors reported by the solver's core operations.
///
/// Every error is detected at the boundary of an operation and returned
/// synchronously; the computations themselves are pure, so no retry or
/// partial-result recovery is offered.
#[derive(Clone, Copy, PartialEq, Eq, Structural, Debug)]
pub enum SolverError {
    /// A word does not consist of exactly five lowercase ASCII letters.
    LengthMismatch,
    /// Scoring was requested against an empty candidate pool.
    EmptyCandidatePool,
    /// The shortlist size was zero where a positive bound is required.
    InvalidDepthOrK,
}

} // verus!
