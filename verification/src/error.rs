//! The failures a solve can report.

use vstd::prelude::*;

verus! {

#[derive(Debug, Clone, Copy, PartialEq, Eq, Structural)]
pub enum ProblemError {
    /// A cell's domain became empty: the constraints admit no solution
    /// along the chosen path.
    Unsatisfiable,
    /// A supplied grid's dimensions disagree with the compiled description's.
    Dimensions,
}

impl ProblemError {
    /// A human-readable account of the failure.
    pub fn describe(&self) -> (r: &'static str)
        ensures
            *self is Unsatisfiable ==> r@ == "Cannot satisfy problem description"@,
            *self is Dimensions ==> r@ == "Invalid dimensions occured"@,
    {
        match self {
            ProblemError::Unsatisfiable => "Cannot satisfy problem description",
            ProblemError::Dimensions => "Invalid dimensions occured",
        }
    }
}

} // verus!
