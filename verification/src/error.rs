//! The ways in which an estimate can fail.

use vstd::prelude::*;

verus! {

/// Why no survival table was produced.
#[derive(Debug, Clone, Copy, PartialEq, Eq, Structural)]
pub enum SurvError {
    /// Two sequences that must run in parallel differ in length.
    LengthMismatch,
    /// The observation at `index` does not satisfy
    /// `entry_time <= exit_l <= exit_r`.
    InvalidObservation { index: usize },
    /// The weights add up to more than `MAX_TOTAL_WEIGHT`.
    WeightTooLarge,
    /// No observation carries any weight.
    ZeroWeight,
    /// The observation at `index` has no mass on any grid point that its
    /// interval admits.
    DegenerateRow { index: usize },
    /// The iteration did not come within the tolerance in `MAX_ITERATIONS`
    /// steps.
    NotConverged,
    /// A density adds up to more than `ONE`.
    ExcessMass,
}

} // verus!
