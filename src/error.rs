use vstd::prelude::*;

verus! {

/// The ways in which the analysis refuses its input.
#[derive(Debug, Clone, Copy, PartialEq, Eq, Structural)]
pub enum AnalysisError {
    /// A record and a mask differ in length.
    InvalidWidth,
    /// A Space-Saving summary was asked to track no keys at all.
    InvalidCapacity,
    /// A frequency table states two different population totals, or a count
    /// larger than its population.
    InconsistentPopulationTotal,
}

} // verus!
