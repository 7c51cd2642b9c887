//! Pitch detection: algorithm selection.

use vstd::prelude::*;

verus! {

/// Pitch detection algorithm.
#[derive(Debug, Clone, Copy, PartialEq, Eq, Structural)]
pub enum PitchAlgorithm {
    /// Autocorrelation-based
    Autocorrelation,
    /// YIN algorithm (more robust)
    Yin,
    /// Average Magnitude Difference Function
    Amdf,
}

impl Default for PitchAlgorithm {
    fn default() -> (a: PitchAlgorithm)
        ensures
            a == PitchAlgorithm::Autocorrelation,
    {
        PitchAlgorithm::Autocorrelation
    }
}

} // verus!
