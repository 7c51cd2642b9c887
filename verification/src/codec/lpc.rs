//! Linear Predictive Coding: Q16.16 coefficient container and the
//! fixed-point analysis and synthesis routines.

pub mod lpc_fixed;

use vstd::prelude::*;

verus! {

/// LPC coefficients in Q16.16 fixed-point.
#[derive(Debug, Clone)]
pub struct LpcCoefficientsFixed {
    /// LPC coefficients in Q16.16
    pub coeffs: Vec<i32>,
    /// Gain in Q16.16
    pub gain: i32,
}

} // verus!
