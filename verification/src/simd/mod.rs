//! Q16.16 vector kernels.
//!
//! The kernels are written as portable scalar loops; this crate ships no
//! target-specific SIMD code.

pub mod scalar;

pub use scalar::{
    fast_isqrt_32, fast_isqrt_64, q16_cosine_similarity_neon, q16_dot_product_neon,
    q16_lpc_filter_neon, q16_mac, q16_mul, q16_mul_4x_neon,
};

use vstd::prelude::*;

verus! {

/// Whether the kernels of this crate run NEON instructions: they never do,
/// as all kernels here are portable scalar loops.
pub fn has_neon() -> (r: bool)
    ensures
        !r,
{
    false
}

} // verus!
