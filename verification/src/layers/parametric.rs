//! L2 parametric layer: fixed-point parameters.

use vstd::prelude::*;

use crate::codec::lpc::LpcCoefficientsFixed;

verus! {

/// Fixed-point parametric parameters (Q16.16).
#[derive(Debug, Clone)]
pub struct ParametricParamsFixed {
    /// LPC coefficients in Q16.16
    pub lpc: LpcCoefficientsFixed,
    /// Pitch in Q16.16 Hz
    pub pitch_q16: i32,
    /// Is voiced?
    pub voicing: bool,
    /// Frame size
    pub frame_size: usize,
    /// Sample rate
    pub sample_rate: u32,
}

/// Wire size of one parametric frame: a 4-byte header, 4 bytes per LPC
/// coefficient, 4 bytes of gain, 8 of pitch, 8 per formant and 8 of voice
/// activity.
pub open spec fn parametric_frame_bytes(lpc_order: int, formant_count: int) -> int {
    4 + lpc_order * 4 + 4 + 8 + formant_count * 8 + 8
}

/// Estimated encoded size in bytes of a parametric frame with `lpc_order`
/// coefficients and `formant_count` formants.
pub fn parametric_encoded_size(lpc_order: usize, formant_count: usize) -> (bytes: usize)
    requires
        parametric_frame_bytes(lpc_order as int, formant_count as int) <= usize::MAX,
    ensures
        bytes == parametric_frame_bytes(lpc_order as int, formant_count as int),
{
    4 + lpc_order * 4 + 4 + 8 + formant_count * 8 + 8
}

} // verus!
