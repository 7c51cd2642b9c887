//! L1 spectral layer: the quantizer quality of each level and the wire size
//! of its sparse coefficients.

use crate::types::VoiceQuality;
use vstd::prelude::*;

verus! {

/// Wire size of a spectral frame: a 4-byte header and, per kept
/// coefficient, a 2-byte index and a 4-byte value.
pub open spec fn spectral_frame_bytes(coefficient_count: int) -> int {
    4 + coefficient_count * 6
}

/// Estimated encoded size in bytes of a spectral frame that keeps
/// `coefficient_count` coefficients.
pub fn spectral_encoded_size(coefficient_count: usize) -> (bytes: usize)
    requires
        spectral_frame_bytes(coefficient_count as int) <= usize::MAX,
    ensures
        bytes == spectral_frame_bytes(coefficient_count as int),
{
    4 + coefficient_count * 6
}

/// Quantizer quality (1-100) that the spectral layer uses for a level.
pub open spec fn spectral_quality(q: VoiceQuality) -> u8 {
    match q {
        VoiceQuality::Low => 25,
        VoiceQuality::Medium => 50,
        VoiceQuality::High => 75,
        VoiceQuality::Ultra => 95,
    }
}

/// Quantizer quality (1-100) of the spectral layer at a quality level.
pub fn spectral_quality_factor(quality: VoiceQuality) -> (q: u8)
    ensures
        q == spectral_quality(quality),
        1 <= q <= 100,
{
    match quality {
        VoiceQuality::Low => 25,
        VoiceQuality::Medium => 50,
        VoiceQuality::High => 75,
        VoiceQuality::Ultra => 95,
    }
}

} // verus!
