//! Codec configuration.

use vstd::prelude::*;

use crate::types::{quality_lpc_order, quality_sample_rate, VoiceQuality};

verus! {

/// Voice codec configuration.
#[derive(Debug, Clone)]
pub struct VoiceCodecConfig {
    /// Sample rate in Hz
    pub sample_rate: u32,
    /// Frame size in samples
    pub frame_size: usize,
    /// Hop size (frame overlap)
    pub hop_size: usize,
    /// LPC order for parametric layer
    pub lpc_order: usize,
    /// Quality level
    pub quality: VoiceQuality,
}

/// Number of samples in 64 ms at the given sample rate.
pub open spec fn frame_samples_64ms(sample_rate: u32) -> usize {
    (sample_rate * 64 / 1000) as usize
}

/// The configuration recommended for a quality level: its sample rate and LPC
/// order, 64 ms frames and a hop of half a frame.
pub open spec fn config_for_quality(quality: VoiceQuality) -> VoiceCodecConfig {
    VoiceCodecConfig {
        sample_rate: quality_sample_rate(quality),
        frame_size: frame_samples_64ms(quality_sample_rate(quality)),
        hop_size: (frame_samples_64ms(quality_sample_rate(quality)) / 2) as usize,
        lpc_order: quality_lpc_order(quality),
        quality,
    }
}

impl Default for VoiceCodecConfig {
    fn default() -> (c: VoiceCodecConfig)
        ensures
            c.sample_rate == 16000,
            c.frame_size == 1024,
            c.hop_size == 512,
            c.lpc_order == 10,
            c.quality == VoiceQuality::Medium,
    {
        VoiceCodecConfig {
            sample_rate: 16000,
            // 64ms frames (the pitch detector needs 2 * max_period)
            frame_size: 1024,
            hop_size: 512,
            lpc_order: 10,
            quality: VoiceQuality::Medium,
        }
    }
}

impl VoiceCodecConfig {
    /// Create the configuration for a quality level.
    pub fn for_quality(quality: VoiceQuality) -> (c: VoiceCodecConfig)
        ensures
            c == config_for_quality(quality),
    {
        let sample_rate = quality.sample_rate();
        let lpc_order = quality.lpc_order();
        // 64ms frames to satisfy the pitch detector (needs 2 * sample_rate / min_f0)
        let frame_size: usize = (sample_rate as usize) * 64 / 1000;
        let hop_size: usize = frame_size / 2;
        VoiceCodecConfig { sample_rate, frame_size, hop_size, lpc_order, quality }
    }

    /// Configuration for narrowband (8kHz).
    pub fn narrowband() -> (c: VoiceCodecConfig)
        ensures
            c == config_for_quality(VoiceQuality::Low),
    {
        Self::for_quality(VoiceQuality::Low)
    }

    /// Configuration for wideband (16kHz).
    pub fn wideband() -> (c: VoiceCodecConfig)
        ensures
            c == config_for_quality(VoiceQuality::Medium),
    {
        Self::for_quality(VoiceQuality::Medium)
    }

    /// Configuration for super-wideband (32kHz).
    pub fn super_wideband() -> (c: VoiceCodecConfig)
        ensures
            c == config_for_quality(VoiceQuality::High),
    {
        Self::for_quality(VoiceQuality::High)
    }

    /// Configuration for fullband (48kHz).
    pub fn fullband() -> (c: VoiceCodecConfig)
        ensures
            c == config_for_quality(VoiceQuality::Ultra),
    {
        Self::for_quality(VoiceQuality::Ultra)
    }
}

/// For every quality level the recommended configuration uses the level's
/// sample rate and LPC order, its hop is exactly half its frame, its frame
/// holds at least two periods of the lowest detectable pitch (50 Hz) and at
/// least twice the LPC order, as the pitch detector and the LPC analyzer need.
pub proof fn law_quality_config_frames(quality: VoiceQuality)
    ensures
        config_for_quality(quality).sample_rate == quality_sample_rate(quality),
        config_for_quality(quality).lpc_order == quality_lpc_order(quality),
        config_for_quality(quality).hop_size * 2 == config_for_quality(quality).frame_size,
        config_for_quality(quality).frame_size >= 2 * (quality_sample_rate(quality) / 50),
        config_for_quality(quality).frame_size >= 2 * quality_lpc_order(quality),
{
}

/// Samples in `duration_ms` milliseconds at `sample_rate`, rounded down.
pub fn samples_for_duration(sample_rate: u32, duration_ms: u32) -> (n: u64)
    ensures
        n == sample_rate as int * duration_ms as int / 1000,
{
    assert(sample_rate as int * duration_ms as int <= u64::MAX) by (nonlinear_arith)
        requires
            sample_rate <= u32::MAX,
            duration_ms <= u32::MAX,
    ;
    (sample_rate as u64) * (duration_ms as u64) / 1000
}

/// Whole milliseconds that `num_samples` samples last at `sample_rate`; a
/// sample rate of 0 counts as 1.
pub fn duration_ms_for_samples(num_samples: u32, sample_rate: u32) -> (ms: u32)
    requires
        num_samples as int * 1000 <= u32::MAX,
    ensures
        ms == num_samples as int * 1000 / (if sample_rate == 0 { 1 } else { sample_rate as int }),
{
    let rate: u32 = if sample_rate == 0 {
        1
    } else {
        sample_rate
    };
    num_samples * 1000 / rate
}

} // verus!
