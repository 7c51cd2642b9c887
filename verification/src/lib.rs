//! Voice-specialized parametric codec: the integer core.
//!
//! The crate holds the Q16.16 fixed-point LPC analysis and synthesis, the
//! integer square roots and vector kernels, the frame header and wire codes,
//! the codec configuration, quality and emotion names, and the integer
//! pipeline that compresses LPC sequences with the `alice_codec` wavelet and
//! quantizer, each with its contract.

pub mod api;
pub mod codec;
pub mod codec_bridge;
pub mod isqrt;
pub mod layers;
pub mod naming;
pub mod simd;
pub mod types;

pub use api::VoiceCodecConfig;
pub use codec::lpc::LpcCoefficientsFixed;
pub use codec::pitch::PitchAlgorithm;
pub use layers::parametric::ParametricParamsFixed;
pub use types::{
    EmotionType, VoiceError, VoiceFrameHeader, VoiceLayerType, VoicePacketType, VoiceQuality,
    VoiceResult, EMBEDDING_DIM, Q16_ONE, Q16_SHIFT,
};

use vstd::prelude::*;

verus! {

/// Magic bytes of voice packets ("AVO1").
pub const VOICE_MAGIC: [u8; 4] = [0x41, 0x56, 0x4F, 0x31];

/// Protocol version.
pub const VOICE_VERSION: u8 = 1;

} // verus!
