use alice_voice::types::{
    fnv1a_hash, int_to_q16, q16_div, q16_mul, q16_to_int, EmotionType, VoiceFrameHeader, VoiceLayerType,
    VoicePacketType, VoiceQuality,
};
use alice_voice::VOICE_MAGIC;

fn f32_to_q16(f: f32) -> i32 {
    (f * 65536.0) as i32
}

fn q16_to_f32(q: i32) -> f32 {
    q as f32 / 65536.0
}

#[test]
fn test_voice_quality() {
    assert_eq!(VoiceQuality::Low.sample_rate(), 8000);
    assert_eq!(VoiceQuality::Medium.lpc_order(), 10);
}

#[test]
fn voice_layer_type_try_from_valid() {
    assert_eq!(VoiceLayerType::try_from(0x01).unwrap(), VoiceLayerType::Spectral);
    assert_eq!(VoiceLayerType::try_from(0x02).unwrap(), VoiceLayerType::Parametric);
    assert_eq!(VoiceLayerType::try_from(0x03).unwrap(), VoiceLayerType::Semantic);
}

#[test]
fn voice_layer_type_try_from_invalid() {
    assert!(VoiceLayerType::try_from(0xFF).is_err());
    assert!(VoiceLayerType::try_from(0x00).is_err());
}

#[test]
fn emotion_type_try_from_all_valid() {
    assert_eq!(EmotionType::try_from(0).unwrap(), EmotionType::Neutral);
    assert_eq!(EmotionType::try_from(1).unwrap(), EmotionType::Happy);
    assert_eq!(EmotionType::try_from(2).unwrap(), EmotionType::Sad);
    assert_eq!(EmotionType::try_from(3).unwrap(), EmotionType::Angry);
    assert_eq!(EmotionType::try_from(4).unwrap(), EmotionType::Fearful);
    assert_eq!(EmotionType::try_from(5).unwrap(), EmotionType::Surprised);
    assert_eq!(EmotionType::try_from(6).unwrap(), EmotionType::Disgusted);
    assert_eq!(EmotionType::try_from(7).unwrap(), EmotionType::Contempt);
}

#[test]
fn emotion_type_try_from_invalid() {
    assert!(EmotionType::try_from(0x08).is_err());
    assert!(EmotionType::try_from(0xFF).is_err());
}

#[test]
fn voice_packet_type_try_from_valid() {
    assert_eq!(VoicePacketType::try_from(0x01).unwrap(), VoicePacketType::Keyframe);
    assert_eq!(VoicePacketType::try_from(0x02).unwrap(), VoicePacketType::Delta);
    assert_eq!(VoicePacketType::try_from(0x03).unwrap(), VoicePacketType::Silence);
    assert_eq!(VoicePacketType::try_from(0x04).unwrap(), VoicePacketType::Control);
}

#[test]
fn voice_packet_type_try_from_invalid() {
    assert!(VoicePacketType::try_from(0x00).is_err());
    assert!(VoicePacketType::try_from(0x05).is_err());
}

#[test]
fn voice_frame_header_magic_valid() {
    let h = VoiceFrameHeader::new(
        VoiceLayerType::Parametric,
        VoicePacketType::Keyframe,
        VoiceQuality::Medium,
        1,
        128,
    );
    assert!(h.validate().is_ok());
    assert_eq!(h.magic, VOICE_MAGIC);
}

#[test]
fn voice_frame_header_invalid_magic_returns_error() {
    let mut h = VoiceFrameHeader::new(
        VoiceLayerType::Spectral,
        VoicePacketType::Delta,
        VoiceQuality::High,
        42,
        64,
    );
    h.magic = [0x00, 0x00, 0x00, 0x00];
    assert!(h.validate().is_err());
}

#[test]
fn voice_frame_header_sequence_preserved() {
    let h = VoiceFrameHeader::new(
        VoiceLayerType::Spectral,
        VoicePacketType::Silence,
        VoiceQuality::Low,
        9999,
        0,
    );
    assert_eq!(h.sequence, 9999);
    assert_eq!(h.version, 1);
}

#[test]
fn voice_quality_sample_rates() {
    assert_eq!(VoiceQuality::Low.sample_rate(), 8000);
    assert_eq!(VoiceQuality::Medium.sample_rate(), 16000);
    assert_eq!(VoiceQuality::High.sample_rate(), 32000);
    assert_eq!(VoiceQuality::Ultra.sample_rate(), 48000);
}

#[test]
fn voice_quality_lpc_orders() {
    assert_eq!(VoiceQuality::Low.lpc_order(), 8);
    assert_eq!(VoiceQuality::Medium.lpc_order(), 10);
    assert_eq!(VoiceQuality::High.lpc_order(), 12);
    assert_eq!(VoiceQuality::Ultra.lpc_order(), 16);
}

#[test]
fn q16_utilities_int_roundtrip() {
    for v in [0i32, 1, -1, 100, -100, 32767] {
        let q = int_to_q16(v);
        assert_eq!(q16_to_int(q), v);
    }
}

#[test]
fn test_q16_conversion() {
    assert_eq!(int_to_q16(100), 6553600);
    assert_eq!(q16_to_int(6553600), 100);

    let f = 3.14159f32;
    let q = f32_to_q16(f);
    let back = q16_to_f32(q);
    assert!((f - back).abs() < 0.0001);
}

#[test]
fn test_q16_arithmetic() {
    let a = f32_to_q16(2.5);
    let b = f32_to_q16(4.0);

    let mul = q16_mul(a, b);
    assert!((q16_to_f32(mul) - 10.0).abs() < 0.001);

    let div = q16_div(b, a);
    assert!((q16_to_f32(div) - 1.6).abs() < 0.001);
}

#[test]
fn q16_mul_basic() {
    let a = f32_to_q16(3.0);
    let b = f32_to_q16(2.0);
    let result = q16_to_f32(q16_mul(a, b));
    assert!((result - 6.0).abs() < 0.001);
}

#[test]
fn q16_div_basic() {
    let a = f32_to_q16(6.0);
    let b = f32_to_q16(3.0);
    let result = q16_to_f32(q16_div(a, b));
    assert!((result - 2.0).abs() < 0.001);
}

#[test]
fn q16_div_by_zero_returns_zero() {
    let a = f32_to_q16(5.0);
    assert_eq!(q16_div(a, 0), 0);
}

// --- further cases ---

#[test]
fn q16_int_roundtrip_fails_outside_16_bits() {
    // 32768 does not fit the integer part of Q16.16: it wraps to -32768.
    assert_eq!(q16_to_int(int_to_q16(32768)), -32768);
}

#[test]
fn q16_to_int_rounds_down() {
    assert_eq!(q16_to_int(-1), -1);
    assert_eq!(q16_to_int(65535), 0);
    assert_eq!(int_to_q16(q16_to_int(3 * 65536 + 123)), 3 * 65536);
}

#[test]
fn q16_mul_exact_values() {
    assert_eq!(q16_mul(3 * 65536, 2 * 65536), 6 * 65536);
    assert_eq!(q16_mul(-1, 1), -1);
    assert_eq!(q16_mul(12345, 65536), 12345);
    assert_eq!(q16_mul(0, 987654), 0);
}

#[test]
fn q16_div_exact_values() {
    assert_eq!(q16_div(6 * 65536, 3 * 65536), 2 * 65536);
    assert_eq!(q16_div(-7 * 65536, 2 * 65536), -(7 * 65536 / 2));
    assert_eq!(q16_div(7 * 65536, -2 * 65536), -(7 * 65536 / 2));
    assert_eq!(q16_div(-1, 3), -21845);
    assert_eq!(q16_div(12345, 12345), 65536);
    assert_eq!(q16_div(12345, 65536), 12345);
}

#[test]
fn header_codes_decode_back() {
    let h = VoiceFrameHeader::new(
        VoiceLayerType::Semantic,
        VoicePacketType::Control,
        VoiceQuality::Ultra,
        7,
        9,
    );
    assert_eq!(VoiceLayerType::try_from(h.layer_type).unwrap(), VoiceLayerType::Semantic);
    assert_eq!(VoicePacketType::try_from(h.packet_type).unwrap(), VoicePacketType::Control);
    assert_eq!(h.quality, 3);
    assert_eq!(VoiceQuality::from_code(h.quality), VoiceQuality::Ultra);
    assert_eq!(h.payload_size, 9);
}

#[test]
fn defaults() {
    assert_eq!(EmotionType::default(), EmotionType::Neutral);
    assert_eq!(VoiceQuality::default(), VoiceQuality::Medium);
}

#[test]
fn speaker_name_hash() {
    assert_eq!(fnv1a_hash(b""), 0xcbf29ce484222325);
    assert_eq!(fnv1a_hash(b"a"), 0xaf63dc4c8601ec8c);
    assert_ne!(fnv1a_hash(b"alice"), 0);
}
