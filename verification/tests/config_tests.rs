use alice_voice::api::VoiceCodecConfig;
use alice_voice::types::VoiceQuality;

#[test]
fn test_quality_configs() {
    let narrowband = VoiceCodecConfig::narrowband();
    assert_eq!(narrowband.sample_rate, 8000);
    assert_eq!(narrowband.lpc_order, 8);

    let wideband = VoiceCodecConfig::wideband();
    assert_eq!(wideband.sample_rate, 16000);
    assert_eq!(wideband.lpc_order, 10);

    let fullband = VoiceCodecConfig::fullband();
    assert_eq!(fullband.sample_rate, 48000);
    assert_eq!(fullband.lpc_order, 16);
}

#[test]
fn codec_config_narrowband() {
    let c = VoiceCodecConfig::narrowband();
    assert_eq!(c.sample_rate, 8000);
    assert_eq!(c.lpc_order, 8);
}

#[test]
fn codec_config_wideband() {
    let c = VoiceCodecConfig::wideband();
    assert_eq!(c.sample_rate, 16000);
}

#[test]
fn codec_config_super_wideband() {
    let c = VoiceCodecConfig::super_wideband();
    assert_eq!(c.sample_rate, 32000);
    assert_eq!(c.lpc_order, 12);
}

#[test]
fn codec_config_fullband() {
    let c = VoiceCodecConfig::fullband();
    assert_eq!(c.sample_rate, 48000);
    assert_eq!(c.lpc_order, 16);
}

#[test]
fn codec_config_default_sample_rate() {
    let c = VoiceCodecConfig::default();
    assert_eq!(c.sample_rate, 16000);
    assert_eq!(c.lpc_order, 10);
}

// --- further cases ---

#[test]
fn config_frames_are_64ms_with_half_hop() {
    let expected = [
        (VoiceQuality::Low, 512usize),
        (VoiceQuality::Medium, 1024),
        (VoiceQuality::High, 2048),
        (VoiceQuality::Ultra, 3072),
    ];
    for (q, frame) in expected {
        let c = VoiceCodecConfig::for_quality(q);
        assert_eq!(c.frame_size, frame);
        assert_eq!(c.hop_size * 2, c.frame_size);
        assert!(c.frame_size >= 2 * (c.sample_rate as usize / 50));
        assert_eq!(c.quality, q);
    }
}

#[test]
fn default_config_is_wideband() {
    let d = VoiceCodecConfig::default();
    let w = VoiceCodecConfig::wideband();
    assert_eq!(d.sample_rate, w.sample_rate);
    assert_eq!(d.frame_size, w.frame_size);
    assert_eq!(d.hop_size, w.hop_size);
    assert_eq!(d.lpc_order, w.lpc_order);
    assert_eq!(d.quality, w.quality);
}
