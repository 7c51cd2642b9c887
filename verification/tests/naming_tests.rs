use alice_voice::api::{duration_ms_for_samples, samples_for_duration};
use alice_voice::layers::parametric::parametric_encoded_size;
use alice_voice::layers::spectral::spectral_encoded_size;
use alice_voice::{EmotionType, VoiceQuality};

#[test]
fn quality_names_ignore_case() {
    assert_eq!(VoiceQuality::from_name("low"), VoiceQuality::Low);
    assert_eq!(VoiceQuality::from_name("HIGH"), VoiceQuality::High);
    assert_eq!(VoiceQuality::from_name("Ultra"), VoiceQuality::Ultra);
    assert_eq!(VoiceQuality::from_name("medium"), VoiceQuality::Medium);
}

#[test]
fn unknown_quality_name_is_medium() {
    assert_eq!(VoiceQuality::from_name(""), VoiceQuality::Medium);
    assert_eq!(VoiceQuality::from_name("lowest"), VoiceQuality::Medium);
    assert_eq!(VoiceQuality::from_name(" low"), VoiceQuality::Medium);
    assert_eq!(VoiceQuality::from_name("l\u{f6}w"), VoiceQuality::Medium);
}

#[test]
fn emotion_names_ignore_case() {
    assert_eq!(EmotionType::from_name("happy"), EmotionType::Happy);
    assert_eq!(EmotionType::from_name("SAD"), EmotionType::Sad);
    assert_eq!(EmotionType::from_name("Angry"), EmotionType::Angry);
    assert_eq!(EmotionType::from_name("fEARFUL"), EmotionType::Fearful);
    assert_eq!(EmotionType::from_name("Surprised"), EmotionType::Surprised);
    assert_eq!(EmotionType::from_name("disgusted"), EmotionType::Disgusted);
}

#[test]
fn other_emotion_names_are_neutral() {
    assert_eq!(EmotionType::from_name("Neutral"), EmotionType::Neutral);
    assert_eq!(EmotionType::from_name("contempt"), EmotionType::Neutral);
    assert_eq!(EmotionType::from_name("happiness"), EmotionType::Neutral);
}

#[test]
fn encoded_sizes() {
    assert_eq!(parametric_encoded_size(10, 4), 4 + 40 + 4 + 8 + 32 + 8);
    assert_eq!(parametric_encoded_size(0, 0), 24);
    assert_eq!(spectral_encoded_size(0), 4);
    assert_eq!(spectral_encoded_size(200), 1204);
}

#[test]
fn durations() {
    assert_eq!(samples_for_duration(16000, 1000), 16000);
    assert_eq!(samples_for_duration(44100, 10), 441);
    assert_eq!(samples_for_duration(8000, 1), 8);
    assert_eq!(samples_for_duration(u32::MAX, u32::MAX), (u32::MAX as u64) * (u32::MAX as u64) / 1000);
    assert_eq!(duration_ms_for_samples(16000, 16000), 1000);
    assert_eq!(duration_ms_for_samples(8000, 16000), 500);
    assert_eq!(duration_ms_for_samples(7, 16000), 0);
}

#[test]
fn quality_from_code() {
    assert_eq!(VoiceQuality::from_code(0), VoiceQuality::Low);
    assert_eq!(VoiceQuality::from_code(1), VoiceQuality::Medium);
    assert_eq!(VoiceQuality::from_code(2), VoiceQuality::High);
    assert_eq!(VoiceQuality::from_code(3), VoiceQuality::Ultra);
    assert_eq!(VoiceQuality::from_code(4), VoiceQuality::Medium);
    assert_eq!(VoiceQuality::from_code(255), VoiceQuality::Medium);
}

#[test]
fn duration_at_zero_rate_counts_as_one() {
    assert_eq!(duration_ms_for_samples(3, 0), 3000);
}
