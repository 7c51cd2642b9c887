//! Common types, enumerations and Q16.16 fixed-point utilities.

use vstd::prelude::*;

verus! {

// ============================================
// Constants
// ============================================

/// Number of fractional bits in the Q16.16 fixed-point format.
pub const Q16_SHIFT: i32 = 16;

/// The value 1.0 in Q16.16.
pub const Q16_ONE: i32 = 65536;

/// Speaker embedding dimension.
pub const EMBEDDING_DIM: usize = 256;

/// Default sample rate in Hz.
pub const DEFAULT_SAMPLE_RATE: u32 = 16000;

/// Default LPC order.
pub const DEFAULT_LPC_ORDER: usize = 10;

/// Default frame size in samples.
pub const DEFAULT_FRAME_SIZE: usize = 512;

/// Default hop size in samples.
pub const DEFAULT_HOP_SIZE: usize = 256;

// ============================================
// Voice layer type
// ============================================

/// Voice layer type.
#[derive(Debug, Clone, Copy, PartialEq, Eq, Hash, Structural)]
pub enum VoiceLayerType {
    /// L1: Spectral (FFT/DCT coefficients)
    Spectral,
    /// L2: Parametric (LPC + Formants + Pitch)
    Parametric,
    /// L3: Semantic (Text + Emotion + Speaker)
    Semantic,
}

/// Wire code of a layer type.
pub open spec fn layer_type_code(t: VoiceLayerType) -> u8 {
    match t {
        VoiceLayerType::Spectral => 0x01,
        VoiceLayerType::Parametric => 0x02,
        VoiceLayerType::Semantic => 0x03,
    }
}

/// Layer type decoded from a wire code.
pub open spec fn layer_type_from_code(value: u8) -> Result<VoiceLayerType, VoiceError> {
    if value == 0x01 {
        Ok(VoiceLayerType::Spectral)
    } else if value == 0x02 {
        Ok(VoiceLayerType::Parametric)
    } else if value == 0x03 {
        Ok(VoiceLayerType::Semantic)
    } else {
        Err(VoiceError::InvalidLayerType(value))
    }
}

impl VoiceLayerType {
    /// Decode a layer type from its wire code.
    pub fn try_from(value: u8) -> (r: Result<VoiceLayerType, VoiceError>)
        ensures
            r == layer_type_from_code(value),
    {
        match value {
            0x01 => Ok(VoiceLayerType::Spectral),
            0x02 => Ok(VoiceLayerType::Parametric),
            0x03 => Ok(VoiceLayerType::Semantic),
            _ => Err(VoiceError::InvalidLayerType(value)),
        }
    }
}

// ============================================
// Emotion type
// ============================================

/// Emotion type for the semantic layer.
#[derive(Debug, Clone, Copy, PartialEq, Eq, Hash, Structural)]
pub enum EmotionType {
    Neutral,
    Happy,
    Sad,
    Angry,
    Fearful,
    Surprised,
    Disgusted,
    Contempt,
}

/// Wire code of an emotion.
pub open spec fn emotion_code(e: EmotionType) -> u8 {
    match e {
        EmotionType::Neutral => 0x00,
        EmotionType::Happy => 0x01,
        EmotionType::Sad => 0x02,
        EmotionType::Angry => 0x03,
        EmotionType::Fearful => 0x04,
        EmotionType::Surprised => 0x05,
        EmotionType::Disgusted => 0x06,
        EmotionType::Contempt => 0x07,
    }
}

/// Emotion decoded from a wire code.
pub open spec fn emotion_from_code(value: u8) -> Result<EmotionType, VoiceError> {
    if value == 0x00 {
        Ok(EmotionType::Neutral)
    } else if value == 0x01 {
        Ok(EmotionType::Happy)
    } else if value == 0x02 {
        Ok(EmotionType::Sad)
    } else if value == 0x03 {
        Ok(EmotionType::Angry)
    } else if value == 0x04 {
        Ok(EmotionType::Fearful)
    } else if value == 0x05 {
        Ok(EmotionType::Surprised)
    } else if value == 0x06 {
        Ok(EmotionType::Disgusted)
    } else if value == 0x07 {
        Ok(EmotionType::Contempt)
    } else {
        Err(VoiceError::InvalidEmotionType(value))
    }
}

impl EmotionType {
    /// Decode an emotion from its wire code.
    pub fn try_from(value: u8) -> (r: Result<EmotionType, VoiceError>)
        ensures
            r == emotion_from_code(value),
    {
        match value {
            0x00 => Ok(EmotionType::Neutral),
            0x01 => Ok(EmotionType::Happy),
            0x02 => Ok(EmotionType::Sad),
            0x03 => Ok(EmotionType::Angry),
            0x04 => Ok(EmotionType::Fearful),
            0x05 => Ok(EmotionType::Surprised),
            0x06 => Ok(EmotionType::Disgusted),
            0x07 => Ok(EmotionType::Contempt),
            _ => Err(VoiceError::InvalidEmotionType(value)),
        }
    }
}

impl Default for EmotionType {
    fn default() -> (r: EmotionType)
        ensures
            r == EmotionType::Neutral,
    {
        EmotionType::Neutral
    }
}

// ============================================
// Voice quality
// ============================================

/// Voice quality level.
#[derive(Debug, Clone, Copy, PartialEq, Eq, Hash, Structural)]
pub enum VoiceQuality {
    /// Low quality (narrowband, 8kHz)
    Low,
    /// Medium quality (wideband, 16kHz)
    Medium,
    /// High quality (super-wideband, 32kHz)
    High,
    /// Ultra quality (fullband, 48kHz)
    Ultra,
}

/// Wire code of a quality level.
pub open spec fn quality_code(q: VoiceQuality) -> u8 {
    match q {
        VoiceQuality::Low => 0x00,
        VoiceQuality::Medium => 0x01,
        VoiceQuality::High => 0x02,
        VoiceQuality::Ultra => 0x03,
    }
}

/// Quality level of a wire code, `Medium` for codes above 3.
pub open spec fn quality_from_code(code: u8) -> VoiceQuality {
    if code == 0x00 {
        VoiceQuality::Low
    } else if code == 0x02 {
        VoiceQuality::High
    } else if code == 0x03 {
        VoiceQuality::Ultra
    } else {
        VoiceQuality::Medium
    }
}

/// Recommended sample rate of a quality level.
pub open spec fn quality_sample_rate(q: VoiceQuality) -> u32 {
    match q {
        VoiceQuality::Low => 8000,
        VoiceQuality::Medium => 16000,
        VoiceQuality::High => 32000,
        VoiceQuality::Ultra => 48000,
    }
}

/// Recommended LPC order of a quality level.
pub open spec fn quality_lpc_order(q: VoiceQuality) -> usize {
    match q {
        VoiceQuality::Low => 8,
        VoiceQuality::Medium => 10,
        VoiceQuality::High => 12,
        VoiceQuality::Ultra => 16,
    }
}

impl VoiceQuality {
    /// Recommended sample rate for the quality level.
    pub fn sample_rate(&self) -> (r: u32)
        ensures
            r == quality_sample_rate(*self),
    {
        match self {
            VoiceQuality::Low => 8000,
            VoiceQuality::Medium => 16000,
            VoiceQuality::High => 32000,
            VoiceQuality::Ultra => 48000,
        }
    }

    /// Recommended LPC order for the quality level.
    pub fn lpc_order(&self) -> (r: usize)
        ensures
            r == quality_lpc_order(*self),
    {
        match self {
            VoiceQuality::Low => 8,
            VoiceQuality::Medium => 10,
            VoiceQuality::High => 12,
            VoiceQuality::Ultra => 16,
        }
    }

    /// The quality level of a wire code; unknown codes give `Medium`.
    pub fn from_code(code: u8) -> (q: VoiceQuality)
        ensures
            q == quality_from_code(code),
    {
        match code {
            0 => VoiceQuality::Low,
            2 => VoiceQuality::High,
            3 => VoiceQuality::Ultra,
            _ => VoiceQuality::Medium,
        }
    }
}

impl Default for VoiceQuality {
    fn default() -> (r: VoiceQuality)
        ensures
            r == VoiceQuality::Medium,
    {
        VoiceQuality::Medium
    }
}

// ============================================
// Packet type
// ============================================

/// Voice packet type.
#[derive(Debug, Clone, Copy, PartialEq, Eq, Hash, Structural)]
pub enum VoicePacketType {
    /// Keyframe with full parameters
    Keyframe,
    /// Delta frame with incremental updates
    Delta,
    /// Silence frame (no voice activity)
    Silence,
    /// Control packet
    Control,
}

/// Wire code of a packet type.
pub open spec fn packet_type_code(p: VoicePacketType) -> u8 {
    match p {
        VoicePacketType::Keyframe => 0x01,
        VoicePacketType::Delta => 0x02,
        VoicePacketType::Silence => 0x03,
        VoicePacketType::Control => 0x04,
    }
}

/// Packet type decoded from a wire code.
pub open spec fn packet_type_from_code(value: u8) -> Result<VoicePacketType, VoiceError> {
    if value == 0x01 {
        Ok(VoicePacketType::Keyframe)
    } else if value == 0x02 {
        Ok(VoicePacketType::Delta)
    } else if value == 0x03 {
        Ok(VoicePacketType::Silence)
    } else if value == 0x04 {
        Ok(VoicePacketType::Control)
    } else {
        Err(VoiceError::InvalidPacketType(value))
    }
}

impl VoicePacketType {
    /// Decode a packet type from its wire code.
    pub fn try_from(value: u8) -> (r: Result<VoicePacketType, VoiceError>)
        ensures
            r == packet_type_from_code(value),
    {
        match value {
            0x01 => Ok(VoicePacketType::Keyframe),
            0x02 => Ok(VoicePacketType::Delta),
            0x03 => Ok(VoicePacketType::Silence),
            0x04 => Ok(VoicePacketType::Control),
            _ => Err(VoiceError::InvalidPacketType(value)),
        }
    }
}

// ============================================
// Errors
// ============================================

/// Error type of the voice codec.
#[derive(Debug, Clone)]
pub enum VoiceError {
    InvalidLayerType(u8),
    InvalidEmotionType(u8),
    InvalidPacketType(u8),
    InvalidSampleRate(u32),
    BufferTooSmall { need: usize, got: usize },
    LpcError(String),
    PitchError(String),
    FormantError(String),
    SynthesisError(String),
    SerializationError(String),
    InvalidMagic,
    ChecksumMismatch,
}

/// Result type for voice operations.
pub type VoiceResult<T> = Result<T, VoiceError>;

// ============================================
// Frame header
// ============================================

/// Voice frame header (16 bytes on the wire).
#[derive(Debug, Clone, Copy)]
pub struct VoiceFrameHeader {
    /// Magic bytes ("AVO1")
    pub magic: [u8; 4],
    /// Protocol version
    pub version: u8,
    /// Layer type
    pub layer_type: u8,
    /// Packet type
    pub packet_type: u8,
    /// Quality level
    pub quality: u8,
    /// Frame sequence number
    pub sequence: u32,
    /// Payload size in bytes
    pub payload_size: u32,
}

/// Whether four bytes spell the frame magic "AVO1".
pub open spec fn is_voice_magic(m: [u8; 4]) -> bool {
    m[0] == 0x41 && m[1] == 0x56 && m[2] == 0x4F && m[3] == 0x31
}

impl VoiceFrameHeader {
    /// Build a header for a frame of the given kind.
    pub fn new(
        layer_type: VoiceLayerType,
        packet_type: VoicePacketType,
        quality: VoiceQuality,
        sequence: u32,
        payload_size: u32,
    ) -> (h: VoiceFrameHeader)
        ensures
            is_voice_magic(h.magic),
            h.version == 1,
            h.layer_type == layer_type_code(layer_type),
            h.packet_type == packet_type_code(packet_type),
            h.quality == quality_code(quality),
            h.sequence == sequence,
            h.payload_size == payload_size,
    {
        let layer: u8 = match layer_type {
            VoiceLayerType::Spectral => 0x01,
            VoiceLayerType::Parametric => 0x02,
            VoiceLayerType::Semantic => 0x03,
        };
        let packet: u8 = match packet_type {
            VoicePacketType::Keyframe => 0x01,
            VoicePacketType::Delta => 0x02,
            VoicePacketType::Silence => 0x03,
            VoicePacketType::Control => 0x04,
        };
        let q: u8 = match quality {
            VoiceQuality::Low => 0x00,
            VoiceQuality::Medium => 0x01,
            VoiceQuality::High => 0x02,
            VoiceQuality::Ultra => 0x03,
        };
        VoiceFrameHeader {
            magic: [0x41, 0x56, 0x4F, 0x31],
            version: 1,
            layer_type: layer,
            packet_type: packet,
            quality: q,
            sequence,
            payload_size,
        }
    }

    /// Check the magic bytes.
    pub fn validate(&self) -> (r: VoiceResult<()>)
        ensures
            r is Ok <==> is_voice_magic(self.magic),
            r is Err ==> r == Err::<(), VoiceError>(VoiceError::InvalidMagic),
    {
        if self.magic[0] != 0x41 || self.magic[1] != 0x56 || self.magic[2] != 0x4F
            || self.magic[3] != 0x31 {
            return Err(VoiceError::InvalidMagic);
        }
        Ok(())
    }
}

// ============================================
// FNV-1a
// ============================================

/// FNV-1a 64-bit offset basis.
pub const FNV_OFFSET: u64 = 0xcbf29ce484222325;

/// FNV-1a 64-bit prime.
pub const FNV_PRIME: u64 = 0x100000001b3;

/// FNV-1a hash of a byte sequence: start from the offset basis, and for each
/// byte xor it in and multiply by the prime modulo 2^64.
pub open spec fn fnv1a(bytes: Seq<u8>) -> u64
    decreases bytes.len(),
{
    if bytes.len() == 0 {
        FNV_OFFSET
    } else {
        (fnv1a(bytes.drop_last()) ^ (bytes.last() as u64)).wrapping_mul(FNV_PRIME)
    }
}

/// FNV-1a reads its bytes front to back: the empty input hashes to the
/// offset basis, and appending a byte xors it into the hash of the prefix
/// and multiplies by the prime modulo 2^64.
pub proof fn law_fnv1a_appends_bytes(prefix: Seq<u8>, byte: u8)
    ensures
        fnv1a(Seq::<u8>::empty()) == FNV_OFFSET,
        fnv1a(prefix.push(byte)) == (fnv1a(prefix) ^ (byte as u64)).wrapping_mul(FNV_PRIME),
{
    assert(prefix.push(byte).drop_last() =~= prefix);
}

/// Two-byte inputs hash in reading order: first byte, then second.
pub proof fn law_fnv1a_two_bytes(first: u8, second: u8)
    ensures
        fnv1a(seq![first, second]) == (((FNV_OFFSET ^ (first as u64)).wrapping_mul(FNV_PRIME)) ^ (
        second as u64)).wrapping_mul(FNV_PRIME),
{
    law_fnv1a_appends_bytes(Seq::<u8>::empty(), first);
    law_fnv1a_appends_bytes(seq![first], second);
    assert(Seq::<u8>::empty().push(first) =~= seq![first]);
    assert(seq![first].push(second) =~= seq![first, second]);
}

/// FNV-1a hash (fast, non-cryptographic), used for speaker names.
pub fn fnv1a_hash(bytes: &[u8]) -> (h: u64)
    ensures
        h == fnv1a(bytes@),
{
    let mut hash: u64 = FNV_OFFSET;
    let mut i: usize = 0;
    while i < bytes.len()
        invariant
            i <= bytes.len(),
            hash == fnv1a(bytes@.subrange(0, i as int)),
        decreases bytes.len() - i,
    {
        proof {
            let pre = bytes@.subrange(0, i as int + 1);
            assert(pre.drop_last() =~= bytes@.subrange(0, i as int));
        }
        hash = (hash ^ (bytes[i] as u64)).wrapping_mul(FNV_PRIME);
        i = i + 1;
    }
    proof {
        assert(bytes@.subrange(0, bytes.len() as int) =~= bytes@);
    }
    hash
}

// ============================================
// Q16.16 fixed-point utilities
// ============================================

/// Integer division rounding toward zero (the semantics of `/` on signed
/// machine integers).
pub open spec fn trunc_div(a: int, b: int) -> int {
    let q = (if a < 0 { -a } else { a }) / (if b < 0 { -b } else { b });
    if (a < 0) != (b < 0) {
        -q
    } else {
        q
    }
}

/// Q16.16 product: `a * b / 2^16` rounded down, kept to 32 bits.
pub open spec fn q16_product(a: int, b: int) -> i32 {
    ((a * b) / 65536) as i32
}

/// Q16.16 quotient: `a * 2^16 / b` rounded toward zero, kept to 32 bits;
/// a zero divisor gives zero.
pub open spec fn q16_quotient(a: int, b: int) -> i32 {
    if b == 0 {
        0
    } else {
        trunc_div(a * 65536, b) as i32
    }
}

pub proof fn lemma_i32_product_bounds(a: i32, b: i32)
    ensures
        -0x4000_0000_0000_0000 < a * b <= 0x4000_0000_0000_0000,
{
    assert(-0x4000_0000_0000_0000 < a * b <= 0x4000_0000_0000_0000) by (nonlinear_arith)
        requires
            -0x8000_0000 <= a < 0x8000_0000,
            -0x8000_0000 <= b < 0x8000_0000,
    ;
}

/// Convert Q16.16 to an integer (rounding down).
pub fn q16_to_int(q: i32) -> (r: i32)
    ensures
        r == q / 65536,
{
    proof {
        assert(q >> 16u32 == q / 65536) by (bit_vector);
    }
    q >> 16
}

/// Convert an integer to Q16.16 (the high bits that do not fit are lost).
pub fn int_to_q16(i: i32) -> (r: i32)
    ensures
        r == (i * 65536) as i32,
{
    proof {
        assert(i << 16u32 == (i * 65536) as i32) by (bit_vector);
    }
    i << 16
}

/// Q16.16 multiply.
pub fn q16_mul(a: i32, b: i32) -> (r: i32)
    ensures
        r == q16_product(a as int, b as int),
{
    proof {
        lemma_i32_product_bounds(a, b);
    }
    let p: i64 = (a as i64) * (b as i64);
    proof {
        assert(p >> 16u64 == p / 65536) by (bit_vector);
    }
    (p >> 16) as i32
}

/// Q16.16 divide; dividing by zero gives zero.
pub fn q16_div(a: i32, b: i32) -> (r: i32)
    ensures
        r == q16_quotient(a as int, b as int),
{
    if b == 0 {
        return 0;
    }
    let wide: i64 = a as i64;
    proof {
        assert(wide << 16u64 == (wide * 65536) as i64) by (bit_vector);
    }
    let num: i64 = wide << 16;
    assert(num == a * 65536);
    // Checked division: its result is specified for divisors of either sign.
    match num.checked_div(b as i64) {
        Some(q) => q as i32,
        None => 0,
    }
}

// ============================================
// Laws
// ============================================

/// Every layer type decodes back from its wire code, and a code decodes to a
/// layer type exactly when it is 1, 2 or 3.
pub proof fn law_layer_type_code_roundtrip(t: VoiceLayerType, value: u8)
    ensures
        layer_type_from_code(layer_type_code(t)) == Ok::<VoiceLayerType, VoiceError>(t),
        layer_type_from_code(value) is Ok <==> 0x01 <= value <= 0x03,
        layer_type_from_code(value) is Ok ==> layer_type_code(
            layer_type_from_code(value)->Ok_0,
        ) == value,
{
}

/// Every emotion decodes back from its wire code, and a code decodes to an
/// emotion exactly when it is at most 7.
pub proof fn law_emotion_code_roundtrip(e: EmotionType, value: u8)
    ensures
        emotion_from_code(emotion_code(e)) == Ok::<EmotionType, VoiceError>(e),
        emotion_from_code(value) is Ok <==> value <= 0x07,
        emotion_from_code(value) is Ok ==> emotion_code(emotion_from_code(value)->Ok_0) == value,
{
}

/// Every quality level decodes back from its wire code, and every code up to
/// 3 is the code of the level it decodes to.
pub proof fn law_quality_code_roundtrip(q: VoiceQuality, code: u8)
    ensures
        quality_from_code(quality_code(q)) == q,
        code <= 0x03 ==> quality_code(quality_from_code(code)) == code,
        code > 0x03 ==> quality_from_code(code) == VoiceQuality::Medium,
{
}

/// Every packet type decodes back from its wire code, and a code decodes to a
/// packet type exactly when it is 1 to 4.
pub proof fn law_packet_type_code_roundtrip(p: VoicePacketType, value: u8)
    ensures
        packet_type_from_code(packet_type_code(p)) == Ok::<VoicePacketType, VoiceError>(p),
        packet_type_from_code(value) is Ok <==> 0x01 <= value <= 0x04,
        packet_type_from_code(value) is Ok ==> packet_type_code(
            packet_type_from_code(value)->Ok_0,
        ) == value,
{
}

/// A header built by `VoiceFrameHeader::new` passes `validate`, and its layer,
/// packet and quality bytes decode back to the kinds it was built with.
pub proof fn law_new_header_is_valid(
    h: VoiceFrameHeader,
    layer_type: VoiceLayerType,
    packet_type: VoicePacketType,
    quality: VoiceQuality,
)
    requires
        is_voice_magic(h.magic),
        h.layer_type == layer_type_code(layer_type),
        h.packet_type == packet_type_code(packet_type),
        h.quality == quality_code(quality),
    ensures
        is_voice_magic(h.magic),
        layer_type_from_code(h.layer_type) == Ok::<VoiceLayerType, VoiceError>(layer_type),
        packet_type_from_code(h.packet_type) == Ok::<VoicePacketType, VoiceError>(packet_type),
        quality_from_code(h.quality) == quality,
{
}

/// Q16.16 multiplication is commutative.
pub proof fn law_q16_mul_commutative(a: i32, b: i32)
    ensures
        q16_product(a as int, b as int) == q16_product(b as int, a as int),
{
    assert(a * b == b * a) by (nonlinear_arith);
}

/// Multiplying by 1.0 (65536) gives the value back; multiplying by 0 gives 0.
pub proof fn law_q16_mul_identity(a: i32)
    ensures
        q16_product(a as int, 65536) == a,
        q16_product(a as int, 0) == 0,
        q16_product(0, a as int) == 0,
{
    assert((a * 65536) / 65536 == a) by (nonlinear_arith);
}

/// Converting an integer to Q16.16 and back gives it back exactly when it lies
/// in the 16-bit signed range.
pub proof fn law_q16_int_roundtrip(v: i32)
    ensures
        (-32768 <= v <= 32767) ==> ((v * 65536) as i32) / 65536 == v,
        (-32768 <= v <= 32767) <==> (((v * 65536) as i32) / 65536 == v),
{
    assert((-32768 <= v <= 32767) <==> (((v as i64 * 65536i64) as i32) / 65536i32 == v))
        by (bit_vector);
    assert((v * 65536) as i32 == (v as i64 * 65536i64) as i32) by (bit_vector);
}

/// Converting Q16.16 to an integer and back clears the fractional bits.
pub proof fn law_q16_int_floor(q: i32)
    ensures
        (((q / 65536) * 65536) as i32) == q - q % 65536,
{
    assert(i32::MIN <= (q / 65536) * 65536 <= i32::MAX) by (nonlinear_arith);
}

/// Dividing by 1.0 (65536) gives the value back, dividing a non-zero value by
/// itself gives 1.0, and dividing by zero gives 0.
pub proof fn law_q16_div_identity(a: i32)
    ensures
        q16_quotient(a as int, 65536) == a,
        a != 0 ==> q16_quotient(a as int, a as int) == 65536,
        q16_quotient(a as int, 0) == 0,
{
    let n: int = if a < 0 { -(a as int) } else { a as int };
    assert((n * 65536) / 65536 == n) by (nonlinear_arith);
    if a != 0 {
        assert((n * 65536) / n == 65536) by (nonlinear_arith)
            requires n > 0;
    }
}

} // verus!
