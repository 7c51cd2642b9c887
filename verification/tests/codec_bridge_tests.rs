use alice_voice::codec_bridge::framing::{
    decode_compressed_header, encode_compressed_bytes, COMPRESSED_HEADER_LEN,
};
use alice_voice::codec_bridge::{
    compress_lpc_signal, decompress_lpc_signal, rans_table_ok,
    assemble_compressed_frame, dequantize_symbols, estimated_uncompressed_bytes, padded_signal_len,
    prepare_lpc_signal, quantize_to_symbols, reconstruct_lpc_signal, signal_within_lifting_range,
    split_lpc_frames, symbols_reconstructable, zero_pad, CodecCompressedFrame,
};
use alice_voice::{VoiceError, VoiceQuality};

#[test]
fn test_compress_decompress_empty() {
    let compressed = CodecCompressedFrame::empty(4);
    assert_eq!(compressed.frame_count, 0);
    assert!(compressed.is_empty());
    assert!(compressed.data.is_empty());
    assert_eq!(compressed.quantizer_step, 4);
    assert_eq!(compressed.quality, VoiceQuality::Medium);
}

#[test]
fn padded_len_is_next_power_of_two() {
    assert_eq!(padded_signal_len(0), 1);
    assert_eq!(padded_signal_len(1), 1);
    assert_eq!(padded_signal_len(2), 2);
    assert_eq!(padded_signal_len(3), 4);
    assert_eq!(padded_signal_len(5), 8);
    assert_eq!(padded_signal_len(1024), 1024);
    assert_eq!(padded_signal_len(1025), 2048);
    assert_eq!(padded_signal_len(u32::MAX), 1u64 << 32);
}

#[test]
fn zero_pad_appends_zeros() {
    assert_eq!(zero_pad(vec![3, -4, 5], 6), vec![3, -4, 5, 0, 0, 0]);
    assert_eq!(zero_pad(vec![1, 2], 2), vec![1, 2]);
}

#[test]
fn lifting_range_check() {
    assert!(signal_within_lifting_range(&vec![0, 536_870_911, -536_870_911]));
    assert!(!signal_within_lifting_range(&vec![0, 536_870_912]));
    assert!(!signal_within_lifting_range(&vec![-536_870_912]));
    assert!(signal_within_lifting_range(&vec![]));
}

#[test]
fn quantize_to_symbols_dead_zone() {
    let stream = quantize_to_symbols(&vec![0, 5, -5, 100, 3], 4, 5).unwrap();
    assert_eq!(stream.symbols, vec![0, 1, 2, 49, 0]);
    assert_eq!(stream.orig_len, 5);
    assert_eq!(stream.histogram.len(), 256);
    assert_eq!(stream.histogram[0], 2);
    assert_eq!(stream.histogram[1], 1);
    assert_eq!(stream.histogram[2], 1);
    assert_eq!(stream.histogram[49], 1);
    assert_eq!(stream.histogram.iter().sum::<u32>(), 5);
}

#[test]
fn quantize_to_symbols_step_below_one_counts_as_one() {
    let a = quantize_to_symbols(&vec![7, -7], 0, 2).unwrap();
    let b = quantize_to_symbols(&vec![7, -7], 1, 2).unwrap();
    assert_eq!(a.symbols, vec![13, 14]);
    assert_eq!(a.symbols, b.symbols);
}

#[test]
fn quantize_to_symbols_overflow_is_an_error() {
    let r = quantize_to_symbols(&vec![0, 128], 1, 2);
    assert!(matches!(r, Err(VoiceError::SerializationError(_))));
    assert!(quantize_to_symbols(&vec![127, -127], 1, 2).is_ok());
}

#[test]
fn prepare_transforms_the_padded_signal() {
    let stream = prepare_lpc_signal(vec![10, 20, 30, 40, 50, 60, 70, 80], 4).unwrap();
    assert_eq!(stream.orig_len, 8);
    assert_eq!(stream.symbols, vec![3, 13, 23, 35, 0, 0, 0, 3]);

    let stream = prepare_lpc_signal(vec![100, -50, 25, 7, 3], 1).unwrap();
    assert_eq!(stream.orig_len, 5);
    assert_eq!(stream.symbols, vec![87, 10, 1, 0, 224, 14, 2, 0]);
    assert_eq!(stream.histogram[0], 2);
}

#[test]
fn prepare_rejects_coefficients_beyond_the_alphabet() {
    let r = prepare_lpc_signal(vec![1000, 0, 0], 1);
    assert!(matches!(r, Err(VoiceError::SerializationError(_))));
}

#[test]
fn unit_step_roundtrip_is_lossless() {
    let signal = vec![100, -50, 25, 7, 3];
    let stream = prepare_lpc_signal(signal.clone(), 1).unwrap();
    assert!(symbols_reconstructable(&stream.symbols, 1));
    let rebuilt = reconstruct_lpc_signal(&stream.symbols, 1);
    assert_eq!(rebuilt, vec![100, -50, 25, 7, 3, 0, 0, 0]);

    let signal = vec![10, 20, 30, 40, 50, 60, 70, 80];
    let stream = prepare_lpc_signal(signal.clone(), 0).unwrap();
    assert_eq!(reconstruct_lpc_signal(&stream.symbols, 0), signal);
}

#[test]
fn coarse_step_roundtrip_is_close() {
    let stream = prepare_lpc_signal(vec![10, 20, 30, 40, 50, 60, 70, 80], 4).unwrap();
    let rebuilt = reconstruct_lpc_signal(&stream.symbols, 4);
    assert_eq!(rebuilt, vec![10, 20, 30, 40, 50, 60, 71, 81]);

    let stream = prepare_lpc_signal(vec![100, -50, 25, 7, 3], 8).unwrap();
    assert_eq!(stream.symbols, vec![9, 0, 0, 0, 28, 0, 0, 0]);
    let rebuilt = reconstruct_lpc_signal(&stream.symbols, 8);
    assert_eq!(rebuilt, vec![102, -51, 29, 14, 0, 0, 0, 0]);
}

#[test]
fn dequantize_symbols_midpoints() {
    // symbols 0, 1, 2, 3, 4 stand for 0, 1, -1, 2, -2
    assert_eq!(dequantize_symbols(&vec![0, 1, 2, 3, 4], 4), vec![0, 6, -6, 10, -10]);
    assert_eq!(dequantize_symbols(&vec![255, 254], 1), vec![128, -127]);
}

#[test]
fn reconstructable_bound() {
    // symbol 255 is the coefficient 128, dequantized to 128 * step + step / 2
    assert!(symbols_reconstructable(&vec![255], 4_000_000));
    assert!(!symbols_reconstructable(&vec![255], 4_200_000));
    assert!(symbols_reconstructable(&vec![0, 0], i32::MAX));
}

#[test]
fn header_roundtrip() {
    let mut histogram = vec![0u32; 256];
    histogram[0] = 7;
    histogram[3] = 0x0102_0304;
    histogram[255] = u32::MAX;
    let payload = vec![9, 8, 7];
    let data = encode_compressed_bytes(0xA1B2_C3D4, &histogram, payload.clone());
    assert_eq!(data.len(), COMPRESSED_HEADER_LEN + 3);
    assert_eq!(&data[0..4], &[0xD4, 0xC3, 0xB2, 0xA1]);
    assert_eq!(&data[4..8], &[7, 0, 0, 0]);
    assert_eq!(&data[16..20], &[0x04, 0x03, 0x02, 0x01]);
    assert_eq!(&data[COMPRESSED_HEADER_LEN..], &payload[..]);
    let (orig_len, back) = decode_compressed_header(&data);
    assert_eq!(orig_len, 0xA1B2_C3D4);
    assert_eq!(back, histogram);
}

#[test]
fn assemble_frame_fields() {
    let histogram = vec![1u32; 256];
    let frame = assemble_compressed_frame(20, &histogram, vec![1, 2], 2, 10, 4);
    assert_eq!(frame.frame_count, 2);
    assert_eq!(frame.lpc_order, 10);
    assert_eq!(frame.quantizer_step, 4);
    assert_eq!(frame.quality, VoiceQuality::Medium);
    assert_eq!(frame.data.len(), COMPRESSED_HEADER_LEN + 2);
    assert!(!frame.is_empty());
    let (orig_len, back) = decode_compressed_header(&frame.data);
    assert_eq!(orig_len, 20);
    assert_eq!(back, histogram);
}

#[test]
fn split_frames_cuts_at_order_and_length() {
    let signal = vec![1, 2, 3, 4, 5, 6, 7, 8];
    let frames = split_lpc_frames(&signal, 3, 2, 6);
    assert_eq!(frames, vec![vec![1, 2], vec![3, 4], vec![5, 6]]);
    let frames = split_lpc_frames(&signal, 3, 2, 5);
    assert_eq!(frames, vec![vec![1, 2], vec![3, 4], vec![5]]);
    assert!(split_lpc_frames(&signal, 0, 2, 6).is_empty());
}

#[test]
fn estimated_bytes_per_frame() {
    assert_eq!(estimated_uncompressed_bytes(10, 10), 10 * 76);
    assert_eq!(estimated_uncompressed_bytes(0, 16), 0);
}

#[test]
fn histogram_counts_every_symbol() {
    let stream = prepare_lpc_signal(vec![100, -50, 25, 7, 3, 9, -9, 1, 0, 4], 2).unwrap();
    let total: u32 = stream.histogram.iter().sum();
    assert_eq!(total as usize, stream.symbols.len());
    assert_eq!(stream.symbols.len(), 16);
}

#[test]
fn unit_step_frames_come_back_whole() {
    // three frames of order 2, padded to 8 by the transform
    let frames = vec![vec![12, -7], vec![30, 4], vec![-16, 2]];
    let signal: Vec<i32> = frames.iter().flatten().copied().collect();
    let stream = prepare_lpc_signal(signal, 1).unwrap();
    let rebuilt = reconstruct_lpc_signal(&stream.symbols, 1);
    assert_eq!(rebuilt.len(), 8);
    let split = split_lpc_frames(&rebuilt, 3, 2, stream.orig_len as usize);
    assert_eq!(split, frames);
}

#[test]
fn zigzag_symbols_roundtrip_at_unit_step() {
    let coeffs: Vec<i32> = (-127..=127).collect();
    let stream = quantize_to_symbols(&coeffs, 1, coeffs.len() as u32).unwrap();
    assert!(stream.symbols.iter().all(|&s| s <= 254));
    assert_eq!(dequantize_symbols(&stream.symbols, 1), coeffs);
}

#[test]
fn quantizer_error_within_half_step() {
    for step in [2i32, 3, 7, 16] {
        let values: Vec<i32> = (-100 * step..=100 * step).step_by(3).collect();
        let stream = quantize_to_symbols(&values, step, values.len() as u32).unwrap();
        let back = dequantize_symbols(&stream.symbols, step);
        for (v, d) in values.iter().zip(back.iter()) {
            if v.abs() >= step {
                assert!((v - d).abs() <= step / 2, "step {step}: {v} -> {d}");
            } else {
                assert_eq!(*d, 0);
            }
        }
    }
}

#[test]
fn compress_then_decompress_at_unit_step() {
    let frames = vec![vec![12, -7], vec![30, 4], vec![-16, 2]];
    let signal: Vec<i32> = frames.iter().flatten().copied().collect();
    let c = compress_lpc_signal(signal, 3, 2, 1).unwrap();
    assert_eq!(c.frame_count, 3);
    assert_eq!(c.lpc_order, 2);
    assert_eq!(c.quantizer_step, 1);
    assert!(c.data.len() > COMPRESSED_HEADER_LEN);
    let (orig_len, histogram) = decode_compressed_header(&c.data);
    assert_eq!(orig_len, 6);
    assert_eq!(histogram.iter().sum::<u32>(), 8);
    assert_eq!(decompress_lpc_signal(&c).unwrap(), frames);
}

#[test]
fn compress_then_decompress_coarse_step() {
    let c = compress_lpc_signal(vec![10, 20, 30, 40, 50, 60, 70, 80], 2, 4, 4).unwrap();
    let back = decompress_lpc_signal(&c).unwrap();
    assert_eq!(back, vec![vec![10, 20, 30, 40], vec![50, 60, 71, 81]]);
}

#[test]
fn compress_without_frames_is_empty() {
    let c = compress_lpc_signal(vec![1, 2, 3], 0, 3, 4).unwrap();
    assert!(c.data.is_empty());
    assert_eq!(c.frame_count, 0);
    assert_eq!(c.lpc_order, 0);
    assert!(decompress_lpc_signal(&c).unwrap().is_empty());
}

#[test]
fn compress_rejects_symbol_overflow() {
    let r = compress_lpc_signal(vec![1000, 0, 0], 1, 3, 1);
    assert!(matches!(r, Err(VoiceError::SerializationError(_))));
}

#[test]
fn decompress_rejects_short_data_and_bad_layout() {
    let short = CodecCompressedFrame {
        data: vec![1, 2, 3],
        frame_count: 1,
        lpc_order: 2,
        quantizer_step: 1,
        quality: VoiceQuality::Medium,
    };
    assert!(matches!(
        decompress_lpc_signal(&short),
        Err(VoiceError::BufferTooSmall { need: 1028, got: 3 })
    ));
    let mut c = compress_lpc_signal(vec![12, -7, 30, 4, -16, 2], 3, 2, 1).unwrap();
    c.frame_count = 5;
    assert!(matches!(
        decompress_lpc_signal(&c),
        Err(VoiceError::SerializationError(_))
    ));
}

#[test]
fn rans_table_normalization() {
    assert!(rans_table_ok(&vec![0u32; 256]));
    let mut h = vec![0u32; 256];
    h[0] = 7;
    h[5] = 1;
    assert!(rans_table_ok(&h));
    // 20 rare symbols bumped to frequency 1 and 236 common ones whose
    // rounding leaves the largest count unable to absorb the excess.
    let mut bad = vec![0u32; 256];
    for v in bad.iter_mut().take(20) {
        *v = 1;
    }
    for (i, v) in bad.iter_mut().enumerate().skip(20) {
        *v = if i < 104 { 18000 } else { 17000 };
    }
    bad[255] = 16980;
    assert_eq!(bad.iter().map(|&c| c as u64).sum::<u64>(), 4_096_000);
    assert!(!rans_table_ok(&bad));
}
