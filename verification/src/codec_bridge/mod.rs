//! Wavelet and entropy-coder compression of LPC coefficient sequences.
//!
//! A sequence of LPC frames, flattened into one integer signal, is padded
//! with zeros to a power of two, transformed with the CDF 5/3 integer
//! wavelet, quantized, mapped to 8-bit zigzag symbols and counted into a
//! histogram. The symbols are then entropy coded with a table built from
//! that histogram, and the result is framed behind the signal length and the
//! histogram. Decompression reads the header back, dequantizes the decoded
//! symbols, inverts the wavelet and cuts the signal into frames again.
pub mod codec_calls;
pub mod framing;
pub mod wavelet;

use self::codec_calls::{
    cdf53_forward_in_place, cdf53_inverse_in_place, dequantize_coefficients, dequantized,
    in_symbol_range, quantize_coefficients, quantized, histogram_total, is_histogram_of,
    rans_decode, rans_decoded, rans_encode, rans_encoded, rans_table_normalizes, symbol_count,
    symbol_histogram, unzigzag_symbol, unzigzag_symbols, zigzag_symbol, zigzag_symbols,
};
use self::wavelet::{
    cdf53_forward, cdf53_inverse, law_cdf53_roundtrip, within_lifting_range, LIFTING_BOUND,
};
use self::framing::{
    compressed_bytes, decode_compressed_header, encode_compressed_bytes,
    law_compressed_bytes_roundtrip, le_u32_value, le_words, COMPRESSED_HEADER_LEN,
};
use self::codec_calls::{first_max_index, scaled_frequency, scaled_total};
use crate::types::{VoiceError, VoiceQuality};
use vstd::arithmetic::power2::{lemma2_to64, pow2};
use vstd::prelude::*;

verus! {

/// Compressed LPC frame sequence.
#[derive(Debug, Clone)]
pub struct CodecCompressedFrame {
    /// Signal length, histogram and entropy-coded symbols
    pub data: Vec<u8>,
    /// Number of frames in the sequence
    pub frame_count: usize,
    /// LPC order used
    pub lpc_order: usize,
    /// Quantizer step size
    pub quantizer_step: i32,
    /// Quality level
    pub quality: VoiceQuality,
}

/// The quantized wavelet symbols of a flattened LPC signal, ready for the
/// entropy coder.
#[derive(Debug, Clone)]
pub struct LpcSymbolStream {
    /// One zigzag symbol per (padded) wavelet coefficient
    pub symbols: Vec<u8>,
    /// How often each of the 256 symbols occurs
    pub histogram: Vec<u32>,
    /// Length of the signal before padding
    pub orig_len: u32,
}

/// The quantizer step actually used: steps below 1 count as 1.
pub open spec fn effective_step(step: i32) -> int {
    if step < 1 {
        1
    } else {
        step as int
    }
}

/// The smallest power of two that is at least `n` (1 for 0).
pub open spec fn next_pow2(n: nat) -> nat
    decreases n,
{
    if n <= 1 {
        1
    } else {
        2 * next_pow2(((n + 1) / 2) as nat)
    }
}

/// `signal` followed by zeros, `len` samples in all (`len` at least the
/// signal's length).
pub open spec fn zero_padded(signal: Seq<i32>, len: nat) -> Seq<i32> {
    Seq::new(len, |i: int| if i < signal.len() { signal[i] } else { 0i32 })
}

/// The wavelet coefficients of a signal zero-padded to a power of two.
pub open spec fn lpc_wavelet(signal: Seq<i32>) -> Seq<i32> {
    cdf53_forward(zero_padded(signal, next_pow2(signal.len())))
}

/// Every coefficient quantizes into the 8-bit symbol alphabet.
pub open spec fn symbols_encodable(step: int, coeffs: Seq<i32>) -> bool {
    forall|i: int| 0 <= i < coeffs.len() ==> in_symbol_range(#[trigger] quantized(step, coeffs[i] as int))
}

/// The zigzag symbols of the quantized coefficients.
pub open spec fn lpc_symbols(step: int, coeffs: Seq<i32>) -> Seq<u8> {
    Seq::new(coeffs.len(), |i: int| zigzag_symbol(quantized(step, coeffs[i] as int)) as u8)
}

/// The coefficient that a symbol stands for, dequantized with `step`.
pub open spec fn symbol_value(step: int, symbol: u8) -> int {
    dequantized(step, unzigzag_symbol(symbol as int))
}

/// Every dequantized symbol lies inside the lifting bound.
pub open spec fn reconstructable(step: int, symbols: Seq<u8>) -> bool {
    forall|i: int|
        0 <= i < symbols.len() ==> -LIFTING_BOUND < #[trigger] symbol_value(step, symbols[i])
            < LIFTING_BOUND
}

/// The dequantized coefficients of the symbols.
pub open spec fn dequantized_symbols(step: int, symbols: Seq<u8>) -> Seq<i32> {
    Seq::new(symbols.len(), |i: int| symbol_value(step, symbols[i]) as i32)
}

/// The end of frame `k`: one LPC order past its start, cut at `orig_len`.
pub open spec fn frame_end(k: int, lpc_order: int, orig_len: int) -> int {
    if k * lpc_order + lpc_order <= orig_len {
        k * lpc_order + lpc_order
    } else {
        orig_len
    }
}

proof fn lemma_next_pow2_bounds(n: nat, k: nat)
    requires
        n <= pow2(k),
    ensures
        n <= next_pow2(n) <= pow2(k),
        next_pow2(n) >= 1,
    decreases n,
{
    lemma2_to64();
    vstd::arithmetic::power2::lemma_pow2_pos(k);
    if n > 1 {
        let m: nat = ((n + 1) / 2) as nat;
        assert(next_pow2(n) == 2 * next_pow2(m));
        assert(k > 0);
        vstd::arithmetic::power2::lemma_pow2_unfold(k);
        assert(m <= pow2((k - 1) as nat));
        assert(2 * m >= n);
        lemma_next_pow2_bounds(m, (k - 1) as nat);
    }
}

/// The next power of two of `n`, as `usize::next_power_of_two` computes it.
pub fn padded_signal_len(n: u32) -> (p: u64)
    ensures
        p == next_pow2(n as nat),
        n <= p <= 0x1_0000_0000,
{
    proof {
        lemma2_to64();
        lemma_next_pow2_bounds(n as nat, 32);
    }
    next_pow2_u64(n as u64)
}

fn next_pow2_u64(n: u64) -> (p: u64)
    requires
        n <= 0x1_0000_0000,
    ensures
        p == next_pow2(n as nat),
    decreases n,
{
    proof {
        lemma2_to64();
        lemma_next_pow2_bounds(n as nat, 32);
    }
    if n <= 1 {
        1
    } else {
        let m: u64 = (n + 1) / 2;
        proof {
            lemma_next_pow2_bounds(m as nat, 31);
        }
        2 * next_pow2_u64(m)
    }
}

/// `signal` followed by zeros up to `len` samples.
pub fn zero_pad(signal: Vec<i32>, len: usize) -> (padded: Vec<i32>)
    requires
        signal.len() <= len,
    ensures
        padded@ == zero_padded(signal@, len as nat),
{
    let mut padded = signal;
    let ghost unpadded = padded@;
    while padded.len() < len
        invariant
            unpadded.len() <= padded.len() <= len,
            forall|i: int| 0 <= i < padded.len() ==> #[trigger] padded@[i] == (if i < unpadded.len() {
                unpadded[i]
            } else {
                0i32
            }),
        decreases len - padded.len(),
    {
        padded.push(0);
    }
    assert(padded@ =~= zero_padded(unpadded, len as nat));
    padded
}

/// Whether every sample lies inside the lifting bound, where the wavelet
/// transform cannot overflow.
pub fn signal_within_lifting_range(signal: &Vec<i32>) -> (ok: bool)
    ensures
        ok == within_lifting_range(signal@),
{
    let mut i: usize = 0;
    while i < signal.len()
        invariant
            i <= signal.len(),
            forall|j: int| 0 <= j < i ==> -LIFTING_BOUND < #[trigger] signal@[j] < LIFTING_BOUND,
        decreases signal.len() - i,
    {
        if signal[i] <= -LIFTING_BOUND || signal[i] >= LIFTING_BOUND {
            return false;
        }
        i = i + 1;
    }
    true
}

/// Quantizes wavelet coefficients with the step (at least 1), maps them to
/// zigzag symbols and counts the symbols. Fails when a quantized coefficient
/// does not fit the 8-bit symbol alphabet.
pub fn quantize_to_symbols(coeffs: &Vec<i32>, quantizer_step: i32, orig_len: u32) -> (r: Result<
    LpcSymbolStream,
    VoiceError,
>)
    requires
        coeffs.len() <= u32::MAX,
        forall|i: int| 0 <= i < coeffs.len() ==> #[trigger] coeffs[i] != i32::MIN,
    ensures
        r is Ok <==> symbols_encodable(effective_step(quantizer_step), coeffs@),
        match r {
            Ok(stream) => {
                &&& stream.orig_len == orig_len
                &&& stream.symbols@ == lpc_symbols(effective_step(quantizer_step), coeffs@)
                &&& is_histogram_of(stream.histogram@, stream.symbols@)
            },
            Err(e) => e is SerializationError,
        },
{
    let step: i32 = if quantizer_step < 1 {
        1
    } else {
        quantizer_step
    };
    let quantized_coeffs = match quantize_coefficients(step, coeffs) {
        Ok(q) => q,
        Err(_) => {
            return Err(VoiceError::SerializationError("quantizer rejected its buffers".to_owned()));
        },
    };
    let ghost qs = quantized_coeffs@;
    assert forall|i: int| 0 <= i < coeffs.len() implies #[trigger] quantized(
        step as int,
        coeffs@[i] as int,
    ) == qs[i] as int by {}
    match zigzag_symbols(&quantized_coeffs) {
        Ok(symbols) => {
            let histogram = symbol_histogram(&symbols);
            proof {
                assert(symbols@ =~= lpc_symbols(step as int, coeffs@));
                assert forall|i: int| 0 <= i < coeffs.len() implies in_symbol_range(
                    #[trigger] quantized(step as int, coeffs@[i] as int),
                ) by {
                    assert(in_symbol_range(quantized_coeffs@[i] as int));
                }
            }
            Ok(LpcSymbolStream { symbols, histogram, orig_len })
        },
        Err(_) => {
            proof {
                assert(!symbols_encodable(step as int, coeffs@)) by {
                    let i: int = choose|i: int|
                        0 <= i < quantized_coeffs.len() && !in_symbol_range(
                            #[trigger] quantized_coeffs@[i] as int,
                        );
                    assert(quantized(step as int, coeffs@[i] as int) == qs[i] as int);
                }
            }
            Err(
                VoiceError::SerializationError(
                    "quantized coefficient exceeds the 8-bit symbol alphabet".to_owned(),
                ),
            )
        },
    }
}

proof fn lemma_unit_step_lossless(q: int)
    requires
        in_symbol_range(q),
    ensures
        quantized(1, q) == q,
        0 <= zigzag_symbol(q) <= 254,
        unzigzag_symbol(zigzag_symbol(q)) == q,
        dequantized(1, q) == q,
{
}

/// Pads the flattened LPC signal to a power of two, transforms it with the
/// CDF 5/3 wavelet and turns the coefficients into symbols (see
/// `quantize_to_symbols`). With a step of at most 1 nothing is lost: the
/// dequantized symbols transform back into the padded signal.
pub fn prepare_lpc_signal(signal: Vec<i32>, quantizer_step: i32) -> (r: Result<
    LpcSymbolStream,
    VoiceError,
>)
    requires
        signal.len() <= 0x8000_0000,
        within_lifting_range(signal@),
    ensures
        lpc_wavelet(signal@).len() == next_pow2(signal.len() as nat),
        r is Ok <==> symbols_encodable(effective_step(quantizer_step), lpc_wavelet(signal@)),
        match r {
            Ok(stream) => {
                &&& stream.orig_len == signal.len()
                &&& stream.symbols@ == lpc_symbols(
                    effective_step(quantizer_step),
                    lpc_wavelet(signal@),
                )
                &&& is_histogram_of(stream.histogram@, stream.symbols@)
                &&& quantizer_step <= 1 ==> cdf53_inverse(dequantized_symbols(1, stream.symbols@))
                    == zero_padded(signal@, next_pow2(signal.len() as nat))
            },
            Err(e) => e is SerializationError,
        },
{
    let orig_len: u32 = signal.len() as u32;
    proof {
        lemma2_to64();
        lemma_next_pow2_bounds(signal.len() as nat, 31);
    }
    let padded_len: usize = padded_signal_len(orig_len) as usize;
    let ghost plen = next_pow2(signal.len() as nat);
    let ghost unpadded = signal@;
    let mut coeffs = zero_pad(signal, padded_len);
    proof {
        assert forall|i: int| 0 <= i < coeffs.len() implies -LIFTING_BOUND < #[trigger] coeffs@[i]
            < LIFTING_BOUND by {
            if i < unpadded.len() {
                assert(-LIFTING_BOUND < unpadded[i] < LIFTING_BOUND);
            }
        }
    }
    let ghost padded = coeffs@;
    proof {
        law_cdf53_roundtrip(padded);
    }
    cdf53_forward_in_place(&mut coeffs);
    let r = quantize_to_symbols(&coeffs, quantizer_step, orig_len);
    proof {
        if r is Ok && quantizer_step <= 1 {
            {
                let d = dequantized_symbols(1, r->Ok_0.symbols@);
                assert forall|i: int| 0 <= i < coeffs.len() implies d[i] == #[trigger] coeffs@[i] by {
                    assert(in_symbol_range(quantized(1, coeffs@[i] as int)));
                    lemma_unit_step_lossless(coeffs@[i] as int);
                }
                assert(d =~= coeffs@);
            }
        }
    }
    r
}

/// Frames the entropy-coded payload behind the signal length and histogram.
pub fn assemble_compressed_frame(
    orig_len: u32,
    histogram: &Vec<u32>,
    payload: Vec<u8>,
    frame_count: usize,
    lpc_order: usize,
    quantizer_step: i32,
) -> (frame: CodecCompressedFrame)
    ensures
        frame.data@ == compressed_bytes(orig_len, histogram@, payload@),
        frame.frame_count == frame_count,
        frame.lpc_order == lpc_order,
        frame.quantizer_step == quantizer_step,
        frame.quality == VoiceQuality::Medium,
{
    CodecCompressedFrame {
        data: encode_compressed_bytes(orig_len, histogram, payload),
        frame_count,
        lpc_order,
        quantizer_step,
        quality: VoiceQuality::Medium,
    }
}

/// At a unit step the symbol path is lossless: wherever every coefficient
/// fits the symbol alphabet, dequantizing its symbols gives the coefficients
/// back.
pub proof fn law_unit_step_symbols_lossless(coeffs: Seq<i32>)
    requires
        symbols_encodable(1, coeffs),
    ensures
        dequantized_symbols(1, lpc_symbols(1, coeffs)) == coeffs,
{
    let d = dequantized_symbols(1, lpc_symbols(1, coeffs));
    assert forall|i: int| 0 <= i < coeffs.len() implies d[i] == #[trigger] coeffs[i] by {
        assert(in_symbol_range(quantized(1, coeffs[i] as int)));
        lemma_unit_step_lossless(coeffs[i] as int);
    }
    assert(d =~= coeffs);
}

/// Zigzag symbols are undone by their inverse: every coefficient of the
/// 8-bit alphabet has a symbol in `0..=254`, which maps back to it.
pub proof fn law_zigzag_roundtrip(c: int)
    requires
        in_symbol_range(c),
    ensures
        0 <= zigzag_symbol(c) <= 254,
        unzigzag_symbol(zigzag_symbol(c)) == c,
{
}

/// The quantizer's error bound: outside the dead zone a value is
/// reconstructed within half a step; inside it, it becomes 0.
pub proof fn law_quantizer_error_bound(step: int, v: int)
    requires
        step >= 1,
    ensures
        (v <= -step || step <= v) ==> {
            let e: int = v - dequantized(step, quantized(step, v));
            -(step / 2) <= e <= step / 2
        },
        -step < v < step ==> dequantized(step, quantized(step, v)) == 0,
{
    let a: int = if v < 0 {
        -v
    } else {
        v
    };
    if a >= step {
        let q: int = 1 + (a - step) / step;
        assert(q >= 1);
        assert(q * step <= a < q * step + step) by (nonlinear_arith)
            requires
                q == 1 + (a - step) / step,
                a >= step,
                step >= 1,
        ;
        assert(step + (q - 1) * step == q * step) by (nonlinear_arith);
    }
}

/// Splitting the zero-padded reconstruction of `frame_count` frames of
/// `lpc_order` coefficients at the unpadded length gives every frame back
/// whole, and the split stays inside the padded signal.
pub proof fn law_split_recovers_frames(
    signal: Seq<i32>,
    frame_count: nat,
    lpc_order: nat,
    padded_len: nat,
)
    requires
        signal.len() == frame_count * lpc_order,
        padded_len >= signal.len(),
    ensures
        forall|k: int|
            0 <= k < frame_count ==> {
                &&& k * lpc_order <= #[trigger] frame_end(k, lpc_order as int, signal.len() as int)
                    <= padded_len
                &&& zero_padded(signal, padded_len).subrange(
                    k * lpc_order,
                    frame_end(k, lpc_order as int, signal.len() as int),
                ) == signal.subrange(k * lpc_order, k * lpc_order + lpc_order)
            },
{
    assert forall|k: int| 0 <= k < frame_count implies {
        &&& k * lpc_order <= #[trigger] frame_end(k, lpc_order as int, signal.len() as int)
            <= padded_len
        &&& zero_padded(signal, padded_len).subrange(
            k * lpc_order,
            frame_end(k, lpc_order as int, signal.len() as int),
        ) == signal.subrange(k * lpc_order, k * lpc_order + lpc_order)
    } by {
        assert(k * lpc_order + lpc_order <= frame_count * lpc_order) by (nonlinear_arith)
            requires
                0 <= k < frame_count,
        ;
        assert(0 <= k * lpc_order) by (nonlinear_arith)
            requires
                0 <= k,
        ;
        assert(zero_padded(signal, padded_len).subrange(k * lpc_order, k * lpc_order + lpc_order)
            =~= signal.subrange(k * lpc_order, k * lpc_order + lpc_order));
    }
}

spec fn counts_below(s: Seq<u8>, n: int) -> int
    decreases n,
{
    if n <= 0 {
        0
    } else {
        counts_below(s, n - 1) + symbol_count(s, n - 1)
    }
}

proof fn lemma_counts_below_empty(s: Seq<u8>, n: int)
    requires
        s.len() == 0,
    ensures
        counts_below(s, n) == 0,
    decreases n,
{
    if n > 0 {
        lemma_counts_below_empty(s, n - 1);
    }
}

proof fn lemma_counts_below_step(s: Seq<u8>, n: int)
    requires
        s.len() > 0,
    ensures
        counts_below(s, n) == counts_below(s.drop_last(), n) + if 0 <= s.last() < n {
            1int
        } else {
            0int
        },
    decreases n,
{
    if n > 0 {
        lemma_counts_below_step(s, n - 1);
    }
}

proof fn lemma_counts_below_all(s: Seq<u8>)
    ensures
        counts_below(s, 256) == s.len(),
    decreases s.len(),
{
    if s.len() == 0 {
        lemma_counts_below_empty(s, 256);
    } else {
        lemma_counts_below_all(s.drop_last());
        lemma_counts_below_step(s, 256);
    }
}

/// The histogram of a symbol sequence counts every symbol exactly once: its
/// counts add up to the number of symbols.
pub proof fn law_histogram_counts_every_symbol(histogram: Seq<u32>, symbols: Seq<u8>)
    requires
        is_histogram_of(histogram, symbols),
    ensures
        histogram_total(histogram, 256) == symbols.len(),
{
    assert forall|n: int| 0 <= n <= 256 implies #[trigger] histogram_total(histogram, n)
        == counts_below(symbols, n) by {
        lemma_histogram_prefix(histogram, symbols, n);
    }
    lemma_counts_below_all(symbols);
}

proof fn lemma_histogram_prefix(histogram: Seq<u32>, symbols: Seq<u8>, n: int)
    requires
        is_histogram_of(histogram, symbols),
        0 <= n <= 256,
    ensures
        histogram_total(histogram, n) == counts_below(symbols, n),
    decreases n,
{
    if n > 0 {
        lemma_histogram_prefix(histogram, symbols, n - 1);
        assert(histogram[n - 1] == symbol_count(symbols, n - 1));
    }
}

/// The coefficient that a symbol stands for, computed with `step >= 1`.
fn symbol_value_exec(step: i32, symbol: u8) -> (v: i64)
    requires
        step >= 1,
    ensures
        v == symbol_value(step as int, symbol),
{
    if symbol == 0 {
        return 0;
    }
    let st: u64 = step as u64;
    let negative = symbol % 2 == 0;
    let a: u64 = if negative {
        symbol as u64 / 2
    } else {
        (symbol as u64 + 1) / 2
    };
    assert(1 <= a <= 128);
    assert((a - 1) * st <= 127 * 0x8000_0000) by (nonlinear_arith)
        requires
            1 <= a <= 128,
            st <= 0x8000_0000,
    ;
    let mag: u64 = st + (a - 1) * st + st / 2;
    if negative {
        -(mag as i64)
    } else {
        mag as i64
    }
}

/// Whether every decoded symbol dequantizes inside the lifting bound, so
/// that the inverse wavelet cannot overflow.
pub fn symbols_reconstructable(symbols: &Vec<u8>, quantizer_step: i32) -> (ok: bool)
    ensures
        ok == reconstructable(effective_step(quantizer_step), symbols@),
{
    let step: i32 = if quantizer_step < 1 {
        1
    } else {
        quantizer_step
    };
    let mut i: usize = 0;
    while i < symbols.len()
        invariant
            i <= symbols.len(),
            step as int == effective_step(quantizer_step),
            forall|j: int|
                0 <= j < i ==> -LIFTING_BOUND < #[trigger] symbol_value(step as int, symbols@[j])
                    < LIFTING_BOUND,
        decreases symbols.len() - i,
    {
        let v: i64 = symbol_value_exec(step, symbols[i]);
        if v <= -(LIFTING_BOUND as i64) || v >= LIFTING_BOUND as i64 {
            return false;
        }
        i = i + 1;
    }
    true
}

/// Maps decoded symbols back to coefficients and dequantizes them with the
/// step (at least 1).
pub fn dequantize_symbols(symbols: &Vec<u8>, quantizer_step: i32) -> (coeffs: Vec<i32>)
    requires
        reconstructable(effective_step(quantizer_step), symbols@),
    ensures
        coeffs@ == dequantized_symbols(effective_step(quantizer_step), symbols@),
{
    let step: i32 = if quantizer_step < 1 {
        1
    } else {
        quantizer_step
    };
    let q = match unzigzag_symbols(symbols) {
        Ok(q) => q,
        Err(_) => unreached(),
    };
    assert forall|i: int| 0 <= i < q.len() implies #[trigger] q[i] != i32::MIN
        && i32::MIN < dequantized(step as int, q[i] as int) <= i32::MAX by {
        assert(-LIFTING_BOUND < symbol_value(step as int, symbols@[i]) < LIFTING_BOUND);
    }
    let coeffs = match dequantize_coefficients(step, &q) {
        Ok(c) => c,
        Err(_) => unreached(),
    };
    proof {
        assert forall|i: int| 0 <= i < symbols.len() implies #[trigger] coeffs@[i]
            == dequantized_symbols(step as int, symbols@)[i] by {
            assert(-LIFTING_BOUND < symbol_value(step as int, symbols@[i]) < LIFTING_BOUND);
        }
        assert(coeffs@ =~= dequantized_symbols(step as int, symbols@));
    }
    coeffs
}

/// Dequantizes the decoded symbols and inverts the CDF 5/3 wavelet,
/// giving back the padded LPC signal (exactly at a unit step).
pub fn reconstruct_lpc_signal(symbols: &Vec<u8>, quantizer_step: i32) -> (signal: Vec<i32>)
    requires
        reconstructable(effective_step(quantizer_step), symbols@),
    ensures
        signal@ == cdf53_inverse(dequantized_symbols(effective_step(quantizer_step), symbols@)),
        signal@.len() == symbols@.len(),
        forall|p: Seq<i32>|
            #![trigger cdf53_forward(p)]
            within_lifting_range(p) && dequantized_symbols(effective_step(quantizer_step), symbols@)
                == cdf53_forward(p) ==> signal@ == p,
{
    let mut coeffs = dequantize_symbols(symbols, quantizer_step);
    proof {
        let step: int = effective_step(quantizer_step);
        assert forall|i: int| 0 <= i < coeffs.len() implies -LIFTING_BOUND < #[trigger] coeffs@[i]
            < LIFTING_BOUND by {
            assert(-LIFTING_BOUND < symbol_value(step, symbols@[i]) < LIFTING_BOUND);
        }
    }
    let ghost d = coeffs@;
    cdf53_inverse_in_place(&mut coeffs);
    proof {
        assert forall|p: Seq<i32>|
            #![trigger cdf53_forward(p)]
            within_lifting_range(p) && d == cdf53_forward(p) implies coeffs@ == p by {
            law_cdf53_roundtrip(p);
        }
    }
    coeffs
}

fn copy_range(signal: &Vec<i32>, start: usize, end: usize) -> (out: Vec<i32>)
    requires
        start <= end <= signal.len(),
    ensures
        out@ == signal@.subrange(start as int, end as int),
{
    let mut out: Vec<i32> = Vec::new();
    let mut i: usize = start;
    while i < end
        invariant
            start <= i <= end <= signal.len(),
            out@ == signal@.subrange(start as int, i as int),
        decreases end - i,
    {
        out.push(signal[i]);
        proof {
            assert(out@ =~= signal@.subrange(start as int, i + 1));
        }
        i = i + 1;
    }
    out
}

/// Cuts the reconstructed signal into frames of `lpc_order` coefficients;
/// frame `k` starts at `k * lpc_order` and stops there plus the order, or at
/// `orig_len` if that comes first.
pub fn split_lpc_frames(signal: &Vec<i32>, frame_count: usize, lpc_order: usize, orig_len: usize) -> (frames: Vec<Vec<i32>>)
    requires
        frame_count * lpc_order <= usize::MAX,
        forall|k: int|
            0 <= k < frame_count ==> k * lpc_order <= #[trigger] frame_end(
                k,
                lpc_order as int,
                orig_len as int,
            ) <= signal.len(),
    ensures
        frames.len() == frame_count,
        forall|k: int|
            0 <= k < frame_count ==> #[trigger] frames[k]@ == signal@.subrange(
                k * lpc_order,
                frame_end(k, lpc_order as int, orig_len as int),
            ),
{
    let mut frames: Vec<Vec<i32>> = Vec::new();
    let mut k: usize = 0;
    while k < frame_count
        invariant
            k <= frame_count,
            frame_count * lpc_order <= usize::MAX,
            frames.len() == k,
            forall|j: int|
                0 <= j < frame_count ==> j * lpc_order <= #[trigger] frame_end(
                    j,
                    lpc_order as int,
                    orig_len as int,
                ) <= signal.len(),
            forall|j: int|
                0 <= j < k ==> #[trigger] frames[j]@ == signal@.subrange(
                    j * lpc_order,
                    frame_end(j, lpc_order as int, orig_len as int),
                ),
        decreases frame_count - k,
    {
        assert((k + 1) * lpc_order <= frame_count * lpc_order) by (nonlinear_arith)
            requires
                k < frame_count,
        ;
        assert((k + 1) * lpc_order == k * lpc_order + lpc_order) by (nonlinear_arith);
        let start: usize = k * lpc_order;
        let end: usize = if start + lpc_order <= orig_len {
            start + lpc_order
        } else {
            orig_len
        };
        assert(end == frame_end(k as int, lpc_order as int, orig_len as int));
        let frame = copy_range(signal, start, end);
        frames.push(frame);
        k = k + 1;
    }
    frames
}

/// Bytes that the uncompressed parameters of the frames take: the
/// coefficients at four bytes each plus 36 bytes of pitch, formants and
/// activity per frame.
pub fn estimated_uncompressed_bytes(frame_count: usize, lpc_order: usize) -> (bytes: usize)
    requires
        lpc_order * 4 + 36 <= usize::MAX,
        frame_count * (lpc_order * 4 + 36) <= usize::MAX,
    ensures
        bytes == frame_count * (lpc_order * 4 + 36),
{
    let per_frame: usize = lpc_order * 4 + 36;
    frame_count * per_frame
}

/// The histogram of a symbol sequence: how often each of the 256 symbols
/// occurs.
pub open spec fn histogram_of(symbols: Seq<u8>) -> Seq<u32> {
    Seq::new(256, |k: int| symbol_count(symbols, k) as u32)
}

proof fn lemma_histogram_of(histogram: Seq<u32>, symbols: Seq<u8>)
    requires
        is_histogram_of(histogram, symbols),
    ensures
        histogram == histogram_of(symbols),
{
    assert(histogram =~= histogram_of(symbols));
}

/// Whether the rANS frequency table built from a 256-count histogram is
/// normalized (see `rans_table_normalizes`), computed as
/// `FrequencyTable::from_histogram` computes it.
pub fn rans_table_ok(histogram: &Vec<u32>) -> (ok: bool)
    requires
        histogram@.len() == 256,
    ensures
        ok == rans_table_normalizes(histogram@),
{
    let n: usize = histogram.len();
    let ghost h = histogram@;
    let mut total: u64 = 0;
    let mut i: usize = 0;
    while i < n
        invariant
            i <= n,
            n == 256,
            h == histogram@,
            h.len() == n,
            total == histogram_total(h, i as int),
            total <= i * 0xFFFF_FFFF,
        decreases n - i,
    {
        total = total + histogram[i] as u64;
        i = i + 1;
    }
    if total == 0 {
        return true;
    }
    let mut sum: u64 = 0;
    let mut argmax: usize = 0;
    let mut argmax_freq: u64 = 0;
    i = 0;
    while i < n
        invariant
            i <= n,
            n == 256,
            h == histogram@,
            h.len() == n,
            total == histogram_total(h, n as int),
            total >= 1,
            sum == scaled_total(h, i as int),
            sum <= i * 0x1000_0000_0000,
            argmax < n,
            argmax == first_max_index(h, i as int),
            i > 0 ==> argmax_freq == scaled_frequency(h, argmax as int),
            i == 0 ==> argmax == 0,
        decreases n - i,
    {
        let c: u64 = histogram[i] as u64;
        assert((c as int) * 4096 / (total as int) <= (c as int) * 4096) by (nonlinear_arith)
            requires
                total >= 1,
                c >= 0,
        ;
        let f: u64 = if c == 0 {
            0
        } else {
            let q: u64 = c * 4096 / total;
            if q < 1 {
                1
            } else {
                q
            }
        };
        assert(f == scaled_frequency(h, i as int));
        sum = sum + f;
        if i == 0 || histogram[i] > histogram[argmax] {
            argmax = i;
            argmax_freq = f;
        }
        i = i + 1;
    }
    argmax_freq + 4096 >= sum + 1
}

/// Compresses a flattened LPC signal of `frame_count` frames of `lpc_order`
/// coefficients: no frames give the empty sequence; otherwise the signal's
/// symbols (see `prepare_lpc_signal`) are entropy coded with the rANS coder
/// under a table built from their histogram, and framed behind the signal
/// length and the histogram. Fails when a quantized coefficient does not fit
/// the symbol alphabet or the histogram does not give a normalized table.
pub fn compress_lpc_signal(
    signal: Vec<i32>,
    frame_count: usize,
    lpc_order: usize,
    quantizer_step: i32,
) -> (r: Result<CodecCompressedFrame, VoiceError>)
    requires
        signal.len() <= 0x8000_0000,
        within_lifting_range(signal@),
    ensures
        frame_count == 0 ==> r is Ok && r->Ok_0.data@.len() == 0 && r->Ok_0.frame_count == 0
            && r->Ok_0.lpc_order == 0 && r->Ok_0.quantizer_step == quantizer_step
            && r->Ok_0.quality == VoiceQuality::Medium,
        frame_count > 0 ==> (r is Ok <==> symbols_encodable(
            effective_step(quantizer_step),
            lpc_wavelet(signal@),
        ) && rans_table_normalizes(
            histogram_of(lpc_symbols(effective_step(quantizer_step), lpc_wavelet(signal@))),
        )),
        frame_count > 0 ==> lpc_wavelet(signal@).len() == next_pow2(signal.len() as nat),
        frame_count > 0 && r is Ok ==> ({
            let symbols = lpc_symbols(effective_step(quantizer_step), lpc_wavelet(signal@));
            let h = histogram_of(symbols);
            let f = r->Ok_0;
            &&& f.data@ == compressed_bytes(signal.len() as u32, h, rans_encoded(symbols, h))
            &&& f.frame_count == frame_count
            &&& f.lpc_order == lpc_order
            &&& f.quantizer_step == quantizer_step
            &&& f.quality == VoiceQuality::Medium
        }),
        r is Err ==> r->Err_0 is SerializationError,
{
    if frame_count == 0 {
        return Ok(CodecCompressedFrame::empty(quantizer_step));
    }
    let ghost sig = signal@;
    let stream = match prepare_lpc_signal(signal, quantizer_step) {
        Ok(stream) => stream,
        Err(e) => {
            return Err(e);
        },
    };
    proof {
        lemma_histogram_of(stream.histogram@, stream.symbols@);
    }
    if !rans_table_ok(&stream.histogram) {
        return Err(
            VoiceError::SerializationError(
                "symbol histogram gives no normalized frequency table".to_owned(),
            ),
        );
    }
    let payload = rans_encode(&stream.symbols, &stream.histogram);
    Ok(
        assemble_compressed_frame(
            stream.orig_len,
            &stream.histogram,
            payload,
            frame_count,
            lpc_order,
            quantizer_step,
        ),
    )
}

/// The signal length stored in front of a compressed sequence.
pub open spec fn header_orig_len(data: Seq<u8>) -> nat {
    le_u32_value(data.subrange(0, 4)) as nat
}

/// The histogram stored in front of a compressed sequence.
pub open spec fn header_histogram(data: Seq<u8>) -> Seq<u32> {
    le_words(data.subrange(4, COMPRESSED_HEADER_LEN as int))
}

/// The entropy-coded symbols behind the header.
pub open spec fn payload_of(data: Seq<u8>) -> Seq<u8> {
    data.subrange(COMPRESSED_HEADER_LEN as int, data.len() as int)
}

/// The symbols that the rANS decoder reads from a compressed sequence: one
/// per sample of the padded signal.
pub open spec fn decoded_symbols(data: Seq<u8>) -> Seq<u8> {
    rans_decoded(payload_of(data), header_histogram(data), next_pow2(header_orig_len(data)))
}

/// The padded signal reconstructed from a compressed sequence.
pub open spec fn decoded_signal(c: CodecCompressedFrame) -> Seq<i32> {
    cdf53_inverse(dequantized_symbols(effective_step(c.quantizer_step), decoded_symbols(c.data@)))
}

/// `frame_count` frames of `lpc_order` coefficients all start within the
/// stored signal length, and their total size fits `usize`.
pub open spec fn frames_fit(frame_count: int, lpc_order: int, orig_len: int) -> bool {
    &&& frame_count * lpc_order <= usize::MAX
    &&& (frame_count == 0 || (frame_count - 1) * lpc_order <= orig_len)
}

/// A non-empty compressed sequence can be decompressed: it holds its header,
/// its histogram gives a normalized table, its padded length fits, its
/// decoded symbols dequantize inside the lifting bound, and its frames fit
/// the stored signal length.
pub open spec fn decompressible(c: CodecCompressedFrame) -> bool {
    &&& c.data@.len() >= COMPRESSED_HEADER_LEN
    &&& rans_table_normalizes(header_histogram(c.data@))
    &&& next_pow2(header_orig_len(c.data@)) <= isize::MAX
    &&& reconstructable(effective_step(c.quantizer_step), decoded_symbols(c.data@))
    &&& frames_fit(c.frame_count as int, c.lpc_order as int, header_orig_len(c.data@) as int)
}

/// `c` is what `compress_lpc_signal` makes of `signal` at a unit step:
/// frames of `c.lpc_order` coefficients, the wavelet symbols encodable and
/// their histogram normalized, and the data the framed rANS encoding of the
/// symbols (signals up to 2^30 samples, whose padded length fits `isize`).
pub open spec fn compressed_at_unit_step(c: CodecCompressedFrame, signal: Seq<i32>) -> bool {
    let symbols = lpc_symbols(1, lpc_wavelet(signal));
    let h = histogram_of(symbols);
    &&& c.quantizer_step <= 1
    &&& c.frame_count > 0
    &&& signal.len() == c.frame_count * c.lpc_order
    &&& signal.len() <= 0x4000_0000
    &&& within_lifting_range(signal)
    &&& lpc_wavelet(signal).len() == next_pow2(signal.len())
    &&& symbols_encodable(1, lpc_wavelet(signal))
    &&& rans_table_normalizes(h)
    &&& c.data@ == compressed_bytes(signal.len() as u32, h, rans_encoded(symbols, h))
}

proof fn lemma_symbol_count_bound(s: Seq<u8>, k: int)
    ensures
        symbol_count(s, k) <= s.len(),
    decreases s.len(),
{
    if s.len() > 0 {
        lemma_symbol_count_bound(s.drop_last(), k);
    }
}

proof fn lemma_compressed_at_unit_step(c: CodecCompressedFrame, signal: Seq<i32>)
    requires
        compressed_at_unit_step(c, signal),
    ensures
        ({
            let symbols = lpc_symbols(1, lpc_wavelet(signal));
            let h = histogram_of(symbols);
            let np = next_pow2(signal.len());
            &&& c.data@.len() >= COMPRESSED_HEADER_LEN
            &&& header_orig_len(c.data@) == signal.len()
            &&& header_histogram(c.data@) == h
            &&& payload_of(c.data@) == rans_encoded(symbols, h)
            &&& symbols.len() == np
            &&& np <= 0x4000_0000
            &&& is_histogram_of(h, symbols)
            &&& reconstructable(1, symbols)
            &&& dequantized_symbols(1, symbols) == lpc_wavelet(signal)
            &&& within_lifting_range(zero_padded(signal, np))
            &&& frames_fit(c.frame_count as int, c.lpc_order as int, signal.len() as int)
            &&& effective_step(c.quantizer_step) == 1
        }),
{
    let symbols = lpc_symbols(1, lpc_wavelet(signal));
    let h = histogram_of(symbols);
    let np = next_pow2(signal.len());
    let payload = rans_encoded(symbols, h);
    lemma2_to64();
    lemma_next_pow2_bounds(signal.len(), 30);
    law_compressed_bytes_roundtrip(signal.len() as u32, h, payload);
    assert(c.data@.subrange(
        COMPRESSED_HEADER_LEN as int,
        COMPRESSED_HEADER_LEN + payload.len(),
    ) =~= payload_of(c.data@));
    assert forall|k: int| 0 <= k < 256 implies #[trigger] h[k] == symbol_count(symbols, k) by {
        lemma_symbol_count_bound(symbols, k);
    }
    let w = lpc_wavelet(signal);
    assert forall|i: int| 0 <= i < symbols.len() implies -LIFTING_BOUND < #[trigger] symbol_value(
        1,
        symbols[i],
    ) < LIFTING_BOUND && symbol_value(1, symbols[i]) == w[i] by {
        assert(in_symbol_range(quantized(1, w[i] as int)));
        lemma_unit_step_lossless(w[i] as int);
    }
    assert(dequantized_symbols(1, symbols) =~= w);
    let p = zero_padded(signal, np);
    assert forall|i: int| 0 <= i < p.len() implies -LIFTING_BOUND < #[trigger] p[i]
        < LIFTING_BOUND by {
        if i < signal.len() {
            assert(-LIFTING_BOUND < signal[i] < LIFTING_BOUND);
        }
    }
    let fc = c.frame_count as int;
    let order = c.lpc_order as int;
    assert((fc - 1) * order <= fc * order) by (nonlinear_arith)
        requires
            fc >= 1,
            order >= 0,
    ;
}

/// What `compress_lpc_signal` returns at a unit step for a signal of whole
/// frames is compressed at a unit step: its `Ok` result, with the frame
/// count and order it was given, meets `compressed_at_unit_step`.
pub proof fn law_compress_output_is_unit_step(
    c: CodecCompressedFrame,
    signal: Seq<i32>,
    frame_count: usize,
    lpc_order: usize,
    quantizer_step: i32,
)
    requires
        quantizer_step <= 1,
        frame_count > 0,
        signal.len() == frame_count * lpc_order,
        signal.len() <= 0x4000_0000,
        within_lifting_range(signal),
        lpc_wavelet(signal).len() == next_pow2(signal.len()),
        symbols_encodable(effective_step(quantizer_step), lpc_wavelet(signal)),
        rans_table_normalizes(
            histogram_of(lpc_symbols(effective_step(quantizer_step), lpc_wavelet(signal))),
        ),
        c.data@ == compressed_bytes(
            signal.len() as u32,
            histogram_of(lpc_symbols(effective_step(quantizer_step), lpc_wavelet(signal))),
            rans_encoded(
                lpc_symbols(effective_step(quantizer_step), lpc_wavelet(signal)),
                histogram_of(lpc_symbols(effective_step(quantizer_step), lpc_wavelet(signal))),
            ),
        ),
        c.frame_count == frame_count,
        c.lpc_order == lpc_order,
        c.quantizer_step == quantizer_step,
    ensures
        compressed_at_unit_step(c, signal),
{
}

fn tail_bytes(data: &Vec<u8>, start: usize) -> (out: Vec<u8>)
    requires
        start <= data.len(),
    ensures
        out@ == data@.subrange(start as int, data.len() as int),
{
    let mut out: Vec<u8> = Vec::new();
    let mut i: usize = start;
    while i < data.len()
        invariant
            start <= i <= data.len(),
            out@ == data@.subrange(start as int, i as int),
        decreases data.len() - i,
    {
        out.push(data[i]);
        proof {
            assert(out@ =~= data@.subrange(start as int, i + 1));
        }
        i = i + 1;
    }
    out
}

/// Decompresses a compressed LPC sequence into its frames: an empty sequence
/// gives no frames; otherwise the header is read, the payload rANS-decoded
/// into one symbol per padded sample, the symbols dequantized and the wavelet
/// inverted, and the signal cut into `frame_count` frames of `lpc_order`
/// coefficients, each stopped at the stored signal length. Fails, with
/// `BufferTooSmall` on data shorter than the header and with
/// `SerializationError` otherwise, where the sequence is not decompressible.
/// A payload that is the rANS encoding of the padded symbols counted by the
/// stored histogram decodes back to those symbols, and a sequence compressed
/// at a unit step from a signal of whole frames (`compressed_at_unit_step`)
/// decompresses to exactly those frames.
pub fn decompress_lpc_signal(c: &CodecCompressedFrame) -> (r: Result<Vec<Vec<i32>>, VoiceError>)
    ensures
        (c.data@.len() == 0 || c.frame_count == 0) ==> r is Ok && r->Ok_0.len() == 0,
        (c.data@.len() > 0 && c.frame_count > 0) ==> (r is Ok <==> decompressible(*c)),
        (c.data@.len() > 0 && c.frame_count > 0 && r is Ok) ==> ({
            let frames = r->Ok_0;
            let orig_len = header_orig_len(c.data@) as int;
            &&& frames.len() == c.frame_count
            &&& forall|k: int|
                0 <= k < c.frame_count ==> #[trigger] frames[k]@ == decoded_signal(*c).subrange(
                    k * c.lpc_order,
                    frame_end(k, c.lpc_order as int, orig_len),
                )
        }),
        (c.data@.len() > 0 && c.frame_count > 0 && c.data@.len() >= COMPRESSED_HEADER_LEN
            && rans_table_normalizes(header_histogram(c.data@)) && next_pow2(
            header_orig_len(c.data@),
        ) <= isize::MAX) ==> forall|t: Seq<u8>|
            #![trigger rans_encoded(t, header_histogram(c.data@))]
            payload_of(c.data@) == rans_encoded(t, header_histogram(c.data@)) && t.len()
                == next_pow2(header_orig_len(c.data@)) && is_histogram_of(
                header_histogram(c.data@),
                t,
            ) ==> decoded_symbols(c.data@) == t,
        forall|signal: Seq<i32>|
            #![trigger compressed_at_unit_step(*c, signal)]
            compressed_at_unit_step(*c, signal) ==> r is Ok && r->Ok_0.len() == c.frame_count
                && forall|k: int|
                0 <= k < c.frame_count ==> #[trigger] r->Ok_0[k]@ == signal.subrange(
                    k * c.lpc_order,
                    k * c.lpc_order + c.lpc_order,
                ),
        r is Err && c.data@.len() < COMPRESSED_HEADER_LEN ==> r->Err_0 is BufferTooSmall,
        r is Err && c.data@.len() >= COMPRESSED_HEADER_LEN ==> r->Err_0 is SerializationError,
{
    proof {
        assert forall|signal: Seq<i32>| #[trigger]
            compressed_at_unit_step(*c, signal) implies c.data@.len() >= COMPRESSED_HEADER_LEN
            && c.frame_count > 0 && header_orig_len(c.data@) == signal.len()
            && header_histogram(c.data@) == histogram_of(lpc_symbols(1, lpc_wavelet(signal)))
            && rans_table_normalizes(header_histogram(c.data@)) && next_pow2(signal.len())
            <= 0x4000_0000 by {
            lemma_compressed_at_unit_step(*c, signal);
        }
    }
    if c.is_empty() {
        return Ok(Vec::new());
    }
    if c.data.len() < COMPRESSED_HEADER_LEN {
        return Err(VoiceError::BufferTooSmall { need: COMPRESSED_HEADER_LEN, got: c.data.len() });
    }
    let (orig_len, histogram) = decode_compressed_header(&c.data);
    if !rans_table_ok(&histogram) {
        return Err(
            VoiceError::SerializationError(
                "stored histogram gives no normalized frequency table".to_owned(),
            ),
        );
    }
    let padded: u64 = padded_signal_len(orig_len);
    if padded > isize::MAX as u64 {
        return Err(VoiceError::SerializationError("padded signal too long".to_owned()));
    }
    let n: usize = padded as usize;
    let payload = tail_bytes(&c.data, COMPRESSED_HEADER_LEN);
    let symbols = rans_decode(&payload, &histogram, n);
    proof {
        assert forall|signal: Seq<i32>| #[trigger]
            compressed_at_unit_step(*c, signal) implies symbols@ == lpc_symbols(
            1,
            lpc_wavelet(signal),
        ) && reconstructable(1, symbols@) && effective_step(c.quantizer_step) == 1 by {
            lemma_compressed_at_unit_step(*c, signal);
            let t = lpc_symbols(1, lpc_wavelet(signal));
            assert(payload@ == rans_encoded(t, histogram@));
        }
    }
    if !symbols_reconstructable(&symbols, c.quantizer_step) {
        return Err(
            VoiceError::SerializationError(
                "decoded coefficients overflow the integer wavelet".to_owned(),
            ),
        );
    }
    let signal = reconstruct_lpc_signal(&symbols, c.quantizer_step);
    proof {
        assert forall|s: Seq<i32>| #[trigger]
            compressed_at_unit_step(*c, s) implies signal@ == zero_padded(
            s,
            next_pow2(s.len()),
        ) && c.frame_count * c.lpc_order <= usize::MAX && (c.frame_count - 1) * c.lpc_order
            <= s.len() by {
            lemma_compressed_at_unit_step(*c, s);
            let p = zero_padded(s, next_pow2(s.len()));
            assert(dequantized_symbols(effective_step(c.quantizer_step), symbols@)
                == cdf53_forward(p));
        }
    }
    let frame_count: usize = c.frame_count;
    let lpc_order: usize = c.lpc_order;
    let total: Option<usize> = frame_count.checked_mul(lpc_order);
    if total.is_none() {
        return Err(VoiceError::SerializationError("frame layout overflows".to_owned()));
    }
    assert(frame_count >= 1);
    assert(frame_count * lpc_order <= usize::MAX);
    assert((frame_count - 1) * lpc_order <= frame_count * lpc_order) by (nonlinear_arith)
        requires
            frame_count >= 1,
    ;
    let last_start: usize = (frame_count - 1) * lpc_order;
    let orig: usize = orig_len as usize;
    if last_start > orig {
        return Err(
            VoiceError::SerializationError("frames do not fit the stored signal".to_owned()),
        );
    }
    assert(signal@.len() == n && n >= orig);
    proof {
        assert forall|k: int| 0 <= k < frame_count implies k * lpc_order <= #[trigger] frame_end(
            k,
            lpc_order as int,
            orig as int,
        ) <= signal.len() by {
            assert(k * lpc_order <= (frame_count - 1) * lpc_order) by (nonlinear_arith)
                requires
                    0 <= k <= frame_count - 1,
                    lpc_order >= 0,
            ;
        }
    }
    let frames = split_lpc_frames(&signal, frame_count, lpc_order, orig);
    proof {
        assert forall|s: Seq<i32>| #[trigger]
            compressed_at_unit_step(*c, s) implies forall|k: int|
            0 <= k < c.frame_count ==> #[trigger] frames[k]@ == s.subrange(
                k * c.lpc_order,
                k * c.lpc_order + c.lpc_order,
            ) by {
            lemma_compressed_at_unit_step(*c, s);
            law_split_recovers_frames(
                s,
                frame_count as nat,
                lpc_order as nat,
                next_pow2(s.len()),
            );
        }
    }
    Ok(frames)
}

impl CodecCompressedFrame {
    /// The compressed form of an empty frame sequence.
    pub fn empty(quantizer_step: i32) -> (frame: CodecCompressedFrame)
        ensures
            frame.data@.len() == 0,
            frame.frame_count == 0,
            frame.lpc_order == 0,
            frame.quantizer_step == quantizer_step,
            frame.quality == VoiceQuality::Medium,
    {
        CodecCompressedFrame {
            data: Vec::new(),
            frame_count: 0,
            lpc_order: 0,
            quantizer_step,
            quality: VoiceQuality::Medium,
        }
    }

    /// Whether the sequence decompresses to no frames at all.
    pub fn is_empty(&self) -> (r: bool)
        ensures
            r == (self.data@.len() == 0 || self.frame_count == 0),
    {
        self.data.len() == 0 || self.frame_count == 0
    }
}

} // verus!
