//! The calls into `alice_codec`: the CDF 5/3 integer wavelet, the dead-zone
//! quantizer, the zigzag symbol mapping, the symbol histogram and the rANS
//! entropy coder.
//!
//! Every function here is trusted: Verus believes its contract and does not
//! read its body. Each doc comment says what the contract claims of the call;
//! the spec functions beside them state the documented laws those contracts
//! are written in, and the names `rans_encoded` and `rans_decoded` stand for
//! what the entropy coder produces.
use alice_codec::quant::{build_histogram, from_symbols, to_symbols};
use alice_codec::rans::{FrequencyTable, RansDecoder, RansEncoder};
use alice_codec::{CodecError, Quantizer, Wavelet1D};
use super::wavelet::{cdf53_forward, cdf53_inverse, within_lifting_range};
use vstd::prelude::*;

verus! {

/// The codec's error type, carried through opaquely.
#[verifier::external_type_specification]
#[verifier::external_body]
pub struct ExCodecError(CodecError);

/// `Wavelet1D::cdf53().forward`, in place.
///
/// Claims: the result is `cdf53_forward` of the input, the lifting steps of
/// `wavelet.rs` in that crate written out as spec functions. Inputs outside
/// `LIFTING_BOUND` are left out: there the neighbour sums can overflow `i32`.
#[verifier::external_body]
pub(crate) fn cdf53_forward_in_place(signal: &mut Vec<i32>)
    requires
        within_lifting_range(old(signal)@),
    ensures
        final(signal)@ == cdf53_forward(old(signal)@),
{
    Wavelet1D::cdf53().forward(signal.as_mut_slice());
}

/// `Wavelet1D::cdf53().inverse`, in place.
///
/// Claims: the result is `cdf53_inverse` of the input, the same lifting
/// steps taken back in the opposite order. Inputs outside `LIFTING_BOUND`
/// are left out: there the neighbour sums can overflow `i32`.
#[verifier::external_body]
pub(crate) fn cdf53_inverse_in_place(coeffs: &mut Vec<i32>)
    requires
        within_lifting_range(old(coeffs)@),
    ensures
        final(coeffs)@ == cdf53_inverse(old(coeffs)@),
{
    Wavelet1D::cdf53().inverse(coeffs.as_mut_slice());
}

/// The documented dead-zone law of `Quantizer::new(step)`, whose dead zone is
/// `step`: magnitudes below `step` give 0, the others
/// `sign(v) * (1 + (|v| - step) / step)`.
pub open spec fn quantized(step: int, v: int) -> int {
    let a: int = if v < 0 {
        -v
    } else {
        v
    };
    if a < step {
        0
    } else if v < 0 {
        -(1 + (a - step) / step)
    } else {
        1 + (a - step) / step
    }
}

/// The documented reconstruction of `Quantizer::new(step)`: the midpoint
/// `sign(q) * (step + (|q| - 1) * step + step / 2)` of the bin of `q`.
pub open spec fn dequantized(step: int, q: int) -> int {
    let a: int = if q < 0 {
        -q
    } else {
        q
    };
    if q == 0 {
        0
    } else if q < 0 {
        -(step + (a - 1) * step + step / 2)
    } else {
        step + (a - 1) * step + step / 2
    }
}

/// `Quantizer::new(step).quantize_buffer` into an output of the input's
/// length.
///
/// Claims: it succeeds (it fails only on a shorter output) and each output is
/// `quantized(step, v)` of its input. `step < 1` (division by zero) and
/// `i32::MIN` (whose magnitude does not fit `i32` at step 1) are left out.
#[verifier::external_body]
pub(crate) fn quantize_coefficients(step: i32, input: &Vec<i32>) -> (r: Result<
    Vec<i32>,
    CodecError,
>)
    requires
        step >= 1,
        forall|i: int| 0 <= i < input.len() ==> #[trigger] input[i] != i32::MIN,
    ensures
        match r {
            Ok(out) => out@.len() == input@.len() && forall|i: int|
                0 <= i < input.len() ==> #[trigger] out@[i] == quantized(
                    step as int,
                    input@[i] as int,
                ),
            Err(_) => false,
        },
{
    let mut out = vec![0i32; input.len()];
    Quantizer::new(step).quantize_buffer(input.as_slice(), out.as_mut_slice()).map(|()| out)
}

/// `Quantizer::new(step).dequantize_buffer` into an output of the input's
/// length.
///
/// Claims: it succeeds (it fails only on a shorter output) and each output is
/// `dequantized(step, q)` of its input. The call computes the magnitude of
/// the reconstruction in `i32`, so inputs whose reconstructed magnitude
/// exceeds `i32::MAX` are left out (a reconstruction of exactly `i32::MIN`
/// among them), and so is `i32::MIN` itself, whose magnitude overflows.
#[verifier::external_body]
pub(crate) fn dequantize_coefficients(step: i32, input: &Vec<i32>) -> (r: Result<
    Vec<i32>,
    CodecError,
>)
    requires
        step >= 1,
        forall|i: int|
            0 <= i < input.len() ==> #[trigger] input[i] != i32::MIN && i32::MIN < dequantized(
                step as int,
                input[i] as int,
            ) <= i32::MAX,
    ensures
        match r {
            Ok(out) => out@.len() == input@.len() && forall|i: int|
                0 <= i < input.len() ==> #[trigger] out@[i] == dequantized(
                    step as int,
                    input@[i] as int,
                ),
            Err(_) => false,
        },
{
    let mut out = vec![0i32; input.len()];
    Quantizer::new(step).dequantize_buffer(input.as_slice(), out.as_mut_slice()).map(|()| out)
}

/// The zigzag symbol of a coefficient: 0, 1, -1, 2, -2, ... map to
/// 0, 1, 2, 3, 4, ...
pub open spec fn zigzag_symbol(c: int) -> int {
    if c == 0 {
        0
    } else if c > 0 {
        2 * c - 1
    } else {
        -2 * c
    }
}

/// The coefficient of a zigzag symbol.
pub open spec fn unzigzag_symbol(s: int) -> int {
    if s == 0 {
        0
    } else if s % 2 == 1 {
        (s + 1) / 2
    } else {
        -(s / 2)
    }
}

/// The coefficient fits the 8-bit symbol alphabet.
pub open spec fn in_symbol_range(c: int) -> bool {
    -127 <= c <= 127
}

/// `alice_codec::quant::to_symbols` into an output of the input's length.
///
/// Claims: it succeeds exactly when every coefficient is in `-127..=127`
/// (it checks each one, and the output is long enough), and then each symbol
/// is the zigzag symbol of its coefficient.
#[verifier::external_body]
pub(crate) fn zigzag_symbols(coeffs: &Vec<i32>) -> (r: Result<Vec<u8>, CodecError>)
    ensures
        r is Ok <==> forall|i: int| 0 <= i < coeffs.len() ==> in_symbol_range(
            #[trigger] coeffs@[i] as int,
        ),
        match r {
            Ok(symbols) => symbols@.len() == coeffs@.len() && forall|i: int|
                0 <= i < coeffs.len() ==> #[trigger] symbols@[i] == zigzag_symbol(
                    coeffs@[i] as int,
                ),
            Err(_) => true,
        },
{
    let mut symbols = vec![0u8; coeffs.len()];
    to_symbols(coeffs.as_slice(), symbols.as_mut_slice()).map(|()| symbols)
}

/// `alice_codec::quant::from_symbols` into an output of the input's length.
///
/// Claims: it succeeds (it fails only on a shorter output) and each
/// coefficient is the one of its zigzag symbol.
#[verifier::external_body]
pub(crate) fn unzigzag_symbols(symbols: &Vec<u8>) -> (r: Result<Vec<i32>, CodecError>)
    ensures
        match r {
            Ok(coeffs) => coeffs@.len() == symbols@.len() && forall|i: int|
                0 <= i < symbols.len() ==> #[trigger] coeffs@[i] == unzigzag_symbol(
                    symbols@[i] as int,
                ),
            Err(_) => false,
        },
{
    let mut coeffs = vec![0i32; symbols.len()];
    from_symbols(symbols.as_slice(), coeffs.as_mut_slice()).map(|()| coeffs)
}

/// How often `k` occurs in `s`.
pub open spec fn symbol_count(s: Seq<u8>, k: int) -> nat
    decreases s.len(),
{
    if s.len() == 0 {
        0
    } else {
        symbol_count(s.drop_last(), k) + if s.last() == k {
            1nat
        } else {
            0nat
        }
    }
}

/// `alice_codec::quant::build_histogram`, as a vector of its 256 counts.
///
/// Claims: count `k` is how often symbol `k` occurs. More than `u32::MAX`
/// symbols are left out: a count could overflow.
#[verifier::external_body]
pub(crate) fn symbol_histogram(symbols: &Vec<u8>) -> (h: Vec<u32>)
    requires
        symbols.len() <= u32::MAX,
    ensures
        h@.len() == 256,
        forall|k: int| 0 <= k < 256 ==> #[trigger] h@[k] == symbol_count(symbols@, k),
{
    build_histogram(symbols.as_slice()).to_vec()
}

/// The histogram is the symbol counts of `symbols`.
pub open spec fn is_histogram_of(histogram: Seq<u32>, symbols: Seq<u8>) -> bool {
    &&& histogram.len() == 256
    &&& forall|k: int| 0 <= k < 256 ==> #[trigger] histogram[k] == symbol_count(symbols, k)
}

/// The sum of the first `n` histogram counts.
pub open spec fn histogram_total(histogram: Seq<u32>, n: int) -> int
    decreases n,
{
    if n <= 0 {
        0
    } else {
        histogram_total(histogram, n - 1) + histogram[n - 1]
    }
}

/// The frequency (out of 4096) that `FrequencyTable::from_histogram` first
/// gives count `i`: 0 for an absent symbol, otherwise its share of 4096
/// rounded down, but at least 1.
pub open spec fn scaled_frequency(histogram: Seq<u32>, i: int) -> int {
    let total = histogram_total(histogram, histogram.len() as int);
    if histogram[i] == 0 {
        0
    } else if histogram[i] * 4096 / total < 1 {
        1
    } else {
        histogram[i] * 4096 / total
    }
}

/// The sum of the first `n` scaled frequencies.
pub open spec fn scaled_total(histogram: Seq<u32>, n: int) -> int
    decreases n,
{
    if n <= 0 {
        0
    } else {
        scaled_total(histogram, n - 1) + scaled_frequency(histogram, n - 1)
    }
}

/// The first index among the first `n` counts that holds their largest count.
pub open spec fn first_max_index(histogram: Seq<u32>, n: int) -> int
    decreases n,
{
    if n <= 1 {
        0
    } else if histogram[n - 1] > histogram[first_max_index(histogram, n - 1)] {
        n - 1
    } else {
        first_max_index(histogram, n - 1)
    }
}

/// `FrequencyTable::from_histogram` builds a table whose frequencies sum to
/// 4096: the histogram is empty (a uniform table is used), or the most
/// frequent symbol keeps a frequency of at least 1 after absorbing the
/// rounding of the others. Elsewhere its debug assertion fails and the coder
/// divides by a zero frequency.
pub open spec fn rans_table_normalizes(histogram: Seq<u32>) -> bool {
    let n = histogram.len() as int;
    ||| histogram_total(histogram, n) == 0
    ||| scaled_frequency(histogram, first_max_index(histogram, n)) + 4096 - scaled_total(
        histogram,
        n,
    ) >= 1
}

/// What `alice_codec`'s rANS coder makes of `symbols` with a frequency table
/// built from `histogram`.
pub uninterp spec fn rans_encoded(symbols: Seq<u8>, histogram: Seq<u32>) -> Seq<u8>;

/// What `alice_codec`'s rANS decoder reads as `n` symbols from `bytes` with a
/// frequency table built from `histogram`.
pub uninterp spec fn rans_decoded(bytes: Seq<u8>, histogram: Seq<u32>, n: nat) -> Seq<u8>;

/// `FrequencyTable::from_histogram`, then `RansEncoder::new`,
/// `encode_symbols` and `finish`: the rANS encoding of the symbols.
///
/// Claims: the result is `rans_encoded` of the symbols and histogram.
/// Histograms on which the table is not normalized are left out (see
/// `rans_table_normalizes`), and so are symbols the histogram does not
/// count, which would get frequency 0.
#[verifier::external_body]
pub(crate) fn rans_encode(symbols: &Vec<u8>, histogram: &Vec<u32>) -> (b: Vec<u8>)
    requires
        is_histogram_of(histogram@, symbols@),
        rans_table_normalizes(histogram@),
    ensures
        b@ == rans_encoded(symbols@, histogram@),
{
    let table = FrequencyTable::from_histogram(histogram.as_slice());
    let mut encoder = RansEncoder::new();
    encoder.encode_symbols(symbols.as_slice(), &table);
    encoder.finish()
}

/// `FrequencyTable::from_histogram`, then `RansDecoder::new` and `decode_n`:
/// `n` symbols read from the bytes.
///
/// Claims: the result has `n` symbols and is `rans_decoded` of the bytes,
/// histogram and `n`; and the decoder inverts the encoder: bytes that are the
/// encoding of `n` symbols counted by the histogram decode to those symbols
/// (the decoder reads back the encoder's final state and undoes each step in
/// reverse). Histograms on which the table is not normalized are left out;
/// on a normalized table every slot of the lookup lies inside its symbol's
/// range, so no byte sequence makes the decoder panic.
#[verifier::external_body]
pub(crate) fn rans_decode(bytes: &Vec<u8>, histogram: &Vec<u32>, n: usize) -> (s: Vec<u8>)
    requires
        histogram@.len() == 256,
        rans_table_normalizes(histogram@),
    ensures
        s@.len() == n,
        s@ == rans_decoded(bytes@, histogram@, n as nat),
        forall|t: Seq<u8>|
            #![trigger rans_encoded(t, histogram@)]
            bytes@ == rans_encoded(t, histogram@) && t.len() == n && is_histogram_of(
                histogram@,
                t,
            ) ==> s@ == t,
{
    let table = FrequencyTable::from_histogram(histogram.as_slice());
    let mut decoder = RansDecoder::new(bytes.as_slice());
    decoder.decode_n(n, &table)
}

} // verus!
