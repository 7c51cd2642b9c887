//! Byte layout of a compressed LPC sequence.
//!
//! A compressed sequence is the signal length before padding, then the 256 symbol
//! counts that the entropy coder was built from, each a little-endian `u32`,
//! then the entropy-coded payload.
use vstd::prelude::*;

verus! {

/// Bytes in front of the entropy-coded payload: the signal length and the
/// 256 histogram counts, four bytes each.
pub const COMPRESSED_HEADER_LEN: usize = 1028;

/// Number of symbol counts carried in the header.
pub const HISTOGRAM_BINS: usize = 256;

/// The four little-endian bytes of `x`.
pub open spec fn le_u32_bytes(x: u32) -> Seq<u8> {
    seq![
        (x % 256) as u8,
        ((x / 256) % 256) as u8,
        ((x / 65536) % 256) as u8,
        (x / 16777216) as u8,
    ]
}

/// The value of the first four bytes of `b`, read little-endian.
pub open spec fn le_u32_value(b: Seq<u8>) -> int {
    b[0] as int + 256 * (b[1] as int) + 65536 * (b[2] as int) + 16777216 * (b[3] as int)
}

/// The words of `ws`, each as four little-endian bytes, one after another.
pub open spec fn words_le_bytes(ws: Seq<u32>) -> Seq<u8>
    decreases ws.len(),
{
    if ws.len() == 0 {
        Seq::empty()
    } else {
        words_le_bytes(ws.drop_last()) + le_u32_bytes(ws.last())
    }
}

/// The little-endian words of `b`, four bytes each; a trailing part of fewer
/// than four bytes is not read.
pub open spec fn le_words(b: Seq<u8>) -> Seq<u32> {
    Seq::new(b.len() / 4, |i: int| le_u32_value(b.subrange(4 * i, 4 * i + 4)) as u32)
}

/// The bytes of a compressed sequence: signal length, histogram, payload.
pub open spec fn compressed_bytes(orig_len: u32, histogram: Seq<u32>, payload: Seq<u8>) -> Seq<
    u8,
> {
    le_u32_bytes(orig_len) + words_le_bytes(histogram) + payload
}

proof fn lemma_le_u32_roundtrip(x: u32)
    ensures
        le_u32_bytes(x).len() == 4,
        le_u32_value(le_u32_bytes(x)) == x,
{
    assert((x % 256) + 256 * ((x / 256) % 256) + 65536 * ((x / 65536) % 256) + 16777216 * (x
        / 16777216) == x) by (bit_vector);
}

proof fn lemma_words_le_bytes_len(ws: Seq<u32>)
    ensures
        words_le_bytes(ws).len() == 4 * ws.len(),
    decreases ws.len(),
{
    if ws.len() > 0 {
        lemma_words_le_bytes_len(ws.drop_last());
    }
}

proof fn lemma_words_le_bytes_at(ws: Seq<u32>, i: int)
    requires
        0 <= i < ws.len(),
    ensures
        words_le_bytes(ws).subrange(4 * i, 4 * i + 4) == le_u32_bytes(ws[i]),
    decreases ws.len(),
{
    lemma_words_le_bytes_len(ws);
    lemma_words_le_bytes_len(ws.drop_last());
    let prefix = words_le_bytes(ws.drop_last());
    if i == ws.len() - 1 {
        assert(words_le_bytes(ws).subrange(4 * i, 4 * i + 4) =~= le_u32_bytes(ws[i]));
    } else {
        lemma_words_le_bytes_at(ws.drop_last(), i);
        assert(words_le_bytes(ws).subrange(4 * i, 4 * i + 4) =~= prefix.subrange(
            4 * i,
            4 * i + 4,
        ));
    }
}

proof fn lemma_words_roundtrip(ws: Seq<u32>)
    ensures
        le_words(words_le_bytes(ws)) == ws,
{
    lemma_words_le_bytes_len(ws);
    let b = words_le_bytes(ws);
    assert forall|i: int| 0 <= i < ws.len() implies #[trigger] le_words(b)[i] == ws[i] by {
        lemma_words_le_bytes_at(ws, i);
        lemma_le_u32_roundtrip(ws[i]);
    }
    assert(le_words(b) =~= ws);
}

/// Reading a compressed sequence gives back what was written: the signal
/// length from the first four bytes, the histogram from the next 1024, and
/// the payload from the rest.
pub proof fn law_compressed_bytes_roundtrip(orig_len: u32, histogram: Seq<u32>, payload: Seq<u8>)
    requires
        histogram.len() == HISTOGRAM_BINS,
    ensures
        compressed_bytes(orig_len, histogram, payload).len() == COMPRESSED_HEADER_LEN
            + payload.len(),
        le_u32_value(compressed_bytes(orig_len, histogram, payload).subrange(0, 4)) == orig_len,
        le_words(
            compressed_bytes(orig_len, histogram, payload).subrange(
                4,
                COMPRESSED_HEADER_LEN as int,
            ),
        ) == histogram,
        compressed_bytes(orig_len, histogram, payload).subrange(
            COMPRESSED_HEADER_LEN as int,
            COMPRESSED_HEADER_LEN + payload.len(),
        ) == payload,
{
    let d = compressed_bytes(orig_len, histogram, payload);
    lemma_le_u32_roundtrip(orig_len);
    lemma_words_le_bytes_len(histogram);
    lemma_words_roundtrip(histogram);
    assert(d.subrange(0, 4) =~= le_u32_bytes(orig_len));
    assert(d.subrange(4, COMPRESSED_HEADER_LEN as int) =~= words_le_bytes(histogram));
    assert(d.subrange(COMPRESSED_HEADER_LEN as int, COMPRESSED_HEADER_LEN + payload.len())
        =~= payload);
}

fn push_le_u32(out: &mut Vec<u8>, x: u32)
    ensures
        final(out)@ == old(out)@ + le_u32_bytes(x),
{
    out.push((x % 256) as u8);
    out.push(((x / 256) % 256) as u8);
    out.push(((x / 65536) % 256) as u8);
    out.push((x / 16777216) as u8);
    assert(out@ =~= old(out)@ + le_u32_bytes(x));
}

/// Writes a compressed sequence: the signal length, the histogram counts and
/// the payload.
pub fn encode_compressed_bytes(orig_len: u32, histogram: &Vec<u32>, payload: Vec<u8>) -> (data:
    Vec<u8>)
    ensures
        data@ == compressed_bytes(orig_len, histogram@, payload@),
{
    let mut out: Vec<u8> = Vec::new();
    push_le_u32(&mut out, orig_len);
    let mut i: usize = 0;
    while i < histogram.len()
        invariant
            i <= histogram.len(),
            out@ == le_u32_bytes(orig_len) + words_le_bytes(histogram@.subrange(0, i as int)),
        decreases histogram.len() - i,
    {
        let ghost before = out@;
        push_le_u32(&mut out, histogram[i]);
        proof {
            let s = histogram@.subrange(0, i + 1);
            assert(s.drop_last() =~= histogram@.subrange(0, i as int));
            assert(out@ =~= le_u32_bytes(orig_len) + words_le_bytes(s));
        }
        i = i + 1;
    }
    assert(histogram@.subrange(0, histogram.len() as int) =~= histogram@);
    let mut rest = payload;
    out.append(&mut rest);
    out
}

/// Reads the little-endian `u32` at `offset`.
fn read_le_u32(data: &Vec<u8>, offset: usize) -> (r: u32)
    requires
        offset + 4 <= data.len(),
    ensures
        r == le_u32_value(data@.subrange(offset as int, offset + 4)),
{
    let b0: u32 = data[offset] as u32;
    let b1: u32 = data[offset + 1] as u32;
    let b2: u32 = data[offset + 2] as u32;
    let b3: u32 = data[offset + 3] as u32;
    b0 + 256 * b1 + 65536 * b2 + 16777216 * b3
}

/// Reads the signal length and the histogram from the front of a compressed
/// sequence.
pub fn decode_compressed_header(data: &Vec<u8>) -> (r: (u32, Vec<u32>))
    requires
        data.len() >= COMPRESSED_HEADER_LEN,
    ensures
        r.0 == le_u32_value(data@.subrange(0, 4)),
        r.1@ == le_words(data@.subrange(4, COMPRESSED_HEADER_LEN as int)),
        r.1.len() == HISTOGRAM_BINS,
{
    let orig_len: u32 = read_le_u32(data, 0);
    let ghost body = data@.subrange(4, COMPRESSED_HEADER_LEN as int);
    let mut histogram: Vec<u32> = Vec::new();
    let mut i: usize = 0;
    while i < HISTOGRAM_BINS
        invariant
            i <= HISTOGRAM_BINS,
            data.len() >= COMPRESSED_HEADER_LEN,
            body == data@.subrange(4, COMPRESSED_HEADER_LEN as int),
            histogram@ == le_words(body).subrange(0, i as int),
        decreases HISTOGRAM_BINS - i,
    {
        let w: u32 = read_le_u32(data, 4 + 4 * i);
        proof {
            assert(data@.subrange(4 + 4 * i, 4 + 4 * i + 4) =~= body.subrange(
                4 * i,
                4 * i + 4,
            ));
        }
        histogram.push(w);
        proof {
            assert(histogram@ =~= le_words(body).subrange(0, i + 1));
        }
        i = i + 1;
    }
    assert(le_words(body).subrange(0, HISTOGRAM_BINS as int) =~= le_words(body));
    (orig_len, histogram)
}

} // verus!
