# alice-voice

A voice codec that sends the parameters of speech (LPC coefficients, pitch,
formants) instead of the waveform. This repository holds its integer core as
a library verified with Verus, and the floating-point codec, bindings and
bridges as ordinary Rust around it.

## Layout

- `src/` — the verified library:
  - `types.rs`: wire codes of layers, emotions, qualities and packets, the
    frame header, FNV-1a, Q16.16 arithmetic;
  - `api.rs`: codec configuration per quality level, durations;
  - `naming.rs`: quality levels and emotions by name;
  - `isqrt.rs`: floor square roots by Newton's method;
  - `codec/lpc/lpc_fixed.rs`: fixed-point autocorrelation, Levinson-Durbin
    and all-pole synthesis;
  - `simd/`: Q16.16 vector kernels (dot product, cosine similarity, LPC
    filter, integer square roots);
  - `layers/`: fixed-point parameters and wire sizes of both layers;
  - `codec_bridge/`: the integer pipeline that compresses LPC sequences with
    the `alice_codec` CDF 5/3 wavelet (stated as lifting steps in
    `wavelet.rs`, with its round trip proved), quantizer and rANS entropy
    coder, and its byte framing.
- `tests/` — tests of the library.
- `app/` — the floating-point analysis and synthesis (LPC, pitch, formants,
  spectral and parametric layers, noise reduction), the scaling of LPC
  coefficients to and from integers, metric storage, ternary inference, C and Python bindings.

Every function in `src/` carries a contract that Verus proves; the calls into
`alice_codec` are the only trusted items, in `codec_bridge/codec_calls.rs`.
