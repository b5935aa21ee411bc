# gc_dspadpcm

Encodes mono 16-bit PCM to Nintendo's DSP-ADPCM and wraps the stream in a BFSTM file.

- `src/` is the verified library (Verus):
  - `codec` — the frame encoder (`encode_frame`), the stream encoder (`encode_all`), a
    mathematical model of both, and their laws: decoding a frame gives back the
    encoder's reconstruction, the chosen predictor has the least squared error,
    silence encodes to zero, a stream decodes frame by frame, a frame depends only on
    its history and its samples, and trailing zeros leave the earlier frames unchanged.
  - `bfstm` — the container layout (`build_bfstm`), specified byte for byte, with laws
    for the header fields, section offsets and sizes, the stream and channel info, and
    the seek entries in place.
  - `analysis` — the analysis windows and their exact autocorrelation sums, with laws:
    the sign of the input, zeros after it and whole windows of zeros before it do not
    change the analysis.
  - `le_bytes` — little-endian writers.
  - `wav` — raw PCM bytes to samples, and a minimal RIFF/WAVE reader (`parse_wav`), with
    laws: unknown chunks are skipped, and a plain WAV file reads back as its rate and
    its PCM bytes.
- `app/` holds the Python bindings and the coefficient analysis (`correlate_coefs`),
  which computes in floating point.
- `tests/` holds the tests; `tests/pipeline.rs` repeats the coefficient analysis so that
  the container tests run on the predictors the analysis gives.
