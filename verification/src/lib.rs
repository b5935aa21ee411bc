//! DSP-ADPCM encoding of mono 16-bit PCM and the BFSTM container that carries it.
//!
//! `analysis` holds the windowing and exact autocorrelation that predictor analysis starts
//! from, `codec` the frame and stream encoder with its mathematical model, `bfstm` the
//! container layout, `le_bytes` the little-endian writers the layout is built from, and
//! `wav` the reader for raw PCM and RIFF/WAVE input.
pub mod analysis;
pub mod codec;
pub mod le_bytes;
pub mod bfstm;
pub mod wav;
