//! ATRAC3 encoder workbench: the integer side of the codec.
//!
//! The library holds the parts of the encoder whose behaviour is exact:
//! little-endian byte layout, RIFF/WAVE containers, MSB-first bit packing,
//! variable-length code tables, the ATRAC3 sound-unit bitstream syntax and
//! the frame bookkeeping around them.
use vstd::prelude::*;

pub mod align;
pub mod channel_unit;
pub mod codec;
pub mod encoder;
pub mod huffman;
pub mod le;
pub mod legacy;
pub mod pcm;
pub mod riff;
pub mod sound_unit;
pub mod tonal;
pub mod unit_parse;
pub mod unit_roundtrip;
pub mod unit_size;

verus! {

/// PCM samples per channel in one ATRAC3 frame.
pub const ATRAC3_SAMPLES_PER_FRAME: usize = 1024;

} // verus!
