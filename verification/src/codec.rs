//! The legacy codec context: codec kind, stream parameters and frame size.
use vstd::prelude::*;

verus! {

/// Which ATRAC variant a context codes.
#[derive(Clone, Copy, Debug, PartialEq, Eq, Structural)]
pub enum CodecType {
    Atrac3,
    Atrac3Plus,
}

/// Sinusoid extraction parameters: the number of samples analysed per frame.
pub struct GhaContext {
    pub size: usize,
}

impl GhaContext {
    /// A context analysing `size` samples per frame.
    pub fn new(size: usize) -> (g: Self)
        ensures
            g.size == size,
    {
        Self { size }
    }
}

/// Stream parameters of the legacy codec path.
pub struct AtracContext {
    pub codec_type: CodecType,
    pub channels: u16,
    pub sample_rate: u32,
    pub bitrate: u32,
    pub block_align: usize,
    pub gha_ctx: GhaContext,
}

/// Frame size in bytes of the legacy codec path.
pub open spec fn spec_legacy_block_align(codec_type: CodecType, sample_rate: u32, bitrate: u32) -> int {
    match codec_type {
        CodecType::Atrac3 => bitrate * 1024 / 8,
        CodecType::Atrac3Plus => bitrate * 1000 / ((sample_rate / 2048) as int) / 8,
    }
}

/// The inputs for which the frame size can be computed in 32 bits.
pub open spec fn legacy_params_ok(codec_type: CodecType, sample_rate: u32, bitrate: u32) -> bool {
    match codec_type {
        CodecType::Atrac3 => bitrate * 1024 <= u32::MAX,
        CodecType::Atrac3Plus => bitrate * 1000 <= u32::MAX && sample_rate >= 2048,
    }
}

impl AtracContext {
    /// A context for `channels` channels at `sample_rate` Hz and `bitrate`,
    /// analysing 2048 samples per frame.
    pub fn new(codec_type: CodecType, channels: u16, sample_rate: u32, bitrate: u32) -> (c: Self)
        requires
            legacy_params_ok(codec_type, sample_rate, bitrate),
        ensures
            c.codec_type == codec_type,
            c.channels == channels,
            c.sample_rate == sample_rate,
            c.bitrate == bitrate,
            c.block_align == spec_legacy_block_align(codec_type, sample_rate, bitrate),
            c.gha_ctx.size == 2048,
    {
        let block_align = match codec_type {
            CodecType::Atrac3 => (bitrate * 1024 / 8) as usize,
            CodecType::Atrac3Plus => ((bitrate * 1000) / (sample_rate / 2048) / 8) as usize,
        };
        Self {
            codec_type,
            channels,
            sample_rate,
            bitrate,
            block_align,
            gha_ctx: GhaContext::new(2048),
        }
    }
}

} // verus!
