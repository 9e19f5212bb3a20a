//! RIFF/WAVE containers: 16-bit PCM WAV and ATRAC3 RIFF files.
use vstd::prelude::*;
use vstd::slice::slice_to_vec;
use crate::le::{
    le16, le32, u16_at, u32_at, read_u16, read_u32, write_le_u16, write_le_u32, lemma_fields_extend,
    lemma_u32_at_end, lemma_u16_at_end, lemma_tag_at_end, lemma_le16_roundtrip, lemma_fields_append,
};

verus! {

/// Loop points written into the RIFF `smpl` chunk, in PCM sample units.
#[derive(Clone, Copy, Debug)]
pub struct LoopPoints {
    pub start: u32,
    pub end: u32,
}

/// A decoded 16-bit PCM WAV file.
#[derive(Debug)]
pub struct WavPcm {
    pub channels: u16,
    pub sample_rate: u32,
    pub samples: Vec<i16>,
}

/// A decoded ATRAC3 RIFF/WAVE file.
#[derive(Debug)]
pub struct Atrac3Riff {
    pub channels: u16,
    pub sample_rate: u32,
    pub block_align: u16,
    pub total_samples_per_channel: Option<u32>,
    pub data: Vec<u8>,
}

/// Why a RIFF/WAVE byte stream was rejected.
#[derive(Clone, Copy, Debug, PartialEq, Eq, Structural)]
pub enum RiffError {
    /// The stream ended inside the file header or inside a chunk that had to be read.
    Truncated,
    /// The file does not start with `RIFF....WAVE`.
    NotRiffWave,
    /// The `fmt ` chunk is shorter than the fields it must carry.
    TruncatedFmt,
    /// The `fmt ` chunk names a format other than ATRAC3 (0x0270).
    UnsupportedFormat(u16),
    /// The `fmt ` chunk is not 16-bit PCM.
    NotPcm16,
    /// An ATRAC3 file lacks a usable `fmt ` or `data` chunk.
    MissingAtrac3Chunks,
    /// A PCM WAV file lacks a usable `fmt ` or `data` chunk.
    MissingPcmChunks,
    /// Neither a RIFF/WAVE nor an EA3/OMA stream.
    UnknownContainer,
    /// A chunk runs past the end of the stream.
    TruncatedChunk,
    /// The chunk list holds no `data` chunk.
    MissingDataChunk,
}

/// The tag `RIFF`.
pub open spec fn tag_riff() -> Seq<u8> {
    seq![0x52u8, 0x49u8, 0x46u8, 0x46u8]
}

/// The tag `WAVE`.
pub open spec fn tag_wave() -> Seq<u8> {
    seq![0x57u8, 0x41u8, 0x56u8, 0x45u8]
}

/// The tag `fmt `.
pub open spec fn tag_fmt() -> Seq<u8> {
    seq![0x66u8, 0x6du8, 0x74u8, 0x20u8]
}

/// The tag `fact`.
pub open spec fn tag_fact() -> Seq<u8> {
    seq![0x66u8, 0x61u8, 0x63u8, 0x74u8]
}

/// The tag `data`.
pub open spec fn tag_data() -> Seq<u8> {
    seq![0x64u8, 0x61u8, 0x74u8, 0x61u8]
}

/// The tag `smpl`.
pub open spec fn tag_smpl() -> Seq<u8> {
    seq![0x73u8, 0x6du8, 0x70u8, 0x6cu8]
}

/// Whether the four bytes at `pos` are `t`.
pub open spec fn tag_is(s: Seq<u8>, pos: int, t: Seq<u8>) -> bool {
    s.subrange(pos, pos + 4) == t
}

/// Where the chunk list continues after the chunk whose header is at `pos`:
/// past the payload and its pad byte, or the end of the stream when that lies beyond it.
pub open spec fn next_chunk_pos(s: Seq<u8>, pos: int) -> int {
    let size = u32_at(s, pos + 4) as int;
    let next = pos + 8 + size + size % 2;
    if next <= s.len() {
        next
    } else {
        s.len() as int
    }
}

/// What the chunk walk of a PCM WAV file collects.
#[derive(Clone, Copy, Debug)]
pub struct PcmFields {
    pub audio_format: u16,
    pub channels: u16,
    pub sample_rate: u32,
    pub bits_per_sample: u16,
    pub data_start: usize,
    pub data_len: usize,
}

/// What the chunk walk of a PCM WAV file starts from.
pub open spec fn pcm_fields_init() -> PcmFields {
    PcmFields {
        audio_format: 0,
        channels: 0,
        sample_rate: 0,
        bits_per_sample: 0,
        data_start: 0,
        data_len: 0,
    }
}

/// The chunk walk of a PCM WAV file from the chunk header at `pos` on: the last
/// `fmt ` and `data` chunks win, other chunks are skipped.
pub open spec fn scan_pcm(s: Seq<u8>, pos: int, f: PcmFields) -> Result<PcmFields, RiffError>
    decreases s.len() - pos,
{
    if pos < 0 || pos + 8 > s.len() {
        Ok(f)
    } else {
        let size = u32_at(s, pos + 4) as int;
        let start = pos + 8;
        if tag_is(s, pos, tag_fmt()) {
            if start + size > s.len() {
                Err(RiffError::Truncated)
            } else if size < 16 {
                Err(RiffError::TruncatedFmt)
            } else {
                scan_pcm(
                    s,
                    next_chunk_pos(s, pos),
                    PcmFields {
                        audio_format: u16_at(s, start),
                        channels: u16_at(s, start + 2),
                        sample_rate: u32_at(s, start + 4),
                        bits_per_sample: u16_at(s, start + 14),
                        data_start: f.data_start,
                        data_len: f.data_len,
                    },
                )
            }
        } else if tag_is(s, pos, tag_data()) {
            if start + size > s.len() {
                Err(RiffError::Truncated)
            } else {
                scan_pcm(
                    s,
                    next_chunk_pos(s, pos),
                    PcmFields { data_start: start as usize, data_len: size as usize, ..f },
                )
            }
        } else {
            scan_pcm(s, next_chunk_pos(s, pos), f)
        }
    }
}

/// 16-bit little-endian samples, one per byte pair; a trailing odd byte is ignored.
pub open spec fn pcm_samples(d: Seq<u8>) -> Seq<i16> {
    Seq::new(d.len() / 2, |i: int| u16_at(d, 2 * i) as i16)
}

/// The bytes of `samples`, each as a little-endian 16-bit word.
pub open spec fn pcm_sample_bytes(samples: Seq<i16>) -> Seq<u8> {
    Seq::new(2 * samples.len(), |k: int| le16(samples[k / 2] as u16)[k % 2])
}

/// A 16-bit PCM WAV file: channel count, sample rate and interleaved samples.
pub open spec fn spec_parse_pcm_wav(s: Seq<u8>) -> Result<(u16, u32, Seq<i16>), RiffError> {
    if s.len() < 12 {
        Err(RiffError::Truncated)
    } else if !tag_is(s, 0, tag_riff()) || !tag_is(s, 8, tag_wave()) {
        Err(RiffError::NotRiffWave)
    } else {
        match scan_pcm(s, 12, pcm_fields_init()) {
            Err(e) => Err(e),
            Ok(f) => if f.audio_format != 1 || f.bits_per_sample != 16 {
                Err(RiffError::NotPcm16)
            } else if f.channels == 0 || f.sample_rate == 0 || f.data_len == 0 {
                Err(RiffError::MissingPcmChunks)
            } else {
                Ok(
                    (
                        f.channels,
                        f.sample_rate,
                        pcm_samples(s.subrange(f.data_start as int, f.data_start + f.data_len)),
                    ),
                )
            },
        }
    }
}

/// The 44-byte header of a canonical 16-bit PCM WAV file holding `num_samples` samples.
pub open spec fn pcm_wav_header(channels: u16, sample_rate: u32, num_samples: nat) -> Seq<u8> {
    let block_align = (channels * 2) as u16;
    let byte_rate = (sample_rate * block_align) as u32;
    let data_size = (num_samples * 2) as u32;
    tag_riff() + le32((36 + data_size) as u32) + tag_wave() + tag_fmt() + le32(16) + le16(1)
        + le16(channels) + le32(sample_rate) + le32(byte_rate) + le16(block_align) + le16(16)
        + tag_data() + le32(data_size)
}

/// Whether a PCM WAV file with these parameters can be written without overflow.
pub open spec fn pcm_wav_writable(channels: u16, sample_rate: u32, num_samples: nat) -> bool {
    &&& channels <= 32767
    &&& sample_rate * (channels * 2) <= u32::MAX
    &&& 36 + 2 * num_samples <= u32::MAX
}

/// What the chunk walk of an ATRAC3 RIFF file collects.
#[derive(Clone, Copy, Debug)]
pub struct Atrac3Fields {
    pub audio_format: u16,
    pub channels: u16,
    pub sample_rate: u32,
    pub block_align: u16,
    pub total_samples_per_channel: Option<u32>,
    pub data_start: usize,
    pub data_len: usize,
}

/// What the chunk walk of an ATRAC3 file starts from.
pub open spec fn atrac3_fields_init() -> Atrac3Fields {
    Atrac3Fields {
        audio_format: 0,
        channels: 0,
        sample_rate: 0,
        block_align: 0,
        total_samples_per_channel: None,
        data_start: 0,
        data_len: 0,
    }
}

/// The chunk walk of an ATRAC3 RIFF file from the chunk header at `pos` on: the
/// last `fmt `, `fact` and `data` chunks win, other chunks are skipped.
pub open spec fn scan_atrac3(s: Seq<u8>, pos: int, f: Atrac3Fields) -> Result<
    Atrac3Fields,
    RiffError,
>
    decreases s.len() - pos,
{
    if pos < 0 || pos + 8 > s.len() {
        Ok(f)
    } else {
        let size = u32_at(s, pos + 4) as int;
        let start = pos + 8;
        if tag_is(s, pos, tag_fmt()) {
            if start + size > s.len() {
                Err(RiffError::Truncated)
            } else if size < 14 {
                Err(RiffError::TruncatedFmt)
            } else {
                scan_atrac3(
                    s,
                    next_chunk_pos(s, pos),
                    Atrac3Fields {
                        audio_format: u16_at(s, start),
                        channels: u16_at(s, start + 2),
                        sample_rate: u32_at(s, start + 4),
                        block_align: u16_at(s, start + 12),
                        ..f
                    },
                )
            }
        } else if tag_is(s, pos, tag_fact()) {
            if start + size > s.len() {
                Err(RiffError::Truncated)
            } else if size >= 4 {
                scan_atrac3(
                    s,
                    next_chunk_pos(s, pos),
                    Atrac3Fields { total_samples_per_channel: Some(u32_at(s, start)), ..f },
                )
            } else {
                scan_atrac3(s, next_chunk_pos(s, pos), f)
            }
        } else if tag_is(s, pos, tag_data()) {
            if start + size > s.len() {
                Err(RiffError::Truncated)
            } else {
                scan_atrac3(
                    s,
                    next_chunk_pos(s, pos),
                    Atrac3Fields { data_start: start as usize, data_len: size as usize, ..f },
                )
            }
        } else {
            scan_atrac3(s, next_chunk_pos(s, pos), f)
        }
    }
}

/// An ATRAC3 RIFF file: channel count, sample rate, block alignment, the `fact`
/// sample count when present, and the payload of the `data` chunk.
pub open spec fn spec_parse_atrac3_riff(s: Seq<u8>) -> Result<
    (u16, u32, u16, Option<u32>, Seq<u8>),
    RiffError,
> {
    if s.len() < 12 {
        Err(RiffError::Truncated)
    } else if !tag_is(s, 0, tag_riff()) || !tag_is(s, 8, tag_wave()) {
        Err(RiffError::NotRiffWave)
    } else {
        match scan_atrac3(s, 12, atrac3_fields_init()) {
            Err(e) => Err(e),
            Ok(f) => if f.audio_format != 0x0270 {
                Err(RiffError::UnsupportedFormat(f.audio_format))
            } else if f.channels == 0 || f.sample_rate == 0 || f.block_align == 0 || f.data_len
                == 0 {
                Err(RiffError::MissingAtrac3Chunks)
            } else {
                Ok(
                    (
                        f.channels,
                        f.sample_rate,
                        f.block_align,
                        f.total_samples_per_channel,
                        s.subrange(f.data_start as int, f.data_start + f.data_len),
                    ),
                )
            },
        }
    }
}

/// The `fmt ` chunk of an ATRAC3 RIFF file.
pub open spec fn at3_fmt_chunk(channels: u16, sample_rate: u32, block_align: u16) -> Seq<u8> {
    tag_fmt() + le32(32) + le16(0x0270) + le16(channels) + le32(sample_rate) + le32(
        ((block_align * sample_rate) / 1024) as u32,
    ) + le16(block_align) + le16(0) + le16(14) + le16(1) + le32(0x1000) + le16(0) + le16(0)
        + le16(1) + le16(0)
}

/// The `fact` chunk of an ATRAC3 RIFF file.
pub open spec fn at3_fact_chunk(total_samples: u32) -> Seq<u8> {
    tag_fact() + le32(8) + le32(total_samples) + le32(1024)
}

/// The `smpl` chunk carrying one forward loop.
pub open spec fn at3_smpl_chunk(sample_rate: u32, lp: LoopPoints) -> Seq<u8> {
    tag_smpl() + le32(60) + le32(0) + le32(0) + le32((1_000_000_000u32 / sample_rate) as u32) + le32(
        60,
    ) + le32(0) + le32(0) + le32(0) + le32(1) + le32(0) + le32(0) + le32(0) + le32(lp.start)
        + le32(lp.end) + le32(0) + le32(0)
}

/// Bytes of the `data` payload that `num_frames` frames of `block_align` bytes take.
pub open spec fn at3_data_size(block_align: u16, num_frames: u32) -> int {
    num_frames * block_align
}

/// Bytes of the optional `smpl` chunk, header included.
pub open spec fn at3_smpl_bytes(loop_points: Option<LoopPoints>) -> int {
    if loop_points is Some {
        68
    } else {
        0
    }
}

/// The RIFF size field: everything after it, payload included.
pub open spec fn at3_riff_size(block_align: u16, num_frames: u32, loop_points: Option<LoopPoints>) -> int {
    4 + 40 + 16 + at3_smpl_bytes(loop_points) + 8 + at3_data_size(block_align, num_frames)
}

/// The header of an ATRAC3 RIFF/WAVE file, up to and including the `data`
/// chunk header; the frames follow it.
pub open spec fn at3_riff_header(
    channels: u16,
    sample_rate: u32,
    block_align: u16,
    total_samples: u32,
    num_frames: u32,
    loop_points: Option<LoopPoints>,
) -> Seq<u8> {
    let smpl = match loop_points {
        Some(lp) => at3_smpl_chunk(sample_rate, lp),
        None => Seq::<u8>::empty(),
    };
    tag_riff() + le32(at3_riff_size(block_align, num_frames, loop_points) as u32) + tag_wave()
        + at3_fmt_chunk(channels, sample_rate, block_align) + at3_fact_chunk(total_samples) + smpl
        + tag_data() + le32(at3_data_size(block_align, num_frames) as u32)
}

/// Whether an ATRAC3 RIFF header with these parameters can be written: the size
/// fields and the average byte rate fit in 32 bits, and a loop needs a sample rate.
pub open spec fn at3_riff_writable(
    sample_rate: u32,
    block_align: u16,
    num_frames: u32,
    loop_points: Option<LoopPoints>,
) -> bool {
    &&& at3_riff_size(block_align, num_frames, loop_points) <= u32::MAX
    &&& block_align * sample_rate <= u32::MAX
    &&& loop_points is Some ==> sample_rate > 0
}

/// The `data` chunk of a RIFF/WAVE stream from the chunk header at `pos` on, as
/// a byte range.
pub open spec fn scan_data_chunk(s: Seq<u8>, pos: int) -> Result<(int, int), RiffError>
    decreases s.len() + 1 - pos,
{
    if pos < 0 || pos + 8 > s.len() {
        Err(RiffError::MissingDataChunk)
    } else {
        let size = u32_at(s, pos + 4) as int;
        let start = pos + 8;
        let end = start + size;
        if end > s.len() {
            Err(RiffError::TruncatedChunk)
        } else if tag_is(s, pos, tag_data()) {
            Ok((start, end))
        } else {
            scan_data_chunk(s, end + size % 2)
        }
    }
}

/// The frame payload of an EA3/OMA stream (after its 0x60-byte header) or of a
/// RIFF/WAVE stream (its first `data` chunk), as a byte range.
pub open spec fn spec_find_data_chunk(s: Seq<u8>) -> Result<(int, int), RiffError> {
    if s.len() >= 0x60 && s[0] == 0x45 && s[1] == 0x41 && s[2] == 0x33 {
        Ok((0x60, s.len() as int))
    } else if s.len() < 12 || !tag_is(s, 0, tag_riff()) || !tag_is(s, 8, tag_wave()) {
        Err(RiffError::UnknownContainer)
    } else {
        scan_data_chunk(s, 12)
    }
}

/// Whether the four bytes at `pos` are `a b c d`.
fn tag_at(s: &[u8], pos: usize, a: u8, b: u8, c: u8, d: u8) -> (r: bool)
    requires
        pos + 4 <= s@.len(),
    ensures
        r == tag_is(s@, pos as int, seq![a, b, c, d]),
{
    let r = s[pos] == a && s[pos + 1] == b && s[pos + 2] == c && s[pos + 3] == d;
    proof {
        if r {
            assert(s@.subrange(pos as int, pos + 4) =~= seq![a, b, c, d]);
        } else {
            if s@.subrange(pos as int, pos + 4) == seq![a, b, c, d] {
                assert(s@.subrange(pos as int, pos + 4)[0] == a);
                assert(s@.subrange(pos as int, pos + 4)[1] == b);
                assert(s@.subrange(pos as int, pos + 4)[2] == c);
                assert(s@.subrange(pos as int, pos + 4)[3] == d);
            }
        }
    }
    r
}

/// Appends the four bytes `a b c d`.
fn write_tag(out: &mut Vec<u8>, a: u8, b: u8, c: u8, d: u8)
    ensures
        final(out)@ == old(out)@ + seq![a, b, c, d],
{
    out.push(a);
    out.push(b);
    out.push(c);
    out.push(d);
    assert(out@ =~= old(out)@ + seq![a, b, c, d]);
}

/// Position of the chunk header after the one at `pos`.
fn next_chunk(s: &[u8], pos: usize) -> (next: usize)
    requires
        pos + 8 <= s@.len(),
    ensures
        next == next_chunk_pos(s@, pos as int),
        pos + 8 <= next <= s@.len(),
{
    let len = s.len();
    let size = read_u32(s, pos + 4) as usize;
    let start = pos + 8;
    let rem = len - start;
    if size > rem || rem - size < size % 2 {
        len
    } else {
        start + size + size % 2
    }
}

/// Parses a 16-bit PCM WAV file held in memory.
pub fn parse_pcm_wav(bytes: &[u8]) -> (res: Result<WavPcm, RiffError>)
    ensures
        match res {
            Ok(w) => spec_parse_pcm_wav(bytes@) == Ok::<_, RiffError>(
                (w.channels, w.sample_rate, w.samples@),
            ),
            Err(e) => spec_parse_pcm_wav(bytes@) == Err::<(u16, u32, Seq<i16>), _>(e),
        },
{
    let len = bytes.len();
    if len < 12 {
        return Err(RiffError::Truncated);
    }
    if !tag_at(bytes, 0, 0x52, 0x49, 0x46, 0x46) || !tag_at(bytes, 8, 0x57, 0x41, 0x56, 0x45) {
        return Err(RiffError::NotRiffWave);
    }
    let mut f = PcmFields {
        audio_format: 0,
        channels: 0,
        sample_rate: 0,
        bits_per_sample: 0,
        data_start: 0,
        data_len: 0,
    };
    let mut pos: usize = 12;
    while len - pos >= 8
        invariant
            len == bytes@.len(),
            12 <= pos <= len,
            tag_is(bytes@, 0, tag_riff()),
            tag_is(bytes@, 8, tag_wave()),
            f.data_start + f.data_len <= len,
            scan_pcm(bytes@, 12, pcm_fields_init()) == scan_pcm(bytes@, pos as int, f),
        decreases len - pos,
    {
        let size = read_u32(bytes, pos + 4) as usize;
        let start = pos + 8;
        let next = next_chunk(bytes, pos);
        if tag_at(bytes, pos, 0x66, 0x6d, 0x74, 0x20) {
            if size > len - start {
                return Err(RiffError::Truncated);
            }
            if size < 16 {
                return Err(RiffError::TruncatedFmt);
            }
            f = PcmFields {
                audio_format: read_u16(bytes, start),
                channels: read_u16(bytes, start + 2),
                sample_rate: read_u32(bytes, start + 4),
                bits_per_sample: read_u16(bytes, start + 14),
                data_start: f.data_start,
                data_len: f.data_len,
            };
        } else if tag_at(bytes, pos, 0x64, 0x61, 0x74, 0x61) {
            if size > len - start {
                return Err(RiffError::Truncated);
            }
            f = PcmFields { data_start: start, data_len: size, ..f };
        }
        pos = next;
    }
    if f.audio_format != 1 || f.bits_per_sample != 16 {
        return Err(RiffError::NotPcm16);
    }
    if f.channels == 0 || f.sample_rate == 0 || f.data_len == 0 {
        return Err(RiffError::MissingPcmChunks);
    }
    let ghost d = bytes@.subrange(f.data_start as int, f.data_start + f.data_len);
    let n = f.data_len / 2;
    let mut samples: Vec<i16> = Vec::with_capacity(n);
    let mut i: usize = 0;
    while i < n
        invariant
            n == f.data_len / 2,
            len == bytes@.len(),
            f.data_start + f.data_len <= len,
            d == bytes@.subrange(f.data_start as int, f.data_start + f.data_len),
            i <= n,
            samples@ =~= pcm_samples(d).take(i as int),
        decreases n - i,
    {
        let v = read_u16(bytes, f.data_start + 2 * i);
        samples.push(v as i16);
        i = i + 1;
    }
    assert(samples@ =~= pcm_samples(d));
    Ok(WavPcm { channels: f.channels, sample_rate: f.sample_rate, samples })
}

/// Parses an ATRAC3 RIFF/WAVE file held in memory.
pub fn parse_atrac3_riff(bytes: &[u8]) -> (res: Result<Atrac3Riff, RiffError>)
    ensures
        match res {
            Ok(a) => spec_parse_atrac3_riff(bytes@) == Ok::<_, RiffError>(
                (a.channels, a.sample_rate, a.block_align, a.total_samples_per_channel, a.data@),
            ),
            Err(e) => spec_parse_atrac3_riff(bytes@) == Err::<
                (u16, u32, u16, Option<u32>, Seq<u8>),
                _,
            >(e),
        },
{
    let len = bytes.len();
    if len < 12 {
        return Err(RiffError::Truncated);
    }
    if !tag_at(bytes, 0, 0x52, 0x49, 0x46, 0x46) || !tag_at(bytes, 8, 0x57, 0x41, 0x56, 0x45) {
        return Err(RiffError::NotRiffWave);
    }
    let mut f = Atrac3Fields {
        audio_format: 0,
        channels: 0,
        sample_rate: 0,
        block_align: 0,
        total_samples_per_channel: None,
        data_start: 0,
        data_len: 0,
    };
    let mut pos: usize = 12;
    while len - pos >= 8
        invariant
            len == bytes@.len(),
            12 <= pos <= len,
            tag_is(bytes@, 0, tag_riff()),
            tag_is(bytes@, 8, tag_wave()),
            f.data_start + f.data_len <= len,
            scan_atrac3(bytes@, 12, atrac3_fields_init()) == scan_atrac3(bytes@, pos as int, f),
        decreases len - pos,
    {
        let size = read_u32(bytes, pos + 4) as usize;
        let start = pos + 8;
        let next = next_chunk(bytes, pos);
        if tag_at(bytes, pos, 0x66, 0x6d, 0x74, 0x20) {
            if size > len - start {
                return Err(RiffError::Truncated);
            }
            if size < 14 {
                return Err(RiffError::TruncatedFmt);
            }
            f = Atrac3Fields {
                audio_format: read_u16(bytes, start),
                channels: read_u16(bytes, start + 2),
                sample_rate: read_u32(bytes, start + 4),
                block_align: read_u16(bytes, start + 12),
                ..f
            };
        } else if tag_at(bytes, pos, 0x66, 0x61, 0x63, 0x74) {
            if size > len - start {
                return Err(RiffError::Truncated);
            }
            if size >= 4 {
                f = Atrac3Fields { total_samples_per_channel: Some(read_u32(bytes, start)), ..f };
            }
        } else if tag_at(bytes, pos, 0x64, 0x61, 0x74, 0x61) {
            if size > len - start {
                return Err(RiffError::Truncated);
            }
            f = Atrac3Fields { data_start: start, data_len: size, ..f };
        }
        pos = next;
    }
    if f.audio_format != 0x0270 {
        return Err(RiffError::UnsupportedFormat(f.audio_format));
    }
    if f.channels == 0 || f.sample_rate == 0 || f.block_align == 0 || f.data_len == 0 {
        return Err(RiffError::MissingAtrac3Chunks);
    }
    let data = slice_to_vec(&bytes[f.data_start..f.data_start + f.data_len]);
    Ok(
        Atrac3Riff {
            channels: f.channels,
            sample_rate: f.sample_rate,
            block_align: f.block_align,
            total_samples_per_channel: f.total_samples_per_channel,
            data,
        },
    )
}

/// Appends the `fmt ` chunk of an ATRAC3 RIFF file.
fn write_at3_fmt_chunk(out: &mut Vec<u8>, channels: u16, sample_rate: u32, block_align: u16)
    requires
        block_align * sample_rate <= u32::MAX,
    ensures
        final(out)@ == old(out)@ + at3_fmt_chunk(channels, sample_rate, block_align),
{
    write_tag(out, 0x66, 0x6d, 0x74, 0x20);
    write_le_u32(out, 32);
    write_le_u16(out, 0x0270);
    write_le_u16(out, channels);
    write_le_u32(out, sample_rate);
    write_le_u32(out, (block_align as u32 * sample_rate) / 1024);
    write_le_u16(out, block_align);
    write_le_u16(out, 0);
    write_le_u16(out, 14);
    write_le_u16(out, 1);
    write_le_u32(out, 0x1000);
    write_le_u16(out, 0);
    write_le_u16(out, 0);
    write_le_u16(out, 1);
    write_le_u16(out, 0);
    assert(out@ =~= old(out)@ + at3_fmt_chunk(channels, sample_rate, block_align));
}

/// Appends the `fact` chunk of an ATRAC3 RIFF file.
fn write_at3_fact_chunk(out: &mut Vec<u8>, total_samples: u32)
    ensures
        final(out)@ == old(out)@ + at3_fact_chunk(total_samples),
{
    write_tag(out, 0x66, 0x61, 0x63, 0x74);
    write_le_u32(out, 8);
    write_le_u32(out, total_samples);
    write_le_u32(out, 1024);
    assert(out@ =~= old(out)@ + at3_fact_chunk(total_samples));
}

/// Appends a `smpl` chunk carrying one forward loop.
fn write_at3_smpl_chunk(out: &mut Vec<u8>, sample_rate: u32, loop_info: LoopPoints)
    requires
        sample_rate > 0,
    ensures
        final(out)@ == old(out)@ + at3_smpl_chunk(sample_rate, loop_info),
{
    write_tag(out, 0x73, 0x6d, 0x70, 0x6c);
    write_le_u32(out, 60);
    write_le_u32(out, 0);
    write_le_u32(out, 0);
    write_le_u32(out, 1_000_000_000u32 / sample_rate);
    write_le_u32(out, 60);
    write_le_u32(out, 0);
    write_le_u32(out, 0);
    write_le_u32(out, 0);
    write_le_u32(out, 1);
    write_le_u32(out, 0);
    write_le_u32(out, 0);
    write_le_u32(out, 0);
    write_le_u32(out, loop_info.start);
    write_le_u32(out, loop_info.end);
    write_le_u32(out, 0);
    write_le_u32(out, 0);
    assert(out@ =~= old(out)@ + at3_smpl_chunk(sample_rate, loop_info));
}

/// Appends the header of an ATRAC3 RIFF/WAVE file whose `data` chunk will hold
/// `num_frames` frames of `block_align` bytes; the frames are written after it.
pub fn write_at3_riff(
    out: &mut Vec<u8>,
    channels: u16,
    sample_rate: u32,
    block_align: u16,
    total_samples: u32,
    num_frames: u32,
    loop_points: Option<LoopPoints>,
)
    requires
        at3_riff_writable(sample_rate, block_align, num_frames, loop_points),
    ensures
        final(out)@ == old(out)@ + at3_riff_header(
            channels,
            sample_rate,
            block_align,
            total_samples,
            num_frames,
            loop_points,
        ),
{
    let fact_size: u32 = 8;
    let fmt_size: u32 = 32;
    let data_size = num_frames * block_align as u32;
    let smpl_size: u32 = if loop_points.is_some() {
        60
    } else {
        0
    };
    let riff_size = 4 + (8 + fmt_size) + (8 + fact_size) + if smpl_size > 0 {
        8 + smpl_size
    } else {
        0
    } + (8 + data_size);

    write_tag(out, 0x52, 0x49, 0x46, 0x46);
    write_le_u32(out, riff_size);
    write_tag(out, 0x57, 0x41, 0x56, 0x45);
    let ghost head = out@;

    write_at3_fmt_chunk(out, channels, sample_rate, block_align);
    let ghost head1 = out@;
    write_at3_fact_chunk(out, total_samples);
    let ghost head2 = out@;
    match loop_points {
        Some(loop_info) => write_at3_smpl_chunk(out, sample_rate, loop_info),
        None => {},
    }
    assert(out@ =~= head2 + match loop_points {
        Some(lp) => at3_smpl_chunk(sample_rate, lp),
        None => Seq::<u8>::empty(),
    });
    let ghost head = out@;

    write_tag(out, 0x64, 0x61, 0x74, 0x61);
    write_le_u32(out, data_size);
    assert(out@ =~= head + tag_data() + le32(data_size));
    assert(out@ =~= old(out)@ + at3_riff_header(
        channels,
        sample_rate,
        block_align,
        total_samples,
        num_frames,
        loop_points,
    ));
}

/// Finds the frame payload of an EA3/OMA or RIFF/WAVE ATRAC3 stream.
pub fn find_data_chunk(bytes: &[u8]) -> (res: Result<&[u8], RiffError>)
    ensures
        match spec_find_data_chunk(bytes@) {
            Ok((start, end)) => res matches Ok(d) && d@ == bytes@.subrange(start, end),
            Err(e) => res == Err::<&[u8], _>(e),
        },
{
    let len = bytes.len();
    if len >= 0x60 && bytes[0] == 0x45 && bytes[1] == 0x41 && bytes[2] == 0x33 {
        return Ok(&bytes[0x60..len]);
    }
    if len < 12 || !tag_at(bytes, 0, 0x52, 0x49, 0x46, 0x46) || !tag_at(
        bytes,
        8,
        0x57,
        0x41,
        0x56,
        0x45,
    ) {
        return Err(RiffError::UnknownContainer);
    }
    let mut pos: usize = 12;
    while len - pos >= 8
        invariant
            len == bytes@.len(),
            12 <= pos <= len,
            spec_find_data_chunk(bytes@) == scan_data_chunk(bytes@, pos as int),
        decreases len + 1 - pos,
    {
        let size = read_u32(bytes, pos + 4) as usize;
        let start = pos + 8;
        if size > len - start {
            return Err(RiffError::TruncatedChunk);
        }
        let end = start + size;
        if tag_at(bytes, pos, 0x64, 0x61, 0x74, 0x61) {
            return Ok(&bytes[start..end]);
        }
        if len - end < size % 2 {
            assert(scan_data_chunk(bytes@, end + size % 2) == Err::<(int, int), _>(
                RiffError::MissingDataChunk,
            ));
            return Err(RiffError::MissingDataChunk);
        }
        pos = end + size % 2;
    }
    Err(RiffError::MissingDataChunk)
}

/// Appends a canonical 16-bit PCM WAV file (44-byte header, then the samples).
pub fn write_pcm_wav_bytes(out: &mut Vec<u8>, channels: u16, sample_rate: u32, samples: &[i16])
    requires
        pcm_wav_writable(channels, sample_rate, samples@.len()),
    ensures
        final(out)@ == old(out)@ + pcm_wav_header(channels, sample_rate, samples@.len())
            + pcm_sample_bytes(samples@),
{
    let bits_per_sample: u16 = 16;
    let block_align = channels * (bits_per_sample / 8);
    let byte_rate = sample_rate * block_align as u32;
    let data_size = (samples.len() * 2) as u32;
    write_tag(out, 0x52, 0x49, 0x46, 0x46);
    write_le_u32(out, 36 + data_size);
    write_tag(out, 0x57, 0x41, 0x56, 0x45);
    write_tag(out, 0x66, 0x6d, 0x74, 0x20);
    write_le_u32(out, 16);
    write_le_u16(out, 1);
    write_le_u16(out, channels);
    write_le_u32(out, sample_rate);
    write_le_u32(out, byte_rate);
    write_le_u16(out, block_align);
    write_le_u16(out, bits_per_sample);
    write_tag(out, 0x64, 0x61, 0x74, 0x61);
    write_le_u32(out, data_size);
    let ghost head = out@;
    assert(head =~= old(out)@ + pcm_wav_header(channels, sample_rate, samples@.len()));
    let mut i: usize = 0;
    while i < samples.len()
        invariant
            head == old(out)@ + pcm_wav_header(channels, sample_rate, samples@.len()),
            i <= samples@.len(),
            out@ =~= head + pcm_sample_bytes(samples@.take(i as int)),
        decreases samples@.len() - i,
    {
        write_le_u16(out, samples[i] as u16);
        i = i + 1;
        assert(out@ =~= head + pcm_sample_bytes(samples@.take(i as int)));
    }
    assert(samples@.take(i as int) =~= samples@);
}

/// The fields of the canonical PCM WAV header, each at its offset.
proof fn lemma_pcm_header_fields(channels: u16, sample_rate: u32, n: nat)
    ensures
        ({
            let h = pcm_wav_header(channels, sample_rate, n);
            &&& h.len() == 44
            &&& tag_is(h, 0, tag_riff())
            &&& tag_is(h, 8, tag_wave())
            &&& tag_is(h, 12, tag_fmt())
            &&& tag_is(h, 36, tag_data())
            &&& u32_at(h, 16) == 16
            &&& u16_at(h, 20) == 1
            &&& u16_at(h, 22) == channels
            &&& u32_at(h, 24) == sample_rate
            &&& u16_at(h, 34) == 16
            &&& u32_at(h, 40) == (2 * n) as u32
        }),
{
    let block_align = (channels * 2) as u16;
    let byte_rate = (sample_rate * block_align) as u32;
    let data_size = (n * 2) as u32;
    let s0 = tag_riff();
    let s1 = s0 + le32((36 + data_size) as u32);
    lemma_fields_extend(s0, le32((36 + data_size) as u32));
    assert(s0.subrange(0, 4) =~= tag_riff());
    let s2 = s1 + tag_wave();
    lemma_fields_extend(s1, tag_wave());
    lemma_tag_at_end(s1, tag_wave());
    let s3 = s2 + tag_fmt();
    lemma_fields_extend(s2, tag_fmt());
    lemma_tag_at_end(s2, tag_fmt());
    let s4 = s3 + le32(16);
    lemma_fields_extend(s3, le32(16));
    lemma_u32_at_end(s3, 16);
    let s5 = s4 + le16(1);
    lemma_fields_extend(s4, le16(1));
    lemma_u16_at_end(s4, 1);
    let s6 = s5 + le16(channels);
    lemma_fields_extend(s5, le16(channels));
    lemma_u16_at_end(s5, channels);
    let s7 = s6 + le32(sample_rate);
    lemma_fields_extend(s6, le32(sample_rate));
    lemma_u32_at_end(s6, sample_rate);
    let s8 = s7 + le32(byte_rate);
    lemma_fields_extend(s7, le32(byte_rate));
    let s9 = s8 + le16(block_align);
    lemma_fields_extend(s8, le16(block_align));
    let s10 = s9 + le16(16);
    lemma_fields_extend(s9, le16(16));
    lemma_u16_at_end(s9, 16);
    let s11 = s10 + tag_data();
    lemma_fields_extend(s10, tag_data());
    lemma_tag_at_end(s10, tag_data());
    let s12 = s11 + le32(data_size);
    lemma_fields_extend(s11, le32(data_size));
    lemma_u32_at_end(s11, data_size);
    assert(s12 == pcm_wav_header(channels, sample_rate, n));
}

/// A 16-bit PCM WAV file written by `write_pcm_wav_bytes` parses back to the
/// channel count, sample rate and samples it was written from.
#[verifier::spinoff_prover]
#[verifier::rlimit(30)]
pub proof fn lemma_pcm_wav_roundtrip(channels: u16, sample_rate: u32, samples: Seq<i16>)
    requires
        channels > 0,
        sample_rate > 0,
        samples.len() > 0,
        36 + 2 * samples.len() <= u32::MAX,
    ensures
        spec_parse_pcm_wav(pcm_wav_header(channels, sample_rate, samples.len()) + pcm_sample_bytes(samples))
            == Ok::<_, RiffError>((channels, sample_rate, samples)),
{
    let n = samples.len();
    let h = pcm_wav_header(channels, sample_rate, n);
    let body = pcm_sample_bytes(samples);
    let s = h + body;
    lemma_pcm_header_fields(channels, sample_rate, n);
    lemma_fields_extend(h, body);
    assert(s.len() == 44 + 2 * n);
    assert(tag_is(s, 0, tag_riff()));
    assert(tag_is(s, 8, tag_wave()));
    assert(tag_is(s, 12, tag_fmt()));
    assert(tag_is(s, 36, tag_data()));
    assert(u32_at(s, 16) == 16);
    assert(u32_at(s, 40) == 2 * n);
    let f1 = PcmFields {
        audio_format: 1,
        channels: channels,
        sample_rate: sample_rate,
        bits_per_sample: 16,
        data_start: 0,
        data_len: 0,
    };
    let f2 = PcmFields { data_start: 44, data_len: (2 * n) as usize, ..f1 };
    assert(next_chunk_pos(s, 12) == 36);
    assert(next_chunk_pos(s, 36) == s.len());
    assert(scan_pcm(s, s.len() as int, f2) == Ok::<_, RiffError>(f2));
    assert(scan_pcm(s, 36, f1) == Ok::<_, RiffError>(f2)) by {
        assert(!tag_is(s, 36, tag_fmt()));
    }
    assert(scan_pcm(s, 12, pcm_fields_init()) == Ok::<_, RiffError>(f2)) by {
        assert(u16_at(s, 20) == 1);
        assert(u16_at(s, 22) == channels);
        assert(u32_at(s, 24) == sample_rate);
        assert(u16_at(s, 34) == 16);
    }
    let d = s.subrange(44, (44 + 2 * n) as int);
    assert(d =~= body);
    lemma_pcm_samples_roundtrip(samples);
}

/// A RIFF/WAVE file made of a `fmt ` chunk with payload `fmt`, padded with
/// `pad`, and a `data` chunk with payload `data`.
pub open spec fn wav_with_fmt(riff_size: u32, fmt: Seq<u8>, pad: Seq<u8>, data: Seq<u8>) -> Seq<u8> {
    tag_riff() + le32(riff_size) + tag_wave() + tag_fmt() + le32(fmt.len() as u32) + fmt + pad
        + tag_data() + le32(data.len() as u32) + data
}

/// Where the fields of `wav_with_fmt` lie.
#[verifier::spinoff_prover]
#[verifier::rlimit(50)]
proof fn lemma_wav_with_fmt_fields(riff_size: u32, fmt: Seq<u8>, pad: Seq<u8>, data: Seq<u8>)
    requires
        16 <= fmt.len() <= u32::MAX,
        data.len() <= u32::MAX,
    ensures
        ({
            let s = wav_with_fmt(riff_size, fmt, pad, data);
            let p = (20 + fmt.len() + pad.len()) as int;
            &&& s.len() == p + 8 + data.len()
            &&& tag_is(s, 0, tag_riff())
            &&& tag_is(s, 8, tag_wave())
            &&& tag_is(s, 12, tag_fmt())
            &&& u32_at(s, 16) == fmt.len()
            &&& u16_at(s, 20) == u16_at(fmt, 0)
            &&& u16_at(s, 22) == u16_at(fmt, 2)
            &&& u32_at(s, 24) == u32_at(fmt, 4)
            &&& u16_at(s, 34) == u16_at(fmt, 14)
            &&& tag_is(s, p, tag_data())
            &&& u32_at(s, p + 4) == data.len()
            &&& s.subrange(p + 8, p + 8 + data.len()) == data
        }),
{
    let n = fmt.len();
    let m = data.len();
    let s0 = tag_riff();
    assert(s0.subrange(0, 4) =~= tag_riff());
    let s1 = s0 + le32(riff_size);
    lemma_fields_extend(s0, le32(riff_size));
    let s2 = s1 + tag_wave();
    lemma_fields_extend(s1, tag_wave());
    lemma_tag_at_end(s1, tag_wave());
    let s3 = s2 + tag_fmt();
    lemma_fields_extend(s2, tag_fmt());
    lemma_tag_at_end(s2, tag_fmt());
    let s4 = s3 + le32(n as u32);
    lemma_fields_extend(s3, le32(n as u32));
    lemma_u32_at_end(s3, n as u32);
    let s5 = s4 + fmt;
    lemma_fields_extend(s4, fmt);
    lemma_fields_append(s4, fmt);
    assert(u16_at(s5, 20) == u16_at(fmt, 0));
    assert(u16_at(s5, 22) == u16_at(fmt, 2));
    assert(u32_at(s5, 24) == u32_at(fmt, 4));
    assert(u16_at(s5, 34) == u16_at(fmt, 14));
    let s6 = s5 + pad;
    lemma_fields_extend(s5, pad);
    let s7 = s6 + tag_data();
    lemma_fields_extend(s6, tag_data());
    lemma_tag_at_end(s6, tag_data());
    let s8 = s7 + le32(m as u32);
    lemma_fields_extend(s7, le32(m as u32));
    lemma_u32_at_end(s7, m as u32);
    let s = s8 + data;
    lemma_fields_extend(s8, data);
    assert(s.subrange(s8.len() as int, s8.len() + m as int) =~= data);
    assert(s == wav_with_fmt(riff_size, fmt, pad, data));
}

/// A 16-bit PCM WAV file whose `fmt ` chunk holds `fmt.len() >= 16` bytes (the
/// 16 PCM bytes and any extension after them), padded to an even size, and then a
/// `data` chunk, parses to the channel count and sample rate of the `fmt ` chunk
/// and the samples of the `data` chunk: the walk goes on after the whole `fmt `
/// chunk, whatever its size.
#[verifier::spinoff_prover]
#[verifier::rlimit(50)]
pub proof fn lemma_pcm_wav_fmt_size(riff_size: u32, fmt: Seq<u8>, pad: Seq<u8>, data: Seq<u8>)
    requires
        16 <= fmt.len() <= u32::MAX,
        pad.len() == fmt.len() % 2,
        0 < data.len() <= u32::MAX,
        28 + fmt.len() + pad.len() + data.len() <= usize::MAX,
        u16_at(fmt, 0) == 1,
        u16_at(fmt, 14) == 16,
        u16_at(fmt, 2) != 0,
        u32_at(fmt, 4) != 0,
    ensures
        spec_parse_pcm_wav(wav_with_fmt(riff_size, fmt, pad, data)) == Ok::<_, RiffError>(
            (u16_at(fmt, 2), u32_at(fmt, 4), pcm_samples(data)),
        ),
{
    let s = wav_with_fmt(riff_size, fmt, pad, data);
    let m = data.len();
    let p = (20 + fmt.len() + pad.len()) as int;
    lemma_wav_with_fmt_fields(riff_size, fmt, pad, data);
    lemma_tags_differ();
    let f1 = PcmFields {
        audio_format: 1,
        channels: u16_at(fmt, 2),
        sample_rate: u32_at(fmt, 4),
        bits_per_sample: 16,
        data_start: 0,
        data_len: 0,
    };
    let f2 = PcmFields { data_start: (p + 8) as usize, data_len: m as usize, ..f1 };
    assert(next_chunk_pos(s, 12) == p);
    assert(next_chunk_pos(s, p) == s.len());
    assert(scan_pcm(s, s.len() as int, f2) == Ok::<_, RiffError>(f2));
    assert(scan_pcm(s, p, f1) == Ok::<_, RiffError>(f2)) by {
        assert(!tag_is(s, p, tag_fmt()));
    }
    assert(scan_pcm(s, 12, pcm_fields_init()) == Ok::<_, RiffError>(f2));
}

/// Decoding the bytes of `samples` gives `samples` back.
proof fn lemma_pcm_samples_roundtrip(samples: Seq<i16>)
    ensures
        pcm_samples(pcm_sample_bytes(samples)) == samples,
{
    let d = pcm_sample_bytes(samples);
    assert forall|i: int| 0 <= i < samples.len() implies #[trigger] pcm_samples(d)[i] == samples[i] by {
        let x = samples[i];
        lemma_le16_roundtrip(x as u16);
        assert(d[2 * i] == le16(x as u16)[0]);
        assert(d[2 * i + 1] == le16(x as u16)[1]);
        assert(u16_at(d, 2 * i) == x as u16);
        assert((x as u16) as i16 == x) by (bit_vector);
    }
    assert(pcm_samples(d) =~= samples);
}

/// The fields of the ATRAC3 `fmt ` chunk, each at its offset in the chunk.
proof fn lemma_at3_fmt_fields(channels: u16, sample_rate: u32, block_align: u16)
    ensures
        ({
            let c = at3_fmt_chunk(channels, sample_rate, block_align);
            &&& c.len() == 40
            &&& tag_is(c, 0, tag_fmt())
            &&& u32_at(c, 4) == 32
            &&& u16_at(c, 8) == 0x0270
            &&& u16_at(c, 10) == channels
            &&& u32_at(c, 12) == sample_rate
            &&& u16_at(c, 20) == block_align
        }),
{
    let avg = ((block_align * sample_rate) / 1024) as u32;
    let s0 = tag_fmt();
    assert(s0.subrange(0, 4) =~= tag_fmt());
    let s1 = s0 + le32(32);
    lemma_fields_extend(s0, le32(32));
    lemma_u32_at_end(s0, 32);
    let s2 = s1 + le16(0x0270);
    lemma_fields_extend(s1, le16(0x0270));
    lemma_u16_at_end(s1, 0x0270);
    let s3 = s2 + le16(channels);
    lemma_fields_extend(s2, le16(channels));
    lemma_u16_at_end(s2, channels);
    let s4 = s3 + le32(sample_rate);
    lemma_fields_extend(s3, le32(sample_rate));
    lemma_u32_at_end(s3, sample_rate);
    let s5 = s4 + le32(avg);
    lemma_fields_extend(s4, le32(avg));
    let s6 = s5 + le16(block_align);
    lemma_fields_extend(s5, le16(block_align));
    lemma_u16_at_end(s5, block_align);
    let s7 = s6 + le16(0);
    lemma_fields_extend(s6, le16(0));
    let s8 = s7 + le16(14);
    lemma_fields_extend(s7, le16(14));
    let s9 = s8 + le16(1);
    lemma_fields_extend(s8, le16(1));
    let s10 = s9 + le32(0x1000);
    lemma_fields_extend(s9, le32(0x1000));
    let s11 = s10 + le16(0);
    lemma_fields_extend(s10, le16(0));
    let s12 = s11 + le16(0);
    lemma_fields_extend(s11, le16(0));
    let s13 = s12 + le16(1);
    lemma_fields_extend(s12, le16(1));
    let s14 = s13 + le16(0);
    lemma_fields_extend(s13, le16(0));
    assert(s14 == at3_fmt_chunk(channels, sample_rate, block_align));
}

/// Every ATRAC3 header written declares that the channels are coded
/// separately, as the encoder codes them: the coding-mode field of the `fmt `
/// extension and its copy (file bytes 44..48) are 0, whatever the parameters.
pub proof fn lemma_at3_header_separate_channels(
    channels: u16,
    sample_rate: u32,
    block_align: u16,
    total_samples: u32,
    num_frames: u32,
    loop_points: Option<LoopPoints>,
)
    ensures
        ({
            let h = at3_riff_header(
                channels,
                sample_rate,
                block_align,
                total_samples,
                num_frames,
                loop_points,
            );
            &&& h.len() >= 48
            &&& h[44] == 0 && h[45] == 0 && h[46] == 0 && h[47] == 0
        }),
{
    let h = at3_riff_header(channels, sample_rate, block_align, total_samples, num_frames, loop_points);
    let head = tag_riff() + le32(at3_riff_size(block_align, num_frames, loop_points) as u32) + tag_wave();
    let c = at3_fmt_chunk(channels, sample_rate, block_align);
    assert(head.len() == 12);
    assert(c.len() == 40);
    let avg = ((block_align * sample_rate) / 1024) as u32;
    let pre = tag_fmt() + le32(32) + le16(0x0270) + le16(channels) + le32(sample_rate) + le32(avg)
        + le16(block_align) + le16(0) + le16(14) + le16(1) + le32(0x1000);
    assert(pre.len() == 32);
    let mode = le16(0) + le16(0);
    assert(c == pre + mode + le16(1) + le16(0));
    assert(c[32] == 0 && c[33] == 0 && c[34] == 0 && c[35] == 0) by {
        assert((pre + mode + le16(1) + le16(0))[32] == mode[0]);
        assert((pre + mode + le16(1) + le16(0))[33] == mode[1]);
        assert((pre + mode + le16(1) + le16(0))[34] == mode[2]);
        assert((pre + mode + le16(1) + le16(0))[35] == mode[3]);
    }
    let rest = h.subrange(52, h.len() as int);
    assert(h =~= head + c + rest);
    assert(h[44] == c[32]);
    assert(h[45] == c[33]);
    assert(h[46] == c[34]);
    assert(h[47] == c[35]);
}

/// The fields of the `fact` chunk, each at its offset in the chunk.
proof fn lemma_at3_fact_fields(total_samples: u32)
    ensures
        ({
            let c = at3_fact_chunk(total_samples);
            &&& c.len() == 16
            &&& tag_is(c, 0, tag_fact())
            &&& u32_at(c, 4) == 8
            &&& u32_at(c, 8) == total_samples
        }),
{
    let s0 = tag_fact();
    assert(s0.subrange(0, 4) =~= tag_fact());
    let s1 = s0 + le32(8);
    lemma_fields_extend(s0, le32(8));
    lemma_u32_at_end(s0, 8);
    let s2 = s1 + le32(total_samples);
    lemma_fields_extend(s1, le32(total_samples));
    lemma_u32_at_end(s1, total_samples);
    let s3 = s2 + le32(1024);
    lemma_fields_extend(s2, le32(1024));
}

/// The tag and size of the `smpl` chunk.
proof fn lemma_at3_smpl_fields(sample_rate: u32, lp: LoopPoints)
    ensures
        ({
            let c = at3_smpl_chunk(sample_rate, lp);
            &&& c.len() == 68
            &&& tag_is(c, 0, tag_smpl())
            &&& u32_at(c, 4) == 60
        }),
{
    let c = at3_smpl_chunk(sample_rate, lp);
    let s0 = tag_smpl();
    assert(s0.subrange(0, 4) =~= tag_smpl());
    let s1 = s0 + le32(60);
    lemma_u32_at_end(s0, 60);
    assert(c.subrange(0, 4) =~= s0.subrange(0, 4));
    assert(c[4] == s1[4] && c[5] == s1[5] && c[6] == s1[6] && c[7] == s1[7]);
}

/// The fields of the ATRAC3 RIFF header, each at its offset.
#[verifier::rlimit(30)]
proof fn lemma_at3_header_fields(
    channels: u16,
    sample_rate: u32,
    block_align: u16,
    total_samples: u32,
    num_frames: u32,
    loop_points: Option<LoopPoints>,
)
    ensures
        ({
            let h = at3_riff_header(
                channels,
                sample_rate,
                block_align,
                total_samples,
                num_frames,
                loop_points,
            );
            let dpos = 68 + at3_smpl_bytes(loop_points);
            &&& h.len() == dpos + 8
            &&& tag_is(h, 0, tag_riff())
            &&& tag_is(h, 8, tag_wave())
            &&& tag_is(h, 12, tag_fmt())
            &&& u32_at(h, 16) == 32
            &&& u16_at(h, 20) == 0x0270
            &&& u16_at(h, 22) == channels
            &&& u32_at(h, 24) == sample_rate
            &&& u16_at(h, 32) == block_align
            &&& tag_is(h, 52, tag_fact())
            &&& u32_at(h, 56) == 8
            &&& u32_at(h, 60) == total_samples
            &&& (loop_points is Some ==> tag_is(h, 68, tag_smpl()) && u32_at(h, 72) == 60)
            &&& tag_is(h, dpos, tag_data())
            &&& u32_at(h, dpos + 4) == at3_data_size(block_align, num_frames) as u32
        }),
{
    let ds = at3_data_size(block_align, num_frames) as u32;
    let rs = at3_riff_size(block_align, num_frames, loop_points) as u32;
    let fmt = at3_fmt_chunk(channels, sample_rate, block_align);
    let fact = at3_fact_chunk(total_samples);
    let smpl = match loop_points {
        Some(lp) => at3_smpl_chunk(sample_rate, lp),
        None => Seq::<u8>::empty(),
    };
    lemma_at3_fmt_fields(channels, sample_rate, block_align);
    lemma_at3_fact_fields(total_samples);
    let h0 = tag_riff() + le32(rs) + tag_wave();
    assert(h0.len() == 12);
    assert(h0.subrange(0, 4) =~= tag_riff());
    assert(h0.subrange(8, 12) =~= tag_wave());
    let h1 = h0 + fmt;
    lemma_fields_extend(h0, fmt);
    lemma_fields_append(h0, fmt);
    let h2 = h1 + fact;
    lemma_fields_extend(h1, fact);
    lemma_fields_append(h1, fact);
    let h3 = h2 + smpl;
    lemma_fields_extend(h2, smpl);
    match loop_points {
        Some(lp) => {
            lemma_at3_smpl_fields(sample_rate, lp);
            lemma_fields_append(h2, smpl);
        },
        None => {},
    }
    let h4 = h3 + tag_data();
    lemma_fields_extend(h3, tag_data());
    lemma_tag_at_end(h3, tag_data());
    let h5 = h4 + le32(ds);
    lemma_fields_extend(h4, le32(ds));
    lemma_u32_at_end(h4, ds);
    assert(h5 == at3_riff_header(
        channels,
        sample_rate,
        block_align,
        total_samples,
        num_frames,
        loop_points,
    ));
}

/// One step of the ATRAC3 chunk walk over a complete `fmt ` chunk.
proof fn lemma_scan_atrac3_fmt(s: Seq<u8>, pos: int, f: Atrac3Fields)
    requires
        0 <= pos,
        pos + 8 <= s.len(),
        tag_is(s, pos, tag_fmt()),
        14 <= u32_at(s, pos + 4),
        pos + 8 + u32_at(s, pos + 4) <= s.len(),
    ensures
        scan_atrac3(s, pos, f) == scan_atrac3(
            s,
            next_chunk_pos(s, pos),
            Atrac3Fields {
                audio_format: u16_at(s, pos + 8),
                channels: u16_at(s, pos + 10),
                sample_rate: u32_at(s, pos + 12),
                block_align: u16_at(s, pos + 20),
                ..f
            },
        ),
{
}

/// One step of the ATRAC3 chunk walk over a complete `fact` chunk.
proof fn lemma_scan_atrac3_fact(s: Seq<u8>, pos: int, f: Atrac3Fields)
    requires
        0 <= pos,
        pos + 8 <= s.len(),
        tag_is(s, pos, tag_fact()),
        4 <= u32_at(s, pos + 4),
        pos + 8 + u32_at(s, pos + 4) <= s.len(),
    ensures
        scan_atrac3(s, pos, f) == scan_atrac3(
            s,
            next_chunk_pos(s, pos),
            Atrac3Fields { total_samples_per_channel: Some(u32_at(s, pos + 8)), ..f },
        ),
{
    assert(tag_fact()[1] != tag_fmt()[1]);
}

/// One step of the ATRAC3 chunk walk over a chunk it does not read.
proof fn lemma_scan_atrac3_skip(s: Seq<u8>, pos: int, f: Atrac3Fields)
    requires
        0 <= pos,
        pos + 8 <= s.len(),
        tag_is(s, pos, tag_smpl()),
    ensures
        scan_atrac3(s, pos, f) == scan_atrac3(s, next_chunk_pos(s, pos), f),
{
    assert(tag_smpl()[0] != tag_fmt()[0]);
    assert(tag_smpl()[0] != tag_fact()[0]);
    assert(tag_smpl()[0] != tag_data()[0]);
}

/// The last step of the ATRAC3 chunk walk: a `data` chunk reaching the end of the stream.
proof fn lemma_scan_atrac3_data_last(s: Seq<u8>, pos: int, f: Atrac3Fields)
    requires
        0 <= pos,
        pos + 8 <= s.len(),
        tag_is(s, pos, tag_data()),
        pos + 8 + u32_at(s, pos + 4) == s.len(),
    ensures
        scan_atrac3(s, pos, f) == Ok::<_, RiffError>(
            Atrac3Fields {
                data_start: (pos + 8) as usize,
                data_len: u32_at(s, pos + 4) as usize,
                ..f
            },
        ),
{
    assert(tag_data()[0] != tag_fmt()[0]);
    assert(tag_data()[0] != tag_fact()[0]);
    let f2 = Atrac3Fields {
        data_start: (pos + 8) as usize,
        data_len: u32_at(s, pos + 4) as usize,
        ..f
    };
    assert(next_chunk_pos(s, pos) == s.len());
    assert(scan_atrac3(s, s.len() as int, f2) == Ok::<_, RiffError>(f2));
}

/// An ATRAC3 RIFF file made of the header that `write_at3_riff` writes and
/// `num_frames` frames of `block_align` bytes parses back to the parameters the
/// header was written with, the `fact` sample count, and the frames.
#[verifier::spinoff_prover]
#[verifier::rlimit(30)]
pub proof fn lemma_at3_riff_roundtrip(
    channels: u16,
    sample_rate: u32,
    block_align: u16,
    total_samples: u32,
    num_frames: u32,
    loop_points: Option<LoopPoints>,
    frames: Seq<u8>,
)
    requires
        channels > 0,
        sample_rate > 0,
        block_align > 0,
        num_frames > 0,
        at3_riff_size(block_align, num_frames, loop_points) <= u32::MAX,
        frames.len() == at3_data_size(block_align, num_frames),
    ensures
        spec_parse_atrac3_riff(
            at3_riff_header(
                channels,
                sample_rate,
                block_align,
                total_samples,
                num_frames,
                loop_points,
            ) + frames,
        ) == Ok::<_, RiffError>((channels, sample_rate, block_align, Some(total_samples), frames)),
{
    let ds = frames.len() as int;
    assert(ds > 0) by (nonlinear_arith)
        requires
            ds == num_frames * block_align,
            num_frames >= 1,
            block_align >= 1,
    ;
    let h = at3_riff_header(
        channels,
        sample_rate,
        block_align,
        total_samples,
        num_frames,
        loop_points,
    );
    lemma_at3_header_fields(
        channels,
        sample_rate,
        block_align,
        total_samples,
        num_frames,
        loop_points,
    );
    let s = h + frames;
    lemma_fields_extend(h, frames);
    let dpos = 68 + at3_smpl_bytes(loop_points);
    assert(s.len() == dpos + 8 + ds);
    assert(tag_is(s, 0, tag_riff()));
    assert(tag_is(s, 8, tag_wave()));
    assert(tag_is(s, 12, tag_fmt()));
    assert(u32_at(s, 16) == 32);
    assert(tag_is(s, 52, tag_fact()));
    assert(u32_at(s, 56) == 8);
    assert(tag_is(s, dpos, tag_data()));
    assert(u32_at(s, dpos + 4) == ds);
    let f0 = atrac3_fields_init();
    let f1 = Atrac3Fields {
        audio_format: 0x0270,
        channels: channels,
        sample_rate: sample_rate,
        block_align: block_align,
        ..f0
    };
    let f2 = Atrac3Fields { total_samples_per_channel: Some(total_samples), ..f1 };
    let f3 = Atrac3Fields { data_start: (dpos + 8) as usize, data_len: ds as usize, ..f2 };
    lemma_scan_atrac3_data_last(s, dpos, f2);
    if loop_points is Some {
        assert(tag_is(s, 68, tag_smpl()));
        assert(u32_at(s, 72) == 60);
        assert(next_chunk_pos(s, 68) == 136);
        lemma_scan_atrac3_skip(s, 68, f2);
    }
    assert(next_chunk_pos(s, 52) == 68);
    assert(u32_at(s, 60) == total_samples);
    lemma_scan_atrac3_fact(s, 52, f1);
    assert(next_chunk_pos(s, 12) == 52);
    assert(u16_at(s, 20) == 0x0270);
    assert(u16_at(s, 22) == channels);
    assert(u32_at(s, 24) == sample_rate);
    assert(u16_at(s, 32) == block_align);
    lemma_scan_atrac3_fmt(s, 12, f0);
    assert(s.subrange(dpos + 8, dpos + 8 + ds) =~= frames);
}

proof fn lemma_tags_differ()
    ensures
        tag_fmt() != tag_data(),
        tag_fact() != tag_data(),
        tag_smpl() != tag_data(),
{
    assert(tag_fmt()[1] != tag_data()[1]);
    assert(tag_fact()[2] != tag_data()[2]);
    assert(tag_smpl()[0] != tag_data()[0]);
}

/// The data-chunk search passes over a complete chunk that is not `data`.
proof fn lemma_scan_data_skip(s: Seq<u8>, pos: int, t: Seq<u8>, size: int)
    requires
        0 <= pos,
        pos + 8 <= s.len(),
        tag_is(s, pos, t),
        t != tag_data(),
        u32_at(s, pos + 4) == size,
        pos + 8 + size <= s.len(),
    ensures
        scan_data_chunk(s, pos) == scan_data_chunk(s, pos + 8 + size + size % 2),
{
}

proof fn lemma_frames_found_in(h: Seq<u8>, frames: Seq<u8>, smpl: int)
    requires
        smpl == 0 || smpl == 68,
        h.len() == 68 + smpl + 8,
        tag_is(h, 0, tag_riff()),
        tag_is(h, 8, tag_wave()),
        tag_is(h, 12, tag_fmt()),
        u32_at(h, 16) == 32,
        tag_is(h, 52, tag_fact()),
        u32_at(h, 56) == 8,
        smpl == 68 ==> tag_is(h, 68, tag_smpl()) && u32_at(h, 72) == 60,
        tag_is(h, 68 + smpl, tag_data()),
        u32_at(h, 68 + smpl + 4) == frames.len(),
    ensures
        spec_find_data_chunk(h + frames) == Ok::<_, RiffError>((h.len() as int, (h.len() + frames.len()) as int)),
        (h + frames).subrange(h.len() as int, (h.len() + frames.len()) as int) == frames,
{
    lemma_tags_differ();
    let s = h + frames;
    lemma_fields_extend(h, frames);
    let dpos = 68 + smpl;
    let ds = frames.len() as int;
    assert(s.len() == dpos + 8 + ds);
    assert(tag_is(s, 0, tag_riff()));
    assert(tag_is(s, 8, tag_wave()));
    assert(s[0] == 0x52) by {
        assert(s.subrange(0, 4)[0] == tag_riff()[0]);
    }
    assert(tag_is(s, dpos, tag_data()));
    assert(u32_at(s, dpos + 4) == ds);
    assert(scan_data_chunk(s, dpos) == Ok::<_, RiffError>((dpos + 8, dpos + 8 + ds)));
    if smpl == 68 {
        assert(tag_is(s, 68, tag_smpl()));
        assert(u32_at(s, 72) == 60);
        lemma_scan_data_skip(s, 68, tag_smpl(), 60);
    }
    assert(tag_is(s, 52, tag_fact()));
    assert(u32_at(s, 56) == 8);
    lemma_scan_data_skip(s, 52, tag_fact(), 8);
    assert(tag_is(s, 12, tag_fmt()));
    assert(u32_at(s, 16) == 32);
    lemma_scan_data_skip(s, 12, tag_fmt(), 32);
    assert(s.subrange(dpos + 8, dpos + 8 + ds) =~= frames);
}

/// The frame finder of the frame dump finds exactly the frames behind a
/// written ATRAC3 RIFF/WAVE header: its `data` chunk.
pub proof fn lemma_at3_frames_found(
    channels: u16,
    sample_rate: u32,
    block_align: u16,
    total_samples: u32,
    num_frames: u32,
    loop_points: Option<LoopPoints>,
    frames: Seq<u8>,
)
    requires
        at3_riff_size(block_align, num_frames, loop_points) <= u32::MAX,
        frames.len() == at3_data_size(block_align, num_frames),
    ensures
        ({
            let h = at3_riff_header(
                channels,
                sample_rate,
                block_align,
                total_samples,
                num_frames,
                loop_points,
            );
            &&& spec_find_data_chunk(h + frames) == Ok::<_, RiffError>(
                (h.len() as int, (h.len() + frames.len()) as int),
            )
            &&& (h + frames).subrange(h.len() as int, (h.len() + frames.len()) as int) == frames
        }),
{
    lemma_at3_header_fields(
        channels,
        sample_rate,
        block_align,
        total_samples,
        num_frames,
        loop_points,
    );
    let h = at3_riff_header(
        channels,
        sample_rate,
        block_align,
        total_samples,
        num_frames,
        loop_points,
    );
    assert(frames.len() == at3_data_size(block_align, num_frames) as u32);
    lemma_frames_found_in(h, frames, at3_smpl_bytes(loop_points));
}

} // verus!
