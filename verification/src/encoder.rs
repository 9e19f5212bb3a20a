//! Frame bookkeeping of the ATRAC3 encoder: block alignment for a bitrate,
//! input validation and the split of interleaved PCM into frames.
use vstd::prelude::*;
use crate::ATRAC3_SAMPLES_PER_FRAME;

verus! {

/// A named encoder quality preset.
#[derive(Clone, Copy, Debug, PartialEq, Eq, Structural)]
pub enum EncoderQuality {
    Standard,
    High,
}

/// Summary returned after an encode operation.
#[derive(Clone, Copy, Debug)]
pub struct EncodeSummary {
    pub frames: usize,
    pub channels: u16,
    pub sample_rate: u32,
    pub block_align: usize,
    pub valid_samples_per_channel: u32,
}

/// Why PCM input cannot be encoded.
#[derive(Clone, Copy, Debug, PartialEq, Eq, Structural)]
pub enum EncodeError {
    /// Only 44.1 kHz input is supported.
    UnsupportedSampleRate,
    /// Only mono and stereo input are supported.
    UnsupportedChannels,
}

/// Frame size in bytes that `bitrate_kbps` asks for at `sample_rate`.
pub open spec fn block_align_target(sample_rate: u32, bitrate_kbps: u32) -> int {
    (bitrate_kbps * 1000 * 1024) / (sample_rate * 8)
}

/// The absolute value of `x`.
pub open spec fn abs_int(x: int) -> int {
    if x < 0 {
        -x
    } else {
        x
    }
}

/// The legal ATRAC3 frame size (96, 152 or 192 bytes per channel) nearest to
/// the target; on a tie the smaller one.
pub open spec fn spec_block_align(channels: u16, sample_rate: u32, bitrate_kbps: u32) -> int {
    let t = block_align_target(sample_rate, bitrate_kbps);
    let c0 = 96 * channels;
    let c1 = 152 * channels;
    let c2 = 192 * channels;
    if abs_int(t - c0) <= abs_int(t - c1) && abs_int(t - c0) <= abs_int(t - c2) {
        c0
    } else if abs_int(t - c1) <= abs_int(t - c2) {
        c1
    } else {
        c2
    }
}

/// Chooses the ATRAC3 frame size in bytes nearest to `bitrate_kbps`.
pub fn choose_atrac3_block_align(channels: u16, sample_rate: u32, bitrate_kbps: u32) -> (r: usize)
    requires
        sample_rate > 0,
    ensures
        r == spec_block_align(channels, sample_rate, bitrate_kbps),
{
    let c0 = 96usize * channels as usize;
    let c1 = 152usize * channels as usize;
    let c2 = 192usize * channels as usize;
    let per_frame = ATRAC3_SAMPLES_PER_FRAME as u64;
    let kbits = bitrate_kbps as u64 * 1000;
    assert(kbits * per_frame <= 0x10_0000_0000_0000) by (nonlinear_arith)
        requires
            kbits <= 4_294_967_295_000,
            per_frame == 1024,
    ;
    let num = kbits * per_frame;
    let den = sample_rate as u64 * 8;
    let q = num / den;
    assert(q <= num) by (nonlinear_arith)
        requires
            den >= 1,
            q == num / den,
    ;
    let target = q as i64;
    assert(target == block_align_target(sample_rate, bitrate_kbps));
    let d0 = abs_diff_i64(target, c0 as i64);
    let d1 = abs_diff_i64(target, c1 as i64);
    let d2 = abs_diff_i64(target, c2 as i64);
    if d0 <= d1 && d0 <= d2 {
        c0
    } else if d1 <= d2 {
        c1
    } else {
        c2
    }
}

fn abs_diff_i64(a: i64, b: i64) -> (r: i64)
    requires
        -0x1000_0000_0000_0000 <= a <= 0x1000_0000_0000_0000,
        -0x1000_0000_0000_0000 <= b <= 0x1000_0000_0000_0000,
    ensures
        r == abs_int(a - b),
{
    let d = a - b;
    if d < 0 {
        -d
    } else {
        d
    }
}

/// Number of frames needed for `num_samples` interleaved samples, capped by a
/// positive frame limit.
pub open spec fn spec_num_frames(num_samples: nat, samples_per_frame: nat, max_frames: Option<usize>) -> nat {
    let all = (num_samples + samples_per_frame - 1) / (samples_per_frame as int);
    match max_frames {
        Some(limit) => if limit > 0 && limit < all {
            limit as nat
        } else {
            all as nat
        },
        None => all as nat,
    }
}

/// Checks PCM input parameters and plans the encode: frame size, frame count
/// and the number of whole samples per channel.
pub fn plan_encode(
    channels: u16,
    sample_rate: u32,
    num_samples: usize,
    bitrate_kbps: u32,
    max_frames: Option<usize>,
) -> (res: Result<EncodeSummary, EncodeError>)
    ensures
        sample_rate != 44_100 ==> res == Err::<EncodeSummary, _>(EncodeError::UnsupportedSampleRate),
        sample_rate == 44_100 && channels != 1 && channels != 2 ==> res == Err::<EncodeSummary, _>(
            EncodeError::UnsupportedChannels,
        ),
        sample_rate == 44_100 && (channels == 1 || channels == 2) ==> (res matches Ok(s) && {
            &&& s.channels == channels
            &&& s.sample_rate == sample_rate
            &&& s.block_align == spec_block_align(channels, sample_rate, bitrate_kbps)
            &&& s.valid_samples_per_channel == (num_samples as int / channels as int) as u32
            &&& s.frames == spec_num_frames(num_samples as nat, 1024 * channels as nat, max_frames)
        }),
{
    if sample_rate != 44_100 {
        return Err(EncodeError::UnsupportedSampleRate);
    }
    if !(channels == 1 || channels == 2) {
        return Err(EncodeError::UnsupportedChannels);
    }
    let block_align = choose_atrac3_block_align(channels, sample_rate, bitrate_kbps);
    let samples_per_frame = ATRAC3_SAMPLES_PER_FRAME * channels as usize;
    let valid_samples_per_channel = (num_samples / channels as usize) as u32;
    let mut num_frames = num_samples / samples_per_frame;
    if num_samples % samples_per_frame != 0 {
        num_frames = num_frames + 1;
    }
    assert(num_frames == (num_samples + samples_per_frame - 1) / (samples_per_frame as int)) by (nonlinear_arith)
        requires
            samples_per_frame > 0,
            num_frames == num_samples / samples_per_frame + if num_samples % samples_per_frame
                != 0 {
                1int
            } else {
                0int
            },
    ;
    match max_frames {
        Some(limit) => {
            if limit > 0 && limit < num_frames {
                num_frames = limit;
            }
        },
        None => {},
    }
    Ok(
        EncodeSummary {
            frames: num_frames,
            channels,
            sample_rate,
            block_align,
            valid_samples_per_channel,
        },
    )
}

/// The samples of one frame: `frame_len` samples from `start` on, padded with
/// zeros past the end of the input.
pub open spec fn spec_frame_pcm(samples: Seq<i16>, start: int, frame_len: int) -> Seq<i16> {
    let end = if start + frame_len <= samples.len() {
        start + frame_len
    } else {
        samples.len() as int
    };
    samples.subrange(start, end) + Seq::new((frame_len - (end - start)) as nat, |i: int| 0i16)
}

/// Splitting input into frames of `spf` samples loses nothing: sample `i`
/// lies in frame `i / spf` (one of the frames counted without a frame limit)
/// at position `i % spf`.
pub proof fn lemma_frames_cover_samples(samples: Seq<i16>, spf: nat, i: int)
    requires
        spf > 0,
        0 <= i < samples.len(),
    ensures
        i / (spf as int) < spec_num_frames(samples.len(), spf, None),
        spec_frame_pcm(samples, (i / (spf as int)) * spf, spf as int)[i % (spf as int)] == samples[i],
{
    let q = i / (spf as int);
    let r = i % (spf as int);
    let n = samples.len() as int;
    assert(i == q * spf + r && 0 <= r < spf && 0 <= q) by (nonlinear_arith)
        requires
            q == i / (spf as int),
            r == i % (spf as int),
            spf > 0,
            i >= 0,
    ;
    assert(q < (n + spf - 1) / (spf as int)) by (nonlinear_arith)
        requires
            i == q * spf + r,
            0 <= r < spf,
            i < n,
            spf > 0,
    ;
    let start = q * spf;
    let end = if start + spf <= n {
        start + spf
    } else {
        n
    };
    assert(spec_frame_pcm(samples, start, spf as int) == samples.subrange(start, end) + Seq::new(
        (spf - (end - start)) as nat,
        |k: int| 0i16,
    ));
    assert(r < end - start);
}

/// Copies the frame starting at sample `start` into a buffer of `frame_len`
/// samples, zero-padding past the end of the input.
pub fn frame_pcm(samples: &[i16], start: usize, frame_len: usize) -> (frame: Vec<i16>)
    requires
        start <= samples@.len(),
    ensures
        frame@ == spec_frame_pcm(samples@, start as int, frame_len as int),
        frame@.len() == frame_len,
{
    let len = samples.len();
    let end = if frame_len <= len - start {
        start + frame_len
    } else {
        len
    };
    let mut frame: Vec<i16> = Vec::with_capacity(frame_len);
    let mut i = start;
    while i < end
        invariant
            start <= i <= end <= len,
            len == samples@.len(),
            frame@ =~= samples@.subrange(start as int, i as int),
        decreases end - i,
    {
        frame.push(samples[i]);
        i += 1;
    }
    let mut k = end - start;
    while k < frame_len
        invariant
            end - start <= k <= frame_len,
            end - start <= frame_len,
            frame@ =~= samples@.subrange(start as int, end as int) + Seq::new(
                (k - (end - start)) as nat,
                |i: int| 0i16,
            ),
        decreases frame_len - k,
    {
        frame.push(0);
        k += 1;
    }
    frame
}

} // verus!
