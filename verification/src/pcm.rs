//! Moving one channel in and out of interleaved PCM frames.
use vstd::prelude::*;
use vstd::arithmetic::div_mod::lemma_fundamental_div_mod_converse;

verus! {

/// Channel `ch` of the first `frames` frames of interleaved PCM with
/// `channels` channels.
pub open spec fn channel_samples(pcm: Seq<i16>, channels: nat, ch: nat, frames: nat) -> Seq<i16> {
    Seq::new(frames, |i: int| pcm[i * channels + ch])
}

/// Interleaved PCM `pcm` with channel `ch` of its first frames replaced by
/// `samples`.
pub open spec fn with_channel(pcm: Seq<i16>, samples: Seq<i16>, channels: nat, ch: nat) -> Seq<i16> {
    Seq::new(
        pcm.len(),
        |k: int|
            if k < samples.len() * channels && k % (channels as int) == ch {
                samples[k / (channels as int)]
            } else {
                pcm[k]
            },
    )
}

proof fn lemma_interleaved_index(i: int, channels: int, ch: int, frames: int)
    requires
        0 <= i < frames,
        0 <= ch < channels,
    ensures
        0 <= i * channels + ch < frames * channels,
{
    assert(i * channels + ch < (i + 1) * channels) by (nonlinear_arith)
        requires
            ch < channels,
    ;
    assert((i + 1) * channels <= frames * channels) by (nonlinear_arith)
        requires
            i + 1 <= frames,
            channels >= 0,
    ;
    assert(0 <= i * channels) by (nonlinear_arith)
        requires
            0 <= i,
            0 <= channels,
    ;
}

proof fn lemma_interleaved_distinct(i: int, j: int, channels: int, ch: int, c2: int)
    requires
        0 <= ch < channels,
        0 <= c2 < channels,
        0 <= i,
        0 <= j,
        i * channels + ch == j * channels + c2,
    ensures
        i == j,
        ch == c2,
{
    if i < j {
        assert((i + 1) * channels <= j * channels) by (nonlinear_arith)
            requires
                i + 1 <= j,
                channels >= 0,
        ;
        assert((i + 1) * channels == i * channels + channels) by (nonlinear_arith);
    } else if j < i {
        assert((j + 1) * channels <= i * channels) by (nonlinear_arith)
            requires
                j + 1 <= i,
                channels >= 0,
        ;
        assert((j + 1) * channels == j * channels + channels) by (nonlinear_arith);
    }
}

/// Channel `ch` of the first `frames` interleaved frames of `pcm`.
pub fn deinterleave_channel(pcm: &[i16], channels: usize, ch: usize, frames: usize) -> (out: Vec<i16>)
    requires
        ch < channels,
        frames * channels <= pcm@.len(),
    ensures
        out@ == channel_samples(pcm@, channels as nat, ch as nat, frames as nat),
{
    let mut out: Vec<i16> = Vec::new();
    let len = pcm.len();
    let mut i: usize = 0;
    while i < frames
        invariant
            len == pcm@.len(),
            ch < channels,
            frames * channels <= pcm@.len(),
            i <= frames,
            out@ == Seq::new(i as nat, |k: int| pcm@[k * channels + ch]),
        decreases frames - i,
    {
        proof {
            lemma_interleaved_index(i as int, channels as int, ch as int, frames as int);
        }
        out.push(pcm[i * channels + ch]);
        i += 1;
        assert(out@ =~= Seq::new(i as nat, |k: int| pcm@[k * channels + ch]));
    }
    out
}

/// Writes `samples` as channel `ch` of interleaved frames of `pcm_out`,
/// leaving the other channels as they were.
pub fn interleave_channel(pcm_out: &mut [i16], samples: &[i16], channels: usize, ch: usize)
    requires
        ch < channels,
        samples@.len() * channels <= old(pcm_out)@.len(),
    ensures
        final(pcm_out)@ == with_channel(old(pcm_out)@, samples@, channels as nat, ch as nat),
        final(pcm_out)@.len() == old(pcm_out)@.len(),
        forall|i: int| 0 <= i < samples@.len() ==> #[trigger] final(pcm_out)@[i * channels + ch] == samples@[i],
        forall|k: int|
            0 <= k < old(pcm_out)@.len() && (k >= samples@.len() * channels || k % (channels as int) != ch)
                ==> #[trigger] final(pcm_out)@[k] == old(pcm_out)@[k],
{
    let n = samples.len();
    let len = pcm_out.len();
    let mut i: usize = 0;
    while i < n
        invariant
            len == pcm_out@.len(),
            ch < channels,
            n == samples@.len(),
            n * channels <= pcm_out@.len(),
            pcm_out@.len() == old(pcm_out)@.len(),
            i <= n,
            forall|j: int| 0 <= j < i ==> #[trigger] pcm_out@[j * channels + ch] == samples@[j],
            forall|k: int|
                0 <= k < old(pcm_out)@.len() && (k >= i * channels || k % (channels as int) != ch)
                    ==> #[trigger] pcm_out@[k] == old(pcm_out)@[k],
        decreases n - i,
    {
        proof {
            lemma_interleaved_index(i as int, channels as int, ch as int, n as int);
        }
        let idx = i * channels + ch;
        let ghost before = pcm_out@;
        pcm_out[idx] = samples[i];
        proof {
            assert(pcm_out@ == before.update(idx as int, samples@[i as int]));
            assert forall|j: int| 0 <= j < i + 1 implies #[trigger] pcm_out@[j * channels + ch] == samples@[j] by {
                if j < i {
                    lemma_interleaved_index(j, channels as int, ch as int, n as int);
                    if j * channels + ch == idx {
                        lemma_interleaved_distinct(j, i as int, channels as int, ch as int, ch as int);
                    }
                    assert(before[j * channels + ch] == samples@[j]);
                }
            }
            assert forall|k: int|
                0 <= k < old(pcm_out)@.len() && (k >= (i + 1) * channels || k % (channels as int) != ch)
                    implies #[trigger] pcm_out@[k] == old(pcm_out)@[k] by {
                if k == idx {
                    assert((i * channels + ch) % (channels as int) == ch) by (nonlinear_arith)
                        requires
                            0 <= ch < channels,
                            0 <= i,
                    ;
                    assert((i + 1) * channels == i * channels + channels) by (nonlinear_arith);
                }
                if k >= (i + 1) * channels {
                    assert((i + 1) * channels == i * channels + channels) by (nonlinear_arith);
                }
            }
        }
        i += 1;
    }
    proof {
        let w = with_channel(old(pcm_out)@, samples@, channels as nat, ch as nat);
        assert forall|k: int| 0 <= k < pcm_out@.len() implies #[trigger] pcm_out@[k] == w[k] by {
            if k < n * channels && k % (channels as int) == ch {
                let j = k / (channels as int);
                assert(k == j * channels + ch) by (nonlinear_arith)
                    requires
                        j == k / (channels as int),
                        ch == k % (channels as int),
                        channels > 0,
                ;
                assert(j < n) by (nonlinear_arith)
                    requires
                        k == j * channels + ch,
                        k < n * channels,
                        0 <= ch,
                        channels > 0,
                ;
                assert(0 <= j) by (nonlinear_arith)
                    requires
                        j == k / (channels as int),
                        k >= 0,
                        channels > 0,
                ;
                assert(pcm_out@[j * channels + ch] == samples@[j]);
            }
        }
        assert(pcm_out@ =~= w);
    }
}

/// Writing a channel into interleaved PCM and reading it back gives the
/// samples written, and leaves every other channel as it was.
pub proof fn lemma_channel_roundtrip(pcm: Seq<i16>, samples: Seq<i16>, channels: nat, ch: nat, other: nat)
    requires
        ch < channels,
        other < channels,
        samples.len() * channels <= pcm.len(),
    ensures
        channel_samples(with_channel(pcm, samples, channels, ch), channels, ch, samples.len()) == samples,
        other != ch ==> channel_samples(with_channel(pcm, samples, channels, ch), channels, other, samples.len())
            == channel_samples(pcm, channels, other, samples.len()),
{
    let w = with_channel(pcm, samples, channels, ch);
    let n = samples.len();
    assert forall|i: int| 0 <= i < n implies #[trigger] channel_samples(w, channels, ch, n)[i] == samples[i] by {
        lemma_interleaved_index(i, channels as int, ch as int, n as int);
        lemma_fundamental_div_mod_converse(i * channels + ch, channels as int, i, ch as int);
    }
    assert(channel_samples(w, channels, ch, n) =~= samples);
    if other != ch {
        assert forall|i: int| 0 <= i < n implies #[trigger] channel_samples(w, channels, other, n)[i]
            == channel_samples(pcm, channels, other, n)[i] by {
            lemma_interleaved_index(i, channels as int, other as int, n as int);
            lemma_fundamental_div_mod_converse(i * channels + other, channels as int, i, other as int);
        }
        assert(channel_samples(w, channels, other, n) =~= channel_samples(pcm, channels, other, n));
    }
}

} // verus!
