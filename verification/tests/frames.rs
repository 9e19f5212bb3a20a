use at3rs::codec::{AtracContext, CodecType, GhaContext};
use at3rs::encoder::{choose_atrac3_block_align, frame_pcm, plan_encode, EncodeError};

#[test]
fn block_align_for_common_bitrates() {
    assert_eq!(choose_atrac3_block_align(2, 44_100, 132), 384);
    assert_eq!(choose_atrac3_block_align(2, 44_100, 105), 304);
    assert_eq!(choose_atrac3_block_align(2, 44_100, 66), 192);
    assert_eq!(choose_atrac3_block_align(1, 44_100, 66), 192);
    assert_eq!(choose_atrac3_block_align(1, 44_100, 10), 96);
    assert_eq!(choose_atrac3_block_align(1, 44_100, 1000), 192);
}

#[test]
fn plan_rejects_unsupported_input() {
    assert_eq!(plan_encode(2, 48_000, 10, 132, None).unwrap_err(), EncodeError::UnsupportedSampleRate);
    assert_eq!(plan_encode(3, 44_100, 10, 132, None).unwrap_err(), EncodeError::UnsupportedChannels);
}

#[test]
fn plan_counts_frames() {
    let s = plan_encode(2, 44_100, 4097, 132, None).unwrap();
    assert_eq!(s.frames, 3);
    assert_eq!(s.block_align, 384);
    assert_eq!(s.valid_samples_per_channel, 2048);
    let s = plan_encode(2, 44_100, 4097, 132, Some(1)).unwrap();
    assert_eq!(s.frames, 1);
    let s = plan_encode(1, 44_100, 2048, 132, Some(0)).unwrap();
    assert_eq!(s.frames, 2);
}

#[test]
fn frame_is_zero_padded() {
    let samples: Vec<i16> = (1..=10).collect();
    assert_eq!(frame_pcm(&samples, 8, 4), vec![9, 10, 0, 0]);
    assert_eq!(frame_pcm(&samples, 2, 3), vec![3, 4, 5]);
    assert_eq!(frame_pcm(&samples, 10, 2), vec![0, 0]);
}

#[test]
fn legacy_context_frame_size() {
    let c = AtracContext::new(CodecType::Atrac3, 2, 44_100, 132);
    assert_eq!(c.block_align, 16_896);
    assert_eq!(c.gha_ctx.size, 2048);
    let c = AtracContext::new(CodecType::Atrac3Plus, 2, 44_100, 132);
    assert_eq!(c.block_align, 132 * 1000 / 21 / 8);
    assert_eq!(GhaContext::new(7).size, 7);
}
