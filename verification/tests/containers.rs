use at3rs::riff::{
    find_data_chunk, parse_atrac3_riff, parse_pcm_wav, write_at3_riff, write_pcm_wav_bytes,
    LoopPoints, RiffError,
};

#[test]
fn pcm_wav_roundtrip() {
    let samples: Vec<i16> = vec![0, 1, -1, 32767, -32768, 1234, -4321, 7];
    let mut bytes = Vec::new();
    write_pcm_wav_bytes(&mut bytes, 2, 44_100, &samples);
    assert_eq!(bytes.len(), 44 + 2 * samples.len());
    assert_eq!(&bytes[0..4], b"RIFF");
    assert_eq!(&bytes[8..16], b"WAVEfmt ");
    let wav = parse_pcm_wav(&bytes).unwrap();
    assert_eq!(wav.channels, 2);
    assert_eq!(wav.sample_rate, 44_100);
    assert_eq!(wav.samples, samples);
}

#[test]
fn pcm_wav_header_fields() {
    let mut bytes = Vec::new();
    write_pcm_wav_bytes(&mut bytes, 1, 8_000, &[5, -5]);
    assert_eq!(u32::from_le_bytes(bytes[4..8].try_into().unwrap()), 40);
    assert_eq!(u32::from_le_bytes(bytes[28..32].try_into().unwrap()), 16_000);
    assert_eq!(u16::from_le_bytes(bytes[32..34].try_into().unwrap()), 2);
    assert_eq!(u32::from_le_bytes(bytes[40..44].try_into().unwrap()), 4);
    assert_eq!(&bytes[44..], &[5, 0, 0xFB, 0xFF]);
}

#[test]
fn pcm_wav_errors() {
    assert_eq!(parse_pcm_wav(b"RIFF").unwrap_err(), RiffError::Truncated);
    assert_eq!(parse_pcm_wav(b"RIFX\0\0\0\0WAVE").unwrap_err(), RiffError::NotRiffWave);
    let mut bytes = Vec::new();
    write_pcm_wav_bytes(&mut bytes, 1, 8_000, &[]);
    assert_eq!(parse_pcm_wav(&bytes).unwrap_err(), RiffError::MissingPcmChunks);
    let mut bytes = Vec::new();
    write_pcm_wav_bytes(&mut bytes, 1, 8_000, &[1, 2]);
    bytes[34] = 8;
    assert_eq!(parse_pcm_wav(&bytes).unwrap_err(), RiffError::NotPcm16);
    let mut bytes = Vec::new();
    write_pcm_wav_bytes(&mut bytes, 1, 8_000, &[1, 2]);
    bytes[40] = 200;
    assert_eq!(parse_pcm_wav(&bytes).unwrap_err(), RiffError::Truncated);
    let mut bytes = Vec::new();
    write_pcm_wav_bytes(&mut bytes, 1, 8_000, &[1, 2]);
    bytes[16] = 8;
    bytes.truncate(36);
    assert_eq!(parse_pcm_wav(&bytes).unwrap_err(), RiffError::TruncatedFmt);
}

#[test]
fn pcm_wav_skips_unknown_chunks_and_pad_bytes() {
    let mut bytes = Vec::new();
    bytes.extend_from_slice(b"RIFF\0\0\0\0WAVE");
    bytes.extend_from_slice(b"LIST");
    bytes.extend_from_slice(&3u32.to_le_bytes());
    bytes.extend_from_slice(&[1, 2, 3, 0]);
    bytes.extend_from_slice(b"fmt ");
    bytes.extend_from_slice(&16u32.to_le_bytes());
    bytes.extend_from_slice(&1u16.to_le_bytes());
    bytes.extend_from_slice(&1u16.to_le_bytes());
    bytes.extend_from_slice(&22_050u32.to_le_bytes());
    bytes.extend_from_slice(&44_100u32.to_le_bytes());
    bytes.extend_from_slice(&2u16.to_le_bytes());
    bytes.extend_from_slice(&16u16.to_le_bytes());
    bytes.extend_from_slice(b"data");
    bytes.extend_from_slice(&5u32.to_le_bytes());
    bytes.extend_from_slice(&[0x10, 0x00, 0xFF, 0x7F, 0x99]);
    let wav = parse_pcm_wav(&bytes).unwrap();
    assert_eq!(wav.sample_rate, 22_050);
    assert_eq!(wav.samples, vec![16, 32767]);
}

#[test]
fn at3_riff_header_layout() {
    let mut out = Vec::new();
    write_at3_riff(&mut out, 2, 44_100, 384, 2048, 3, None);
    assert_eq!(out.len(), 76);
    assert_eq!(&out[0..4], b"RIFF");
    assert_eq!(u32::from_le_bytes(out[4..8].try_into().unwrap()), 4 + 40 + 16 + 8 + 3 * 384);
    assert_eq!(u16::from_le_bytes(out[20..22].try_into().unwrap()), 0x0270);
    assert_eq!(u32::from_le_bytes(out[28..32].try_into().unwrap()), 384 * 44_100 / 1024);
    assert_eq!(&out[52..56], b"fact");
    assert_eq!(u32::from_le_bytes(out[64..68].try_into().unwrap()), 1024);
    assert_eq!(&out[68..72], b"data");
    assert_eq!(u32::from_le_bytes(out[72..76].try_into().unwrap()), 3 * 384);
}

#[test]
fn at3_riff_with_loop_roundtrip() {
    let mut out = Vec::new();
    let lp = LoopPoints { start: 10, end: 2000 };
    write_at3_riff(&mut out, 1, 44_100, 192, 2000, 2, Some(lp));
    assert_eq!(out.len(), 144);
    assert_eq!(&out[68..72], b"smpl");
    assert_eq!(u32::from_le_bytes(out[84..88].try_into().unwrap()), 1_000_000_000 / 44_100);
    assert_eq!(u32::from_le_bytes(out[120..124].try_into().unwrap()), 10);
    assert_eq!(u32::from_le_bytes(out[124..128].try_into().unwrap()), 2000);
    let frames: Vec<u8> = (0..384).map(|i| (i % 251) as u8).collect();
    out.extend_from_slice(&frames);
    let parsed = parse_atrac3_riff(&out).unwrap();
    assert_eq!(parsed.channels, 1);
    assert_eq!(parsed.sample_rate, 44_100);
    assert_eq!(parsed.block_align, 192);
    assert_eq!(parsed.total_samples_per_channel, Some(2000));
    assert_eq!(parsed.data, frames);
    assert_eq!(find_data_chunk(&out).unwrap(), &frames[..]);
}

#[test]
fn at3_riff_errors() {
    let mut bytes = Vec::new();
    write_pcm_wav_bytes(&mut bytes, 1, 8_000, &[1, 2]);
    assert_eq!(parse_atrac3_riff(&bytes).unwrap_err(), RiffError::UnsupportedFormat(1));
    let mut out = Vec::new();
    write_at3_riff(&mut out, 1, 44_100, 192, 0, 0, None);
    assert_eq!(parse_atrac3_riff(&out).unwrap_err(), RiffError::MissingAtrac3Chunks);
}

#[test]
fn data_chunk_of_oma_and_errors() {
    let mut oma = vec![0u8; 0x60 + 4];
    oma[0..3].copy_from_slice(b"EA3");
    oma[0x60..].copy_from_slice(&[1, 2, 3, 4]);
    assert_eq!(find_data_chunk(&oma).unwrap(), &[1, 2, 3, 4]);
    assert_eq!(find_data_chunk(b"hello").unwrap_err(), RiffError::UnknownContainer);
    let mut bytes = b"RIFF\0\0\0\0WAVEdata".to_vec();
    bytes.extend_from_slice(&10u32.to_le_bytes());
    assert_eq!(find_data_chunk(&bytes).unwrap_err(), RiffError::TruncatedChunk);
    let bytes = b"RIFF\0\0\0\0WAVE".to_vec();
    assert_eq!(find_data_chunk(&bytes).unwrap_err(), RiffError::MissingDataChunk);
}

#[test]
fn written_frames_are_found() {
    let mut out = Vec::new();
    write_at3_riff(&mut out, 2, 44_100, 384, 2048, 2, None);
    let frames: Vec<u8> = (0..768).map(|i| (i % 7) as u8).collect();
    out.extend_from_slice(&frames);
    assert_eq!(find_data_chunk(&out).unwrap(), &frames[..]);
}
