use at3rs::legacy::{legacy_selectors, pack_legacy_unit};
use at3rs::pcm::{deinterleave_channel, interleave_channel};
use at3rs::unit_parse::{parse_sound_unit, UnitTail};
use at3rs::sound_unit::{
    clear_high_bfus, floor_log2_u32, relation_gain_index, selector_from_level, BfuCoding,
    SyntaxConfig,
};

const SUBBAND_TAB: [usize; 33] = [
    0, 8, 16, 24, 32, 40, 48, 56, 64, 80, 96, 112, 128, 144, 160, 176, 192, 224, 256, 288, 320,
    352, 384, 416, 448, 480, 512, 576, 640, 704, 768, 896, 1024,
];
const MAX_QUANT: [f32; 8] = [0.0, 1.5, 2.5, 3.5, 4.5, 7.5, 15.5, 31.5];
const CLC_LENGTH_TAB: [u32; 8] = [0, 4, 3, 3, 4, 4, 5, 6];

/// Quantizes a constant spectrum the way the legacy encoder does and packs it.
fn pack_constant_spectrum(value: f32, bit_alloc: &[u8; 32], out: &mut [u8]) {
    let sf_tab: Vec<f32> = (0..64).map(|i| 2.0_f32.powf(i as f32 / 3.0 - 21.0)).collect();
    let selectors = legacy_selectors(bit_alloc);
    let n = selectors.len();
    let mut sf_indices = vec![0u32; n];
    let mut mantissas: Vec<Vec<i32>> = vec![Vec::new(); n];
    for i in 0..n {
        if selectors[i] == 0 {
            continue;
        }
        let max_q = MAX_QUANT[selectors[i] as usize];
        let mut sf_idx = 63u32;
        for j in 0..64 {
            if sf_tab[j] * max_q >= value.abs() {
                sf_idx = j as u32;
                break;
            }
        }
        sf_indices[i] = sf_idx;
        let selector = selectors[i] as usize;
        let num_bits = CLC_LENGTH_TAB[selector];
        let inv_q = max_q / sf_tab[sf_idx as usize];
        for _ in SUBBAND_TAB[i]..SUBBAND_TAB[i + 1] {
            let q = if selector > 1 {
                (value * inv_q).round().clamp(
                    -(1 << (num_bits - 1)) as f32,
                    ((1 << (num_bits - 1)) - 1) as f32,
                ) as i32
            } else {
                (value * inv_q).round().clamp(-2.0, 1.0) as i32
            };
            mantissas[i].push(q);
        }
    }
    let bytes = pack_legacy_unit(&selectors, &sf_indices, &mantissas);
    let copy_len = bytes.len().min(out.len());
    out[..copy_len].copy_from_slice(&bytes[..copy_len]);
}

#[test]
fn test_pack_bitstream_produces_output() {
    let bit_alloc = [3u8; 32];
    let mut out = [0u8; 512];

    pack_constant_spectrum(0.5, &bit_alloc, &mut out);

    let nonzero = out.iter().any(|&b| b != 0);
    assert!(nonzero, "bitstream output should be nonzero");
    assert_eq!(out[0] >> 2, 0x28, "header should start with 0x28 pattern");
}

#[test]
fn legacy_selectors_stop_after_last_allocation() {
    let mut alloc = [0u8; 32];
    alloc[0] = 2;
    alloc[3] = 9;
    assert_eq!(legacy_selectors(&alloc), vec![2, 0, 0, 7]);
    assert_eq!(legacy_selectors(&[0u8; 32]), vec![0]);
    assert_eq!(legacy_selectors(&[3u8; 32]).len(), 32);
}

#[test]
fn legacy_unit_layout_for_one_block() {
    // Unit id 0x28, four QMF bands, four empty gain bands, no tonal groups,
    // one block, fixed-length coding, selector 2, scale factor 5, then
    // eight 3-bit mantissas.
    let bytes = pack_legacy_unit(&[2], &[5], &[vec![1, -1, 0, 0, 0, 0, 0, 0]]);
    assert_eq!(bytes, vec![0xa3, 0x00, 0x00, 0x02, 0x85, 0x3c, 0x00, 0x00]);
}

#[test]
fn deinterleave_picks_one_channel() {
    let pcm = [1i16, -1, 2, -2, 3, -3, 4, -4];
    assert_eq!(deinterleave_channel(&pcm, 2, 0, 4), vec![1, 2, 3, 4]);
    assert_eq!(deinterleave_channel(&pcm, 2, 1, 3), vec![-1, -2, -3]);
    assert_eq!(deinterleave_channel(&pcm, 1, 0, 2), vec![1, -1]);
}

#[test]
fn interleave_writes_one_channel_and_keeps_the_rest() {
    let mut out = [9i16; 7];
    interleave_channel(&mut out, &[1, 2, 3], 2, 1);
    assert_eq!(out, [9, 1, 9, 2, 9, 3, 9]);
    let left = deinterleave_channel(&[5i16, 6, 7, 8], 2, 0, 2);
    let mut back = [0i16; 4];
    interleave_channel(&mut back, &left, 2, 0);
    assert_eq!(back, [5, 0, 7, 0]);
}

#[test]
fn floor_log2_of_powers_and_neighbours() {
    assert_eq!(floor_log2_u32(0), 0);
    assert_eq!(floor_log2_u32(1), 0);
    assert_eq!(floor_log2_u32(2), 1);
    assert_eq!(floor_log2_u32(3), 1);
    assert_eq!(floor_log2_u32(1023), 9);
    assert_eq!(floor_log2_u32(1024), 10);
    assert_eq!(floor_log2_u32(u32::MAX), 31);
}

#[test]
fn gain_index_from_envelope_ratio() {
    // Ratio at most one half: the integer part of the inverse ratio.
    assert_eq!(relation_gain_index(true, 2), 5);
    assert_eq!(relation_gain_index(true, 16), 8);
    assert_eq!(relation_gain_index(true, 2048), 15);
    // Larger ratios: the integer part of the ratio.
    assert_eq!(relation_gain_index(false, 0), 4);
    assert_eq!(relation_gain_index(false, 1), 4);
    assert_eq!(relation_gain_index(false, 4), 2);
    assert_eq!(relation_gain_index(false, 16), 0);
}

#[test]
fn selector_from_allocation_level() {
    assert_eq!(selector_from_level(-3), 0);
    assert_eq!(selector_from_level(0), 1);
    assert_eq!(selector_from_level(5), 5);
    assert_eq!(selector_from_level(7), 7);
    assert_eq!(selector_from_level(40), 7);
}

fn coded_plan(block: usize, table_idx: usize, clc_bits: usize, vlc_bits: usize) -> BfuCoding {
    BfuCoding {
        block,
        table_idx,
        sf_idx: 20,
        mantissas: vec![1, -1, 2, 0],
        vlc_symbols: vec![1, 3, 2, 0],
        vlc_bits,
        clc_bits,
        bit_count: 0,
    }
}

#[test]
fn clearing_high_blocks_resets_them_and_recounts() {
    let config = SyntaxConfig {
        force_clc: false,
        disable_vlc: false,
        vlc_max_selector: None,
        static_qmf_bands: false,
    };
    // Block 2 makes Huffman coding more expensive; once it is cleared the
    // two remaining blocks are cheaper with Huffman codes.
    let mut plans = vec![
        coded_plan(0, 3, 12, 8),
        coded_plan(1, 2, 12, 8),
        coded_plan(2, 5, 16, 40),
    ];
    clear_high_bfus(&mut plans, 2, &config);
    assert_eq!(plans[0].table_idx, 3);
    assert_eq!(plans[0].sf_idx, 20);
    assert_eq!(plans[0].mantissas, vec![1, -1, 2, 0]);
    assert_eq!(plans[0].bit_count, 8);
    assert_eq!(plans[1].bit_count, 8);
    assert_eq!(plans[2].block, 2);
    assert_eq!(plans[2].table_idx, 0);
    assert_eq!(plans[2].sf_idx, 0);
    assert_eq!(plans[2].mantissas, vec![0, 0, 0, 0]);
    assert_eq!(plans[2].vlc_symbols, vec![0, 0, 0, 0]);
    assert_eq!(plans[2].clc_bits, 0);
    assert_eq!(plans[2].vlc_bits, 0);
    assert_eq!(plans[2].bit_count, 0);
}

#[test]
fn legacy_unit_reads_back() {
    // Block 0 (8 lines) with table 1, block 1 uncoded, block 2 (8 lines) with
    // table 4 (4-bit codes).
    let sels = [1u32, 0, 4];
    let sfs = [12u32, 0, 40];
    let mantissas = vec![
        vec![1, -1, 0, -2, 3, -5, 1, 0],
        vec![],
        vec![7, -8, 0, 1, -1, 5, -3, 2],
    ];
    let bytes = pack_legacy_unit(&sels, &sfs, &mantissas);
    let parsed = parse_sound_unit(&bytes);
    assert_eq!(parsed.unit_id, 0x28);
    assert_eq!(parsed.subbands, 3);
    assert!(parsed.gains.iter().all(|band| band.is_empty()));
    assert_eq!(parsed.tonal_groups, 0);
    let UnitTail::Spectrum(sd) = parsed.tail else {
        panic!("spectrum expected");
    };
    assert_eq!(sd.num_bfu, 3);
    assert_eq!(sd.coding_mode, 1);
    assert_eq!(sd.selectors, vec![1, 0, 4]);
    assert_eq!(sd.sf, vec![Some(12), None, Some(40)]);
    // Table-1 values are clamped to -2..=1.
    assert_eq!(sd.bfus[0].mantissas, vec![1, -1, 0, -2, 1, -2, 1, 0]);
    assert!(sd.bfus[1].mantissas.is_empty());
    assert_eq!(sd.bfus[2].mantissas, vec![7, -8, 0, 1, -1, 5, -3, 2]);
}
