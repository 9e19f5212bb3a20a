use at3rs::align::overlap_for_offset;
use at3rs::channel_unit::write_channel_sound_unit;
use at3rs::huffman::{spectral_vlc, BitWriter};
use at3rs::sound_unit::{
    apply_channel_coding_mode, bfu_plan_bits, block_band, channel_prefers_vlc, clc_bits,
    clc_pair_code, clc_pair_value, code_quantized_mantissas, gain_extra_bits,
    header_qmf_band_count, make_signed_bits, mantissa_to_clc_idx, num_coded_blocks,
    scalar_vlc_symbol, selector1_clc_pair_bits, selector1_vlc_symbol, selector_quant_limit,
    tail_sf_needs_headroom, BfuCoding, SyntaxConfig,
};
use at3rs::tonal::{
    tonal_component_groups, tonal_components_extra_bits, tonal_sort_order, TonalComponent,
};
use at3rs::unit_parse::{
    frame_units, parse_sound_unit, skip_clc_values, skip_vlc_value, Bits, TonalEvent, UnitTail,
    VlcSkip,
};

fn clc_config() -> SyntaxConfig {
    SyntaxConfig {
        force_clc: true,
        disable_vlc: false,
        vlc_max_selector: None,
        static_qmf_bands: false,
    }
}

fn vlc_config() -> SyntaxConfig {
    SyntaxConfig {
        force_clc: false,
        disable_vlc: false,
        vlc_max_selector: None,
        static_qmf_bands: false,
    }
}

fn plan(block: usize, table_idx: usize, sf_idx: usize, mantissas: Vec<i16>) -> BfuCoding {
    let n = mantissas.len();
    BfuCoding {
        block,
        table_idx,
        sf_idx,
        mantissas,
        vlc_symbols: vec![0; n],
        vlc_bits: 0,
        clc_bits: 0,
        bit_count: 0,
    }
}

fn component(abs_pos: usize, quant_selector: usize, sf_idx: usize, mantissas: Vec<i16>) -> TonalComponent {
    TonalComponent {
        abs_pos,
        coded_values: mantissas.len(),
        quant_selector,
        sf_idx,
        mantissas,
    }
}

#[test]
fn selector_tables() {
    let limits: Vec<i16> = (0..9).map(selector_quant_limit).collect();
    assert_eq!(limits, vec![0, 1, 2, 3, 4, 7, 15, 31, 0]);
    let widths: Vec<usize> = (0..9).map(clc_bits).collect();
    assert_eq!(widths, vec![0, 4, 3, 3, 4, 4, 5, 6, 0]);
}

#[test]
fn pair_codes_round_trip() {
    for m in -2i16..=1 {
        assert_eq!(clc_pair_value(clc_pair_code(m)), m);
    }
    for c in 0u32..4 {
        assert_eq!(clc_pair_code(clc_pair_value(c)), c);
    }
    assert_eq!(clc_pair_code(5), 0);
    assert_eq!(clc_pair_value(9), 0);
    assert_eq!(selector1_clc_pair_bits(-2, 1), 0b1001);
    assert_eq!(selector1_clc_pair_bits(-1, -1), 0b1111);
}

#[test]
fn clamped_pair_index() {
    assert_eq!(mantissa_to_clc_idx(-7), 2);
    assert_eq!(mantissa_to_clc_idx(-2), 2);
    assert_eq!(mantissa_to_clc_idx(-1), 3);
    assert_eq!(mantissa_to_clc_idx(0), 0);
    assert_eq!(mantissa_to_clc_idx(1), 1);
    assert_eq!(mantissa_to_clc_idx(40), 1);
}

#[test]
fn signed_codes() {
    assert_eq!(make_signed_bits(-1, 3), 7);
    assert_eq!(make_signed_bits(-3, 4), 13);
    assert_eq!(make_signed_bits(5, 4), 5);
    assert_eq!(make_signed_bits(-32, 6), 32);
    assert_eq!(make_signed_bits(-100, 3), 4);
    assert_eq!(make_signed_bits(-1, 31), 0x7fff_ffff);
}

#[test]
fn huffman_symbols() {
    assert_eq!(scalar_vlc_symbol(0), 0);
    assert_eq!(scalar_vlc_symbol(1), 1);
    assert_eq!(scalar_vlc_symbol(-1), 2);
    assert_eq!(scalar_vlc_symbol(2), 3);
    assert_eq!(scalar_vlc_symbol(-2), 4);
    assert_eq!(scalar_vlc_symbol(31), 61);
    assert_eq!(scalar_vlc_symbol(-31), 62);
    assert_eq!(selector1_vlc_symbol(0, 0), 0);
    assert_eq!(selector1_vlc_symbol(-1, 1), 7);
    assert_eq!(selector1_vlc_symbol(-1, -1), 8);
    assert_eq!(selector1_vlc_symbol(2, 0), 0);
}

#[test]
fn band_layout() {
    assert_eq!(block_band(0), 0);
    assert_eq!(block_band(17), 0);
    assert_eq!(block_band(18), 1);
    assert_eq!(block_band(29), 2);
    assert_eq!(block_band(31), 3);
    assert_eq!(block_band(40), 3);
    let cfg = clc_config();
    assert_eq!(header_qmf_band_count(1, &cfg), 1);
    assert_eq!(header_qmf_band_count(18, &cfg), 1);
    assert_eq!(header_qmf_band_count(19, &cfg), 2);
    assert_eq!(header_qmf_band_count(27, &cfg), 3);
    assert_eq!(header_qmf_band_count(32, &cfg), 4);
    let fixed = SyntaxConfig {
        static_qmf_bands: true,
        ..clc_config()
    };
    assert_eq!(header_qmf_band_count(1, &fixed), 4);
}

#[test]
fn coded_block_count_and_cost() {
    let mut plans = vec![
        plan(0, 2, 3, vec![0; 8]),
        plan(1, 0, 0, vec![0; 8]),
        plan(2, 1, 4, vec![0; 8]),
        plan(3, 0, 0, vec![0; 8]),
    ];
    assert_eq!(num_coded_blocks(&plans), 3);
    assert_eq!(num_coded_blocks(&[]), 1);
    let none = vec![plan(0, 0, 0, vec![0; 8])];
    assert_eq!(num_coded_blocks(&none), 1);
    plans[0].bit_count = 24;
    plans[2].bit_count = 16;
    // 6 + 2 + 1 * 3 + 5 + 5 + 1 + 3 * 3 header bits, then 6 + bits per coded block.
    assert_eq!(bfu_plan_bits(&plans, &clc_config()), 31 + 30 + 22);
}

#[test]
fn coding_mode_choice() {
    let mut plans = vec![plan(0, 2, 3, vec![0; 8]), plan(1, 3, 3, vec![0; 8])];
    plans[0].vlc_bits = 10;
    plans[0].clc_bits = 24;
    plans[1].vlc_bits = 20;
    plans[1].clc_bits = 24;
    assert!(channel_prefers_vlc(&plans, &vlc_config()));
    assert!(!channel_prefers_vlc(&plans, &clc_config()));
    let disabled = SyntaxConfig {
        disable_vlc: true,
        ..vlc_config()
    };
    assert!(!channel_prefers_vlc(&plans, &disabled));
    let capped = SyntaxConfig {
        vlc_max_selector: Some(2),
        ..vlc_config()
    };
    assert!(!channel_prefers_vlc(&plans, &capped));
    apply_channel_coding_mode(&mut plans, &vlc_config());
    assert_eq!(plans[0].bit_count, 10);
    assert_eq!(plans[1].bit_count, 20);
    apply_channel_coding_mode(&mut plans, &clc_config());
    assert_eq!(plans[0].bit_count, 24);
    assert_eq!(plans[1].bit_count, 24);
}

#[test]
fn gain_bits_count_points() {
    let gains = vec![vec![(4u8, 1u8), (5, 2)], vec![], vec![(1, 1)], vec![(2, 2)]];
    assert_eq!(gain_extra_bits(&gains, 1), 18);
    assert_eq!(gain_extra_bits(&gains, 4), 36);
    assert_eq!(gain_extra_bits(&gains, 9), 36);
}

#[test]
fn headroom_for_saturated_tail_blocks() {
    let saturated = vec![2i16; 13];
    let mut p = plan(20, 2, 0, vec![0; 13]);
    assert!(tail_sf_needs_headroom(&p, &saturated, 2));
    p.block = 10;
    assert!(!tail_sf_needs_headroom(&p, &saturated, 2));
    p.block = 20;
    assert!(!tail_sf_needs_headroom(&p, &saturated[..12], 2));
    p.table_idx = 3;
    assert!(tail_sf_needs_headroom(&p, &saturated[..11], 2));
    p.table_idx = 4;
    assert!(!tail_sf_needs_headroom(&p, &saturated, 2));
}

#[test]
fn quantized_values_become_codes() {
    let tables = spectral_vlc();
    let mut p = plan(0, 1, 0, vec![9; 8]);
    code_quantized_mantissas(&mut p, &[1, 0, -1, -1, 0, 0, 1, 1], &tables);
    assert_eq!(p.mantissas, vec![1, 0, -1, -1, 0, 0, 1, 1]);
    assert_eq!(p.vlc_symbols, vec![3, 0, 8, 0, 0, 0, 5, 0]);
    // Symbols 3, 8, 0, 5 of table 1 take 4, 5, 1 and 5 bits.
    assert_eq!(p.vlc_bits, 15);
    assert_eq!(p.clc_bits, 16);
    assert_eq!(p.bit_count, 16);

    let mut q = plan(0, 3, 0, vec![0; 4]);
    code_quantized_mantissas(&mut q, &[0, 1, -2, 3], &tables);
    assert_eq!(q.vlc_symbols, vec![0, 1, 4, 5]);
    assert_eq!(q.vlc_bits, 1 + 3 + 4 + 4);
    assert_eq!(q.clc_bits, 12);

    let mut cleared = plan(0, 0, 0, vec![4; 4]);
    code_quantized_mantissas(&mut cleared, &[1, 2, 3, 0], &tables);
    assert_eq!(cleared.mantissas, vec![0; 4]);
    assert_eq!(cleared.clc_bits, 0);
}

#[test]
fn tonal_order_is_stable() {
    let cs = vec![
        component(300, 7, 1, vec![1]),
        component(10, 7, 2, vec![1, 2]),
        component(5, 7, 3, vec![1]),
        component(300, 7, 4, vec![2]),
        component(64, 3, 5, vec![1]),
    ];
    assert_eq!(tonal_sort_order(&cs), vec![4, 2, 0, 3, 1]);
}

#[test]
fn tonal_groups_split_by_table_and_block() {
    let mut cs = Vec::new();
    for i in 0..9 {
        cs.push(component(i * 2, 7, 1, vec![1]));
    }
    cs.push(component(70, 6, 1, vec![1]));
    let groups = tonal_component_groups(&cs);
    // Table 6 sorts first; then block 0 takes 7 table-7 components per group.
    assert_eq!(groups, vec![vec![9], vec![0, 1, 2, 3, 4, 5, 6], vec![7, 8]]);
    // Each table and value count starts its own group; groups stop at 31.
    let many: Vec<TonalComponent> = (0..40)
        .map(|i| component(i, 1 + i % 7, 1, vec![1; 1 + i / 7]))
        .collect();
    let groups = tonal_component_groups(&many);
    assert_eq!(groups.len(), 31);
    assert!(tonal_component_groups(&[]).is_empty());
}

#[test]
fn tonal_budget() {
    let cs = vec![component(70, 7, 5, vec![3, -2])];
    // Mode, one band flag, value count, table, four block counts, and the
    // component's position, scale factor and two 6-bit values.
    assert_eq!(tonal_components_extra_bits(&cs, 1), 2 + 1 + 3 + 3 + 12 + 12 + 12);
    assert_eq!(tonal_components_extra_bits(&[], 4), 0);
    let pair = vec![component(0, 1, 5, vec![1, 0, -1])];
    assert_eq!(tonal_components_extra_bits(&pair, 2), 2 + 2 + 6 + 12 + 12 + 8);
}

#[test]
fn written_unit_reads_back() {
    let plans = vec![
        plan(0, 1, 10, vec![1, -1, 0, -2, 1, 0, 0, -1]),
        plan(1, 0, 0, vec![0; 8]),
        plan(2, 3, 20, vec![3, -4, 2, 0, 1, -1, -3, 0]),
    ];
    let gains = vec![vec![(4u8, 10u8), (20, 40)], vec![], vec![], vec![]];
    let unit = write_channel_sound_unit(&plans, &gains, &[], 96, &clc_config());
    assert_eq!(unit.len(), 96);
    assert_eq!(unit[0] >> 2, 0x28);
    let parsed = parse_sound_unit(&unit);
    assert_eq!(parsed.unit_id, 0x28);
    assert_eq!(parsed.subbands, 0);
    assert_eq!(parsed.gains, vec![vec![(4, 10), (15, 31)]]);
    assert_eq!(parsed.tonal_groups, 0);
    assert!(parsed.tonal.is_none());
    let UnitTail::Spectrum(sd) = parsed.tail else {
        panic!("spectrum expected");
    };
    assert_eq!(sd.num_bfu, 3);
    assert_eq!(sd.coding_mode, 1);
    assert_eq!(sd.selectors, vec![1, 0, 3]);
    assert_eq!(sd.sf, vec![Some(10), None, Some(20)]);
    assert_eq!(sd.bfus.len(), 3);
    assert_eq!(sd.bfus[0].mantissas, plans[0].mantissas);
    assert_eq!(sd.bfus[0].nonzero, 5);
    assert_eq!(sd.bfus[0].max_abs, 2);
    assert_eq!(sd.bfus[0].saturated, 3);
    assert!(sd.bfus[1].mantissas.is_empty());
    assert_eq!(sd.bfus[2].mantissas, plans[2].mantissas);
    assert_eq!(sd.bfus[2].nonzero, 6);
    assert_eq!(sd.bfus[2].max_abs, 4);
    assert_eq!(sd.bfus[2].saturated, 3);
}

#[test]
fn short_budget_cuts_the_unit() {
    let plans = vec![plan(0, 2, 10, vec![1; 8])];
    let full = write_channel_sound_unit(&plans, &[vec![]], &[], 16, &clc_config());
    let cut = write_channel_sound_unit(&plans, &[vec![]], &[], 4, &clc_config());
    assert_eq!(cut.len(), 4);
    assert_eq!(&cut[..], &full[..4]);
}

#[test]
fn huffman_unit_reads_back_header() {
    let tables = spectral_vlc();
    let mut p0 = plan(0, 1, 7, vec![0; 8]);
    code_quantized_mantissas(&mut p0, &[0, 0, 0, 0, 0, 0, 0, 1], &tables);
    let mut p1 = plan(1, 2, 9, vec![0; 8]);
    code_quantized_mantissas(&mut p1, &[0, 0, 1, 0, 0, 0, 0, 0], &tables);
    let plans = vec![p0, p1];
    assert!(channel_prefers_vlc(&plans, &vlc_config()));
    let gains = vec![vec![], vec![], vec![], vec![]];
    let unit = write_channel_sound_unit(&plans, &gains, &[], 32, &vlc_config());
    let parsed = parse_sound_unit(&unit);
    let UnitTail::Spectrum(sd) = parsed.tail else {
        panic!("spectrum expected");
    };
    assert_eq!(sd.coding_mode, 0);
    assert_eq!(sd.selectors, vec![1, 2]);
    assert_eq!(sd.sf, vec![Some(7), Some(9)]);
    assert!(sd.bfus.is_empty());
}

#[test]
fn tonal_components_read_back() {
    let plans = vec![plan(0, 2, 10, vec![1, -1, 0, 0, 2, -2, 3, -4])];
    let gains = vec![vec![], vec![], vec![], vec![]];
    let tonal = vec![component(70, 7, 5, vec![3, -2])];
    let unit = write_channel_sound_unit(&plans, &gains, &tonal, 64, &clc_config());
    let parsed = parse_sound_unit(&unit);
    assert_eq!(parsed.tonal_groups, 1);
    let tp = parsed.tonal.expect("tonal components expected");
    assert_eq!(tp.tonal_mode, 1);
    assert!(tp.ok);
    assert_eq!(tp.events.len(), 5);
    assert_eq!(tp.events[0], TonalEvent::Flag { active: true });
    assert_eq!(
        tp.events[1],
        TonalEvent::GroupStart {
            group: 0,
            coded_values: 2,
            quant_selector: 7
        }
    );
    assert_eq!(tp.events[2], TonalEvent::BlockCount { spec_block: 1, count: 1 });
    assert_eq!(
        tp.events[3],
        TonalEvent::Component {
            index: 0,
            sf_idx: 5,
            rel_pos: 6,
            abs_pos: 70
        }
    );
    // Header 8 bits, one empty gain band 3, group count 5, mode 2, flag 1,
    // value count 3, table 3, four block counts 12, component 24.
    assert_eq!(
        tp.events[4],
        TonalEvent::GroupEnd {
            group: 0,
            total_components: 1,
            bit_pos: 8 + 3 + 5 + 2 + 1 + 3 + 3 + 12 + 24
        }
    );
    let UnitTail::Spectrum(sd) = parsed.tail else {
        panic!("spectrum expected");
    };
    assert_eq!(sd.selectors, vec![2]);
    assert_eq!(sd.bfus[0].mantissas, plans[0].mantissas);
}

#[test]
fn bit_reader_positions() {
    let data = [0b1011_0000u8, 0xff];
    let mut br = Bits::new(&data);
    assert_eq!(br.read(3), 0b101);
    assert_eq!(br.pos(), 3);
    assert_eq!(br.remaining(), 13);
    assert_eq!(br.read_signed(3), -4);
    assert_eq!(br.read_signed(4), 3);
    assert_eq!(br.read_signed(6), -1);
    assert_eq!(br.remaining(), 0);
    assert_eq!(br.read(4), 0);
    assert_eq!(br.remaining(), 0);
    let wide = [0x00u8, 0x00, 0x80, 0x01];
    let mut br = Bits::new(&wide);
    // 32 bits 0x00008001: sign-extended, then kept to 16 bits.
    assert_eq!(br.read_signed(32), -32767);
}

#[test]
fn skipping_values() {
    // Table 1 code for symbol 5 is 11100 (5 bits).
    let data = [0b1110_0000u8];
    let mut br = Bits::new(&data);
    assert_eq!(skip_vlc_value(&mut br, 1), VlcSkip::Skipped);
    assert_eq!(br.pos(), 5);
    let mut br = Bits::new(&data);
    assert_eq!(skip_vlc_value(&mut br, 0), VlcSkip::NoTable);
    assert_eq!(br.pos(), 0);
    let ones = [0xffu8; 4];
    let mut br = Bits::new(&ones);
    // Table 2 has no code longer than 3 bits beginning with 111... except 111 itself.
    assert_eq!(skip_vlc_value(&mut br, 2), VlcSkip::Skipped);
    assert_eq!(br.pos(), 3);
    let mut br = Bits::new(&data);
    assert!(skip_clc_values(&mut br, 1, 3));
    assert_eq!(br.pos(), 8);
    let mut br = Bits::new(&data);
    assert!(skip_clc_values(&mut br, 7, 2));
    assert_eq!(br.pos(), 12);
    let mut br = Bits::new(&data);
    assert!(!skip_clc_values(&mut br, 8, 2));
    assert_eq!(br.pos(), 0);
}

#[test]
fn frame_halves() {
    let data: Vec<u8> = (0..12).collect();
    let (a, b) = frame_units(&data, 4, 1).expect("frame inside the data");
    assert_eq!(a, &[4, 5]);
    assert_eq!(b, &[6, 7]);
    assert!(frame_units(&data, 4, 3).is_none());
    let (a, b) = frame_units(&data, 5, 1).expect("frame inside the data");
    assert_eq!(a, &[5, 6]);
    assert_eq!(b, &[7, 8]);
}

#[test]
fn signal_overlap() {
    assert_eq!(overlap_for_offset(100, 80, 0), Some((0, 0, 80)));
    assert_eq!(overlap_for_offset(100, 80, 30), Some((0, 30, 50)));
    assert_eq!(overlap_for_offset(100, 80, -30), Some((30, 0, 70)));
    assert_eq!(overlap_for_offset(100, 80, 80), None);
    assert_eq!(overlap_for_offset(10, 80, -10), None);
}

#[test]
fn planned_bits_match_written_unit() {
    let config = vlc_config();
    let tables = spectral_vlc();
    let mut plans = Vec::new();
    for (block, table, q) in [
        (0usize, 2usize, vec![1i16, -1, 0, 2, -2, 1, 0, -1]),
        (1, 5, vec![7, -7, 3, 0, 0, 1, -1, -1]),
    ] {
        let mut p = plan(block, table, 9, vec![0; 8]);
        code_quantized_mantissas(&mut p, &q, &tables);
        plans.push(p);
    }
    apply_channel_coding_mode(&mut plans, &config);
    let gains = vec![vec![(3u8, 4u8), (5, 10)], vec![], vec![], vec![]];
    let tonal = vec![component(70, 7, 5, vec![3, -2])];
    let qmf = header_qmf_band_count(num_coded_blocks(&plans), &config);
    let total = bfu_plan_bits(&plans, &config)
        + gain_extra_bits(&gains, qmf)
        + tonal_components_extra_bits(&tonal, qmf);
    let exact = (total + 7) / 8;
    let unit = write_channel_sound_unit(&plans, &gains, &tonal, exact, &config);
    let roomy = write_channel_sound_unit(&plans, &gains, &tonal, exact + 4, &config);
    assert_eq!(&roomy[..exact], &unit[..]);
    assert!(roomy[exact..].iter().all(|&b| b == 0));
    let parsed = parse_sound_unit(&unit);
    assert_eq!(parsed.gains[0], vec![(3, 4), (5, 10)]);
    let UnitTail::Spectrum(sd) = parsed.tail else {
        panic!("spectrum expected");
    };
    assert_eq!(sd.selectors, vec![2, 5]);
}

#[test]
fn unsupported_tonal_mode_stops_the_unit() {
    let mut bw = BitWriter::new();
    bw.write_bits(0x28, 6); // unit id
    bw.write_bits(0, 2); // one QMF band
    bw.write_bits(0, 3); // no gain points
    bw.write_bits(1, 5); // one tonal group
    bw.write_bits(2, 2); // tonal coding mode 2
    bw.write_bits(1, 1); // band 0 flagged
    bw.write_bits(0, 3); // one coded value
    bw.write_bits(7, 3); // table 7
    bw.write_bits(1, 3); // block 0: one component
    bw.write_bits(33, 6); // scale factor
    bw.write_bits(5, 6); // position
    let unit = bw.flush().to_vec();
    let parsed = parse_sound_unit(&unit);
    assert_eq!(parsed.tonal_groups, 1);
    let tp = parsed.tonal.expect("tonal components expected");
    assert_eq!(tp.tonal_mode, 2);
    assert!(!tp.ok);
    assert_eq!(
        tp.events,
        vec![
            TonalEvent::Flag { active: true },
            TonalEvent::GroupStart {
                group: 0,
                coded_values: 1,
                quant_selector: 7
            },
            TonalEvent::BlockCount { spec_block: 0, count: 1 },
            TonalEvent::Component {
                index: 0,
                sf_idx: 33,
                rel_pos: 5,
                abs_pos: 5
            },
            TonalEvent::UnsupportedMode { mode: 2 },
        ]
    );
    assert!(matches!(
        parsed.tail,
        UnitTail::TonalFailed {
            bit_pos: 40,
            bits_remaining: 0
        }
    ));
}
