use at3rs::channel_unit::plans_are_writable;
use at3rs::sound_unit::{costs_fit, quantized_is_codable, symbols_are_ok, BfuCoding, SyntaxConfig};
use at3rs::tonal::{tonal_is_writable, TonalComponent};

fn huffman_config() -> SyntaxConfig {
    SyntaxConfig {
        force_clc: false,
        disable_vlc: false,
        vlc_max_selector: None,
        static_qmf_bands: false,
    }
}

fn coded(table_idx: usize, vlc_symbols: Vec<u8>, clc_bits: usize, vlc_bits: usize) -> BfuCoding {
    BfuCoding {
        block: 0,
        table_idx,
        sf_idx: 10,
        mantissas: vec![0; 4],
        vlc_symbols,
        vlc_bits,
        clc_bits,
        bit_count: 0,
    }
}

#[test]
fn quantized_values_fit_their_table() {
    // Table 2 has five symbols: values -2..=2.
    assert!(quantized_is_codable(2, &[0, 1, -1, 2, -2]));
    assert!(!quantized_is_codable(2, &[0, 3]));
    assert!(!quantized_is_codable(3, &[i16::MIN]));
    // Tables 0 and 1 take any values here.
    assert!(quantized_is_codable(1, &[i16::MIN, 7]));
    assert!(quantized_is_codable(0, &[100]));
}

#[test]
fn symbols_must_exist_in_the_table() {
    // Table 1 reads one symbol per pair, below 9.
    assert!(symbols_are_ok(1, 4, &[8, 0, 3, 0]));
    assert!(!symbols_are_ok(1, 4, &[9, 0, 3, 0]));
    assert!(!symbols_are_ok(1, 8, &[0, 0]));
    // Table 3 (index 2) has seven symbols.
    assert!(symbols_are_ok(3, 3, &[6, 0, 5]));
    assert!(!symbols_are_ok(3, 3, &[7, 0, 5]));
    assert!(!symbols_are_ok(3, 3, &[0, 0]));
}

#[test]
fn cost_sums_overflow_is_detected() {
    let small = vec![coded(2, vec![0; 4], 12, 8), coded(3, vec![0; 4], 12, 8)];
    assert!(costs_fit(&small));
    let huge = vec![
        coded(2, vec![0; 4], usize::MAX, 8),
        coded(3, vec![0; 4], 1, 8),
    ];
    assert!(!costs_fit(&huge));
    // Costs of blocks that are not sent do not count.
    let unsent = vec![coded(2, vec![0; 4], 12, 8), coded(0, vec![0; 4], usize::MAX, 1)];
    assert!(costs_fit(&unsent));
}

#[test]
fn huffman_plans_need_valid_symbols() {
    let config = huffman_config();
    let good = vec![coded(2, vec![0, 1, 2, 4], 16, 8)];
    assert!(plans_are_writable(&good, &config));
    let bad = vec![coded(2, vec![0, 1, 5, 4], 16, 8)];
    assert!(!plans_are_writable(&bad, &config));
    // With fixed-length coding the symbols are not read.
    let clc = SyntaxConfig {
        force_clc: true,
        ..huffman_config()
    };
    assert!(plans_are_writable(&bad, &clc));
}

fn tone(coded_values: usize, quant_selector: usize, mantissas: Vec<i16>) -> TonalComponent {
    TonalComponent {
        abs_pos: 10,
        coded_values,
        quant_selector,
        sf_idx: 20,
        mantissas,
    }
}

#[test]
fn tonal_groups_need_a_table_and_values() {
    assert!(tonal_is_writable(&[tone(2, 3, vec![1, -1])]));
    assert!(!tonal_is_writable(&[tone(2, 0, vec![1, -1])]));
    assert!(!tonal_is_writable(&[tone(0, 3, vec![])]));
    // A group sends at least one value per component, whatever its table.
    assert!(!tonal_is_writable(&[tone(0, 0, vec![])]));
    assert!(tonal_is_writable(&[]));
}
