use at3rs::huffman::{atrac3_huff_codes, spectral_vlc, BitReader, BitWriter, VlcTable};

#[test]
fn write_then_read_bits() {
    let mut w = BitWriter::new();
    w.write_bits(0x28, 6);
    w.write_bits(3, 2);
    w.write_bits(0x5, 3);
    w.write_bits(0xABCD, 16);
    assert_eq!(w.bits_written(), 27);
    let bytes = w.flush().to_vec();
    assert_eq!(bytes.len(), 4);
    assert_eq!(bytes[0], 0xA3);
    let mut r = BitReader::new(&bytes);
    assert_eq!(r.read_bits(6), 0x28);
    assert_eq!(r.read_bits(2), 3);
    assert_eq!(r.read_bits(3), 5);
    assert_eq!(r.read_bits(16), 0xABCD);
    // Past the end there are no bits left to add.
    assert_eq!(r.read_bits(8), 0);
}

#[test]
fn read_bits_past_end_keeps_only_present_bits() {
    let data = [0x03u8];
    let mut r = BitReader::new(&data);
    assert_eq!(r.read_bits(4), 0);
    // Four bits remain; the four missing ones add no digit.
    assert_eq!(r.read_bits(8), 0x03);
    assert_eq!(r.read_bits(8), 0);
}

#[test]
fn two_reads_join_into_one() {
    let data = [0xB6u8, 0x5A, 0xC3];
    let mut r1 = BitReader::new(&data);
    let hi = r1.read_bits(5);
    let lo = r1.read_bits(11);
    let mut r2 = BitReader::new(&data);
    assert_eq!((hi << 11) | lo, r2.read_bits(16));
    assert_eq!(r2.read_bits(8), r1.read_bits(8));
}

#[test]
fn decode_past_end_uses_only_present_bits() {
    let t = VlcTable::from_codes(&[(0x2, 2), (0x1, 2)]);
    let data = [0x01u8];
    let mut r = BitReader::new(&data);
    assert_eq!(r.read_bits(7), 0);
    // The last bit is 1 and the next one is missing: the 2-bit read gives 1.
    assert_eq!(t.decode(&mut r), Some(1));
}

#[test]
fn bits_written_is_sum_of_writes() {
    let mut w = BitWriter::new();
    let writes: [(u32, usize); 5] = [(1, 1), (0x7F, 7), (0, 0), (0x1234, 13), (0xFFFF_FFFF, 32)];
    let mut total = 0;
    for (v, n) in writes {
        w.write_bits(v, n);
        total += n;
        assert_eq!(w.bits_written(), total);
        assert_eq!(w.flush().len(), (total + 7) / 8);
    }
    assert_eq!(total, 53);
}

#[test]
fn header_pattern_in_first_byte() {
    let mut w = BitWriter::new();
    w.write_bits(0x28, 6);
    w.write_bits(3, 2);
    assert_eq!(w.flush()[0] >> 2, 0x28);
}

#[test]
fn write_bits_keeps_only_low_bits() {
    let mut w = BitWriter::new();
    w.write_bits(0xFF, 4);
    assert_eq!(w.flush(), &[0xF0]);
    let mut r = BitReader::new(w.flush());
    assert_eq!(r.read_bits(4), 0xF);
}

#[test]
fn read_bits_keeps_low_32_bits() {
    let data = [0xFFu8; 5];
    let mut r = BitReader::new(&data);
    assert_eq!(r.read_bits(36), 0xFFFF_FFFF);
}

#[test]
fn canonical_codes() {
    let t = VlcTable::new(&[(31, 1), (32, 3), (33, 3), (34, 4), (7, 0), (35, 4)]);
    let codes: Vec<(i16, u8, u32)> = t.entries.iter().map(|e| (e.symbol, e.len, e.code)).collect();
    assert_eq!(
        codes,
        vec![(31, 1, 0b0), (32, 3, 0b100), (33, 3, 0b101), (34, 4, 0b1100), (7, 0, 0), (35, 4, 0b1101)]
    );
}

#[test]
fn from_codes_numbers_symbols() {
    let t = VlcTable::from_codes(&[(0x0, 1), (0x4, 3), (0x5, 3)]);
    assert_eq!(t.entries[2].symbol, 2);
    assert_eq!(t.entries[2].code, 0x5);
    assert_eq!(t.bit_len(1), Some(3));
    assert_eq!(t.bit_len(3), None);
}

#[test]
fn spectral_tables_roundtrip_every_symbol() {
    let tables = spectral_vlc();
    assert_eq!(tables.len(), 7);
    let sizes = [9usize, 5, 7, 9, 15, 31, 63];
    for (t, table) in tables.iter().enumerate() {
        assert_eq!(table.entries.len(), sizes[t]);
        assert_eq!(atrac3_huff_codes(t).len(), sizes[t]);
        for sym in 0..sizes[t] as i16 {
            let mut w = BitWriter::new();
            w.write_bits(0b101, 3);
            assert!(table.encode(sym, &mut w));
            let len = table.bit_len(sym).unwrap();
            assert_eq!(w.bits_written(), 3 + len);
            w.write_bits(0, 16);
            let bytes = w.flush().to_vec();
            let mut r = BitReader::new(&bytes);
            assert_eq!(r.read_bits(3), 0b101);
            assert_eq!(table.decode(&mut r), Some(sym));
        }
    }
}

#[test]
fn encode_unknown_symbol_writes_nothing() {
    let tables = spectral_vlc();
    let mut w = BitWriter::new();
    assert!(!tables[0].encode(40, &mut w));
    assert_eq!(w.bits_written(), 0);
}

#[test]
fn decode_without_match_consumes_sixteen_bits() {
    let t = VlcTable::from_codes(&[(0x3, 2)]);
    let data = [0u8; 4];
    let mut r = BitReader::new(&data);
    assert_eq!(t.decode(&mut r), None);
    assert_eq!(r.read_bits(16), 0);
}
