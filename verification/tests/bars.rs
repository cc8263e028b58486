use qr_forge_core::barcode::{
    barcode_from_bits, bits_to_bars, encode_code128, encode_ean13, generate_barcode, BarcodeType,
};

const BLACK: [u8; 4] = [0, 0, 0, 255];
const WHITE: [u8; 4] = [255, 255, 255, 255];

fn expand(bars: &[(u32, bool)]) -> Vec<bool> {
    bars.iter()
        .flat_map(|&(w, dark)| std::iter::repeat(dark).take(w as usize))
        .collect()
}

#[test]
fn bits_become_maximal_runs_between_quiet_zones() {
    let bars = bits_to_bars(&[1, 1, 0, 1, 0, 0, 0], 10, 7);
    assert_eq!(
        bars,
        vec![(10, false), (2, true), (1, false), (1, true), (3, false), (7, false)]
    );
}

#[test]
fn empty_bits_give_only_the_quiet_zones() {
    assert_eq!(bits_to_bars(&[], 11, 7), vec![(11, false), (7, false)]);
}

#[test]
fn only_the_value_one_is_dark() {
    assert_eq!(
        bits_to_bars(&[2, 1, 0, 9], 1, 1),
        vec![(1, false), (1, false), (1, true), (2, false), (1, false)]
    );
}

#[test]
fn bars_expand_back_to_the_encoder_bits() {
    let bits = encode_code128("TINKORA-128").unwrap();
    let bars = bits_to_bars(&bits, 10, 10);
    let middle = &bars[1..bars.len() - 1];
    let flags: Vec<bool> = bits.iter().map(|&b| b == 1).collect();
    assert_eq!(expand(middle), flags);
    assert!(middle.iter().all(|&(w, _)| w >= 1));
    assert!(middle.windows(2).all(|p| p[0].1 != p[1].1));
}

#[test]
fn total_modules_is_quiet_zones_plus_bits() {
    let bits = [1, 0, 1, 1];
    let m = barcode_from_bits(&bits, 10, 10, 50, 3, BLACK, WHITE);
    assert_eq!(m.total_modules, 24);
    assert_eq!(m.pixel_width(), 72);
    assert_eq!(m.height, 50);

    let code = generate_barcode("TINKORA", BarcodeType::Code128, 100, 2, BLACK, WHITE).unwrap();
    let bits = encode_code128("TINKORA").unwrap();
    assert_eq!(code.total_modules as usize, 20 + bits.len());
    let sum: u32 = code.bars.iter().map(|&(w, _)| w).sum();
    assert_eq!(sum, code.total_modules);
}

#[test]
fn code128_set_b_symbol_of_a_single_letter() {
    // Start B, 'A', checksum (104 + 33) % 103 = 34 ('B'), stop, termination bar.
    let expected: Vec<u8> = vec![
        1, 1, 0, 1, 0, 0, 1, 0, 0, 0, 0, // start B
        1, 0, 1, 0, 0, 0, 1, 1, 0, 0, 0, // A
        1, 0, 0, 0, 1, 0, 1, 1, 0, 0, 0, // checksum 34
        1, 1, 0, 0, 0, 1, 1, 1, 0, 1, 0, // stop
        1, 1, // termination
    ];
    assert_eq!(encode_code128("A").unwrap(), expected);
}

#[test]
fn code128_subset_c_needs_even_length_digits() {
    // Odd-length digits use subset B: one unit per character.
    assert_eq!(encode_code128("123").unwrap().len(), 11 * 4 + 24);
    // Even-length digits use subset C: one unit per digit pair.
    assert_eq!(encode_code128("1234").unwrap().len(), 11 * 3 + 24);
}

#[test]
fn code128_accepts_exactly_128_bytes_and_printable_edges() {
    assert!(encode_code128(&"~".repeat(128)).is_ok());
    assert!(encode_code128(" ").is_ok());
    assert_eq!(
        encode_code128(&"A".repeat(129)).unwrap_err(),
        qr_forge_core::CoreError::Code128TooLong(129)
    );
    assert_eq!(
        encode_code128("").unwrap_err(),
        qr_forge_core::CoreError::EmptyData
    );
    assert_eq!(
        encode_code128("é").unwrap_err(),
        qr_forge_core::CoreError::InvalidCode128
    );
}

#[test]
fn ean13_bits_start_and_end_with_guards() {
    let bits = encode_ean13("590123412345").unwrap();
    assert_eq!(bits.len(), 95);
    assert_eq!(&bits[0..3], &[1, 0, 1]);
    assert_eq!(&bits[45..50], &[0, 1, 0, 1, 0]);
    assert_eq!(&bits[92..95], &[1, 0, 1]);
    assert!(bits.iter().all(|&b| b <= 1));
}

#[test]
fn ean13_counts_bytes_not_characters() {
    // Twelve characters, thirteen bytes.
    assert_eq!(
        encode_ean13("12345678901é").unwrap_err(),
        qr_forge_core::CoreError::InvalidEan13(13)
    );
}

#[test]
fn barcode_dimension_limits_are_inclusive() {
    assert!(generate_barcode("A", BarcodeType::Code128, 20, 1, BLACK, WHITE).is_ok());
    assert!(generate_barcode("A", BarcodeType::Code128, 2000, 16, BLACK, WHITE).is_ok());
    assert_eq!(
        generate_barcode("A", BarcodeType::Code128, 2001, 1, BLACK, WHITE).unwrap_err(),
        qr_forge_core::CoreError::InvalidBarcodeHeight
    );
    assert_eq!(
        generate_barcode("A", BarcodeType::Code128, 20, 17, BLACK, WHITE).unwrap_err(),
        qr_forge_core::CoreError::InvalidBarcodeModuleWidth
    );
}

#[test]
fn code128_symbols_begin_and_end_with_a_dark_module() {
    let bits = encode_code128("Hi").unwrap();
    assert_eq!(bits.len(), 11 * 3 + 24);
    assert_eq!(bits[0], 1);
    assert_eq!(*bits.last().unwrap(), 1);
    let digits = encode_code128("000000").unwrap();
    assert_eq!(digits.len(), 11 * 4 + 24);
    assert_eq!(digits[0], 1);
    assert_eq!(*digits.last().unwrap(), 1);
}

#[test]
fn barcode_bars_alternate_across_the_quiet_zones() {
    for (data, kind) in [
        ("TINKORA-128", BarcodeType::Code128),
        ("0000", BarcodeType::Code128),
        ("590123412345", BarcodeType::Ean13),
    ] {
        let m = generate_barcode(data, kind, 50, 1, BLACK, WHITE).unwrap();
        assert!(!m.bars[0].1);
        assert!(!m.bars[m.bars.len() - 1].1);
        assert!(m.bars.iter().all(|&(w, _)| w >= 1));
        assert!(m.bars.windows(2).all(|p| p[0].1 != p[1].1));
        assert!(m.bars[1].1);
        assert!(m.bars[m.bars.len() - 2].1);
    }
}
