use qr_forge_core::barcode::{encode_code128, encode_ean13, generate_barcode, BarcodeType};
use qr_forge_core::error::CoreError;

const BLACK: [u8; 4] = [0, 0, 0, 255];
const WHITE: [u8; 4] = [255, 255, 255, 255];

#[test]
fn generates_code128_for_printable_ascii() {
    let matrix = generate_barcode("TINKORA-128", BarcodeType::Code128, 100, 2, BLACK, WHITE)
        .expect("generate Code 128");

    assert_eq!(matrix.height, 100);
    assert_eq!(matrix.module_width, 2);
    assert!(matrix.total_modules > 20);
}

#[test]
fn numeric_code128_uses_the_compact_subset_c() {
    let numeric = encode_code128("12345678").expect("encode numeric Code 128");
    let text = encode_code128("ABCDEFGH").expect("encode text Code 128");

    assert!(numeric.len() < text.len());
}

#[test]
fn rejects_unencodable_code128_characters() {
    let error = encode_code128("Tinkora\n").expect_err("control characters are unsupported");

    assert_eq!(error, CoreError::InvalidCode128);
}

#[test]
fn generates_a_95_module_ean13_payload() {
    let encoded = encode_ean13("590123412345").expect("encode EAN-13");

    assert_eq!(encoded.len(), 95);
}

#[test]
fn validates_ean13_length_and_characters() {
    assert_eq!(encode_ean13("123").unwrap_err(), CoreError::InvalidEan13(3));
    assert_eq!(
        encode_ean13("12345678901A").unwrap_err(),
        CoreError::InvalidEan13Chars
    );
}

#[test]
fn validates_barcode_dimensions() {
    let height_error =
        generate_barcode("Tinkora", BarcodeType::Code128, 10, 2, BLACK, WHITE).unwrap_err();
    let width_error =
        generate_barcode("Tinkora", BarcodeType::Code128, 100, 0, BLACK, WHITE).unwrap_err();

    assert_eq!(height_error, CoreError::InvalidBarcodeHeight);
    assert_eq!(width_error, CoreError::InvalidBarcodeModuleWidth);
}
