use qr_forge_core::error::CoreError;
use qr_forge_core::pipeline::{
    generate_barcode_png, generate_barcode_svg, generate_qr_png, generate_qr_svg,
    qr_options_from_params,
};
use qr_forge_core::qr::{generate_qr, QrEcLevel};
use qr_forge_core::render::qr_to_svg;
use qr_forge_core::BarcodeType;

#[test]
fn options_from_request_parameters() {
    let o = qr_options_from_params("h", 4, 0, "#102030", "fFfFfF").unwrap();
    assert_eq!(o.ec_level, QrEcLevel::H);
    assert_eq!(o.module_size, 4);
    assert_eq!(o.margin, 0);
    assert_eq!(o.fg_color, [16, 32, 48, 255]);
    assert_eq!(o.bg_color, [255, 255, 255, 255]);
}

#[test]
fn request_errors_follow_parameter_order() {
    assert_eq!(
        qr_options_from_params("z", 0, 99, "bad", "bad").unwrap_err(),
        CoreError::InvalidEcLevel("Z".to_string())
    );
    assert_eq!(
        qr_options_from_params("L", 0, 99, "bad", "bad").unwrap_err(),
        CoreError::InvalidHexColor("bad".to_string())
    );
    assert_eq!(
        qr_options_from_params("L", 0, 99, "000000", "#bad").unwrap_err(),
        CoreError::InvalidHexColor("bad".to_string())
    );
    assert_eq!(
        qr_options_from_params("L", 0, 99, "000000", "ffffff").unwrap_err(),
        CoreError::InvalidModuleSize
    );
    assert_eq!(
        qr_options_from_params("L", 1, 99, "000000", "ffffff").unwrap_err(),
        CoreError::InvalidMargin
    );
}

#[test]
fn qr_svg_request_reports_the_pixel_size() {
    let (svg, size) = generate_qr_svg("hello", "m", 8, 4, "#000000", "#FFFFFF").unwrap();
    assert_eq!(size, (21 + 8) * 8);
    let o = qr_options_from_params("m", 8, 4, "#000000", "#FFFFFF").unwrap();
    let m = generate_qr("hello", &o).unwrap();
    assert_eq!(svg, qr_to_svg(&m, &o).unwrap());
    assert_eq!(
        generate_qr_svg("", "m", 8, 4, "#000000", "#FFFFFF").unwrap_err(),
        CoreError::EmptyData
    );
}

#[test]
fn qr_png_request_is_a_png() {
    let png = generate_qr_png("hello", "L", 2, 0, "000000", "FFFFFF").unwrap();
    let img = image::load_from_memory(&png).unwrap();
    assert_eq!(img.width(), 42);
}

#[test]
fn barcode_requests_report_the_pixel_width() {
    let (svg, width) =
        generate_barcode_svg("590123412345", BarcodeType::Ean13, 80, 2, "000000", "FFFFFF").unwrap();
    assert_eq!(width, 113 * 2);
    assert!(svg.starts_with("<svg"));
    assert_eq!(
        generate_barcode_svg("590123412345", BarcodeType::Ean13, 10, 2, "000000", "nope").unwrap_err(),
        CoreError::InvalidHexColor("nope".to_string())
    );
    assert_eq!(
        generate_barcode_svg("59012341234", BarcodeType::Ean13, 10, 2, "000000", "FFFFFF").unwrap_err(),
        CoreError::InvalidBarcodeHeight
    );
    let png = generate_barcode_png("TINKORA", BarcodeType::Code128, 30, 1, "000000", "FFFFFF").unwrap();
    let img = image::load_from_memory(&png).unwrap();
    assert_eq!(img.height(), 30);
}

#[test]
fn request_colors_with_multibyte_characters_give_the_hex_color_error() {
    assert_eq!(
        generate_qr_svg("x", "m", 8, 4, "aéaaa", "#FFFFFF").unwrap_err(),
        CoreError::InvalidHexColor("aéaaa".to_string())
    );
    assert_eq!(
        generate_barcode_svg("A", BarcodeType::Code128, 50, 1, "#000000", "#ééé").unwrap_err(),
        CoreError::InvalidHexColor("ééé".to_string())
    );
    assert_eq!(
        qr_options_from_params("q", 8, 4, "#000000", "##FFFFFF").unwrap_err(),
        CoreError::InvalidHexColor("#FFFFFF".to_string())
    );
}

#[test]
fn data_up_to_364_bytes_is_always_encoded() {
    for data in ["a1".repeat(182), "é".repeat(182), "A-b.9".repeat(72) + "zzzz", "7".repeat(364)] {
        assert!(data.len() <= 364);
        let png = generate_qr_png(&data, "h", 1, 0, "#000000", "#FFFFFF").unwrap();
        assert_eq!(&png[..8], &[137, 80, 78, 71, 13, 10, 26, 10]);
        assert!(generate_qr_svg(&data, "H", 1, 0, "000000", "FFFFFF").is_ok());
    }
}

#[test]
fn valid_barcode_requests_always_render() {
    let png = generate_barcode_png("A", BarcodeType::Code128, 20, 1, "#000000", "#FFFFFF").unwrap();
    assert_eq!(&png[..8], &[137, 80, 78, 71, 13, 10, 26, 10]);
    let png = generate_barcode_png("590123412345", BarcodeType::Ean13, 2000, 16, "000000", "ffffff").unwrap();
    assert_eq!(&png[..8], &[137, 80, 78, 71, 13, 10, 26, 10]);
    assert!(generate_barcode_svg(&"~".repeat(128), BarcodeType::Code128, 20, 16, "000000", "FFFFFF").is_ok());
}
