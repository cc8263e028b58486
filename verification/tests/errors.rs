use qr_forge_core::error::CoreError;

#[test]
fn every_error_has_its_documented_code() {
    let cases = vec![
        (CoreError::EmptyData, "EMPTY_DATA"),
        (CoreError::InvalidData, "INVALID_DATA"),
        (CoreError::InvalidEcLevel("X".to_string()), "INVALID_EC_LEVEL"),
        (CoreError::InvalidHexColor("GG".to_string()), "INVALID_HEX_COLOR"),
        (CoreError::InvalidEan13(3), "INVALID_EAN13"),
        (CoreError::InvalidEan13Chars, "INVALID_EAN13_CHARS"),
        (CoreError::InvalidCode128, "INVALID_CODE128"),
        (CoreError::Code128TooLong(129), "CODE128_TOO_LONG"),
        (CoreError::InvalidWifiSsid, "INVALID_WIFI_SSID"),
        (CoreError::InvalidWifiPassword, "INVALID_WIFI_PASSWORD"),
        (CoreError::InvalidWifiEncryption, "INVALID_WIFI_ENCRYPTION"),
        (CoreError::MissingVcardName, "MISSING_VCARD_NAME"),
        (CoreError::SvgRenderFailed("x".to_string()), "SVG_RENDER_FAILED"),
        (CoreError::PngRenderFailed("x".to_string()), "PNG_RENDER_FAILED"),
        (CoreError::LogoOverlayFailed("x".to_string()), "LOGO_OVERLAY_FAILED"),
        (CoreError::InvalidLogoRatio, "INVALID_LOGO_RATIO"),
        (CoreError::InvalidModuleSize, "INVALID_MODULE_SIZE"),
        (CoreError::InvalidMargin, "INVALID_MARGIN"),
        (CoreError::InvalidBarcodeHeight, "INVALID_BARCODE_HEIGHT"),
        (CoreError::InvalidBarcodeModuleWidth, "INVALID_BARCODE_MODULE_WIDTH"),
    ];
    for (error, code) in cases {
        assert_eq!(error.code(), code);
    }
}

#[test]
fn messages_embed_their_values() {
    assert_eq!(
        CoreError::InvalidEan13(3).message(),
        "EAN-13 input must be exactly 12 digits, got 3"
    );
    assert_eq!(
        CoreError::Code128TooLong(1290).message(),
        "Code 128 input must not exceed 128 bytes, got 1290"
    );
    assert_eq!(
        CoreError::InvalidEcLevel("X".to_string()).message(),
        "Invalid error correction level: X"
    );
    assert_eq!(
        CoreError::InvalidHexColor("#GGG".to_string()).message(),
        "Invalid hex color: #GGG"
    );
    assert_eq!(
        CoreError::PngRenderFailed("boom".to_string()).message(),
        "PNG rendering failed: boom"
    );
    assert_eq!(
        CoreError::InvalidWifiSsid.message(),
        "Wi-Fi SSID must not be empty and ≤ 32 characters"
    );
    assert_eq!(CoreError::EmptyData.message(), "Input data is empty");
    assert_eq!(
        CoreError::InvalidEan13(0).message(),
        "EAN-13 input must be exactly 12 digits, got 0"
    );
}
