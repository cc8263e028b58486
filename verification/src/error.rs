use vstd::prelude::*;

use crate::text::{dec, push_decimal};

verus! {

/// Stable error type for QR and barcode generation.
#[derive(Clone, Debug, PartialEq, Eq)]
pub enum CoreError {
    EmptyData,
    InvalidData,
    InvalidEcLevel(String),
    InvalidHexColor(String),
    InvalidEan13(usize),
    InvalidEan13Chars,
    InvalidCode128,
    Code128TooLong(usize),
    InvalidWifiSsid,
    InvalidWifiPassword,
    InvalidWifiEncryption,
    MissingVcardName,
    SvgRenderFailed(String),
    PngRenderFailed(String),
    LogoOverlayFailed(String),
    InvalidLogoRatio,
    InvalidModuleSize,
    InvalidMargin,
    InvalidBarcodeHeight,
    InvalidBarcodeModuleWidth,
}

/// The machine-readable code of each error variant.
pub open spec fn error_code(e: CoreError) -> Seq<char> {
    match e {
        CoreError::EmptyData => "EMPTY_DATA"@,
        CoreError::InvalidData => "INVALID_DATA"@,
        CoreError::InvalidEcLevel(_) => "INVALID_EC_LEVEL"@,
        CoreError::InvalidHexColor(_) => "INVALID_HEX_COLOR"@,
        CoreError::InvalidEan13(_) => "INVALID_EAN13"@,
        CoreError::InvalidEan13Chars => "INVALID_EAN13_CHARS"@,
        CoreError::InvalidCode128 => "INVALID_CODE128"@,
        CoreError::Code128TooLong(_) => "CODE128_TOO_LONG"@,
        CoreError::InvalidWifiSsid => "INVALID_WIFI_SSID"@,
        CoreError::InvalidWifiPassword => "INVALID_WIFI_PASSWORD"@,
        CoreError::InvalidWifiEncryption => "INVALID_WIFI_ENCRYPTION"@,
        CoreError::MissingVcardName => "MISSING_VCARD_NAME"@,
        CoreError::SvgRenderFailed(_) => "SVG_RENDER_FAILED"@,
        CoreError::PngRenderFailed(_) => "PNG_RENDER_FAILED"@,
        CoreError::LogoOverlayFailed(_) => "LOGO_OVERLAY_FAILED"@,
        CoreError::InvalidLogoRatio => "INVALID_LOGO_RATIO"@,
        CoreError::InvalidModuleSize => "INVALID_MODULE_SIZE"@,
        CoreError::InvalidMargin => "INVALID_MARGIN"@,
        CoreError::InvalidBarcodeHeight => "INVALID_BARCODE_HEIGHT"@,
        CoreError::InvalidBarcodeModuleWidth => "INVALID_BARCODE_MODULE_WIDTH"@,
    }
}

/// The human-readable diagnostic text of each error.
pub open spec fn error_message(e: CoreError) -> Seq<char> {
    match e {
        CoreError::EmptyData => "Input data is empty"@,
        CoreError::InvalidData => "Input data contains invalid characters"@,
        CoreError::InvalidEcLevel(s) => "Invalid error correction level: "@ + s@,
        CoreError::InvalidHexColor(s) => "Invalid hex color: "@ + s@,
        CoreError::InvalidEan13(n) => "EAN-13 input must be exactly 12 digits, got "@ + dec(n as nat),
        CoreError::InvalidEan13Chars => "EAN-13 input must contain only digits"@,
        CoreError::InvalidCode128 => "Code 128 input contains unencodable characters"@,
        CoreError::Code128TooLong(n) => "Code 128 input must not exceed 128 bytes, got "@ + dec(n as nat),
        CoreError::InvalidWifiSsid => "Wi-Fi SSID must not be empty and ≤ 32 characters"@,
        CoreError::InvalidWifiPassword => "Wi-Fi password must be ≤ 64 characters"@,
        CoreError::InvalidWifiEncryption => "Wi-Fi encryption must be WPA, WEP, or nopass"@,
        CoreError::MissingVcardName => "vCard requires at least a name"@,
        CoreError::SvgRenderFailed(s) => "SVG rendering failed: "@ + s@,
        CoreError::PngRenderFailed(s) => "PNG rendering failed: "@ + s@,
        CoreError::LogoOverlayFailed(s) => "Logo overlay failed: "@ + s@,
        CoreError::InvalidLogoRatio => "Logo ratio must be finite and between 0.05 and 0.30"@,
        CoreError::InvalidModuleSize => "Module size must be between 1 and 64"@,
        CoreError::InvalidMargin => "Margin must be between 0 and 16"@,
        CoreError::InvalidBarcodeHeight => "Barcode height must be between 20 and 2000"@,
        CoreError::InvalidBarcodeModuleWidth => "Barcode module width must be between 1 and 16"@,
    }
}

fn prefixed(prefix: &str, rest: &str) -> (r: String)
    ensures
        r@ == prefix@ + rest@,
{
    let mut r = String::from_str(prefix);
    r.append(rest);
    r
}

fn prefixed_number(prefix: &str, n: usize) -> (r: String)
    ensures
        r@ == prefix@ + dec(n as nat),
{
    let mut r = String::from_str(prefix);
    push_decimal(&mut r, n as u64);
    r
}

impl CoreError {
    /// Returns a stable machine error code for Rust, WebAssembly, and browser consumers.
    pub fn code(&self) -> (r: &'static str)
        ensures
            r@ == error_code(*self),
    {
        match self {
            CoreError::EmptyData => "EMPTY_DATA",
            CoreError::InvalidData => "INVALID_DATA",
            CoreError::InvalidEcLevel(_) => "INVALID_EC_LEVEL",
            CoreError::InvalidHexColor(_) => "INVALID_HEX_COLOR",
            CoreError::InvalidEan13(_) => "INVALID_EAN13",
            CoreError::InvalidEan13Chars => "INVALID_EAN13_CHARS",
            CoreError::InvalidCode128 => "INVALID_CODE128",
            CoreError::Code128TooLong(_) => "CODE128_TOO_LONG",
            CoreError::InvalidWifiSsid => "INVALID_WIFI_SSID",
            CoreError::InvalidWifiPassword => "INVALID_WIFI_PASSWORD",
            CoreError::InvalidWifiEncryption => "INVALID_WIFI_ENCRYPTION",
            CoreError::MissingVcardName => "MISSING_VCARD_NAME",
            CoreError::SvgRenderFailed(_) => "SVG_RENDER_FAILED",
            CoreError::PngRenderFailed(_) => "PNG_RENDER_FAILED",
            CoreError::LogoOverlayFailed(_) => "LOGO_OVERLAY_FAILED",
            CoreError::InvalidLogoRatio => "INVALID_LOGO_RATIO",
            CoreError::InvalidModuleSize => "INVALID_MODULE_SIZE",
            CoreError::InvalidMargin => "INVALID_MARGIN",
            CoreError::InvalidBarcodeHeight => "INVALID_BARCODE_HEIGHT",
            CoreError::InvalidBarcodeModuleWidth => "INVALID_BARCODE_MODULE_WIDTH",
        }
    }

    /// Returns the human-readable diagnostic text of this error.
    pub fn message(&self) -> (r: String)
        ensures
            r@ == error_message(*self),
    {
        match self {
            CoreError::EmptyData => String::from_str("Input data is empty"),
            CoreError::InvalidData => String::from_str("Input data contains invalid characters"),
            CoreError::InvalidEcLevel(s) => prefixed("Invalid error correction level: ", s.as_str()),
            CoreError::InvalidHexColor(s) => prefixed("Invalid hex color: ", s.as_str()),
            CoreError::InvalidEan13(n) => prefixed_number("EAN-13 input must be exactly 12 digits, got ", *n),
            CoreError::InvalidEan13Chars => String::from_str("EAN-13 input must contain only digits"),
            CoreError::InvalidCode128 => String::from_str("Code 128 input contains unencodable characters"),
            CoreError::Code128TooLong(n) => prefixed_number("Code 128 input must not exceed 128 bytes, got ", *n),
            CoreError::InvalidWifiSsid => String::from_str("Wi-Fi SSID must not be empty and ≤ 32 characters"),
            CoreError::InvalidWifiPassword => String::from_str("Wi-Fi password must be ≤ 64 characters"),
            CoreError::InvalidWifiEncryption => String::from_str("Wi-Fi encryption must be WPA, WEP, or nopass"),
            CoreError::MissingVcardName => String::from_str("vCard requires at least a name"),
            CoreError::SvgRenderFailed(s) => prefixed("SVG rendering failed: ", s.as_str()),
            CoreError::PngRenderFailed(s) => prefixed("PNG rendering failed: ", s.as_str()),
            CoreError::LogoOverlayFailed(s) => prefixed("Logo overlay failed: ", s.as_str()),
            CoreError::InvalidLogoRatio => String::from_str("Logo ratio must be finite and between 0.05 and 0.30"),
            CoreError::InvalidModuleSize => String::from_str("Module size must be between 1 and 64"),
            CoreError::InvalidMargin => String::from_str("Margin must be between 0 and 16"),
            CoreError::InvalidBarcodeHeight => String::from_str("Barcode height must be between 20 and 2000"),
            CoreError::InvalidBarcodeModuleWidth => String::from_str("Barcode module width must be between 1 and 16"),
        }
    }
}

} // verus!
