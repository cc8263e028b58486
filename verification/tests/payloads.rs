use qr_forge_core::error::CoreError;
use qr_forge_core::pipeline::{email_payload, parse_barcode_type, phone_payload};
use qr_forge_core::qr::{escape_vcard, escape_wifi, vcard_qr_config, wifi_qr_config};
use qr_forge_core::BarcodeType;

#[test]
fn wifi_escapes_its_special_characters() {
    assert_eq!(escape_wifi("a;b,c:d\"e\\f"), "a\\;b\\,c\\:d\\\"e\\\\f");
    assert_eq!(escape_wifi("plain text"), "plain text");
}

#[test]
fn wifi_payload_formats() {
    assert_eq!(
        wifi_qr_config("Home;Net", "p:w", "wpa2").unwrap(),
        "WIFI:T:WPA;S:Home\\;Net;P:p\\:w;;"
    );
    assert_eq!(
        wifi_qr_config("Lab", "x", "wep").unwrap(),
        "WIFI:T:WEP;S:Lab;P:x;;"
    );
    assert_eq!(
        wifi_qr_config("Cafe", "ignored", "").unwrap(),
        "WIFI:S:Cafe;T:nopass;;"
    );
    assert_eq!(
        wifi_qr_config("Cafe", "", "NoPass").unwrap(),
        "WIFI:S:Cafe;T:nopass;;"
    );
}

#[test]
fn wifi_limits_count_bytes() {
    assert!(wifi_qr_config(&"s".repeat(32), &"p".repeat(64), "WPA").is_ok());
    assert_eq!(
        wifi_qr_config(&"s".repeat(33), "", "WPA").unwrap_err(),
        CoreError::InvalidWifiSsid
    );
    // Eleven three-byte characters are 33 bytes.
    assert_eq!(
        wifi_qr_config(&"€".repeat(11), "", "WPA").unwrap_err(),
        CoreError::InvalidWifiSsid
    );
    assert_eq!(
        wifi_qr_config("s", &"p".repeat(65), "WPA").unwrap_err(),
        CoreError::InvalidWifiPassword
    );
    assert_eq!(
        wifi_qr_config("s", "p", "WPA3").unwrap_err(),
        CoreError::InvalidWifiEncryption
    );
}

#[test]
fn vcard_trims_escapes_and_skips_empty_fields() {
    assert_eq!(escape_vcard("a\\b;c,d\ne"), "a\\\\b\\;c\\,d\\ne");
    assert_eq!(
        vcard_qr_config("  Doe, John  ", " ", "\tj@x.org\n", "A;B").unwrap(),
        "BEGIN:VCARD\nVERSION:3.0\nFN:Doe\\, John\nEMAIL:j@x.org\nORG:A\\;B\nEND:VCARD"
    );
    assert_eq!(
        vcard_qr_config("\u{3000}\u{a0}", "1", "", "").unwrap_err(),
        CoreError::MissingVcardName
    );
}

#[test]
fn phone_and_email_uris_are_trimmed() {
    assert_eq!(phone_payload("  +1 555 0100 "), "tel:+1 555 0100");
    assert_eq!(email_payload("\nme@example.com  "), "mailto:me@example.com");
}

#[test]
fn barcode_type_names_are_case_insensitive() {
    for name in ["code128", "CODE_128", "Code-128"] {
        assert_eq!(parse_barcode_type(name).unwrap(), BarcodeType::Code128);
    }
    for name in ["ean13", "EAN_13", "Ean-13"] {
        assert_eq!(parse_barcode_type(name).unwrap(), BarcodeType::Ean13);
    }
    assert_eq!(
        parse_barcode_type("QR").unwrap_err(),
        "Unknown barcode type: qr. Use 'code128' or 'ean13'."
    );
}
