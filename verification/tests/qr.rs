use qr_forge_core::error::CoreError;
use qr_forge_core::qr::{generate_qr, vcard_qr_config, wifi_qr_config, QrEcLevel, QrOptions};

#[test]
fn test_generate_qr_url() {
    let opts = QrOptions::default();
    let matrix = generate_qr("https://example.com", &opts).unwrap();
    assert!(matrix.size >= 21); // Minimum QR version 1
    assert_eq!(matrix.modules.len(), (matrix.size * matrix.size) as usize);
}

#[test]
fn test_generate_qr_empty_fails() {
    let opts = QrOptions::default();
    let err = generate_qr("", &opts).unwrap_err();
    assert_eq!(err, CoreError::EmptyData);
}

#[test]
fn test_qr_ec_level_from_str() {
    assert_eq!("L".parse::<QrEcLevel>().unwrap(), QrEcLevel::L);
    assert_eq!("m".parse::<QrEcLevel>().unwrap(), QrEcLevel::M);
    assert_eq!("H".parse::<QrEcLevel>().unwrap(), QrEcLevel::H);
    assert!("X".parse::<QrEcLevel>().is_err());
}

#[test]
fn test_wifi_qr_config_wpa() {
    let cfg = wifi_qr_config("MyWiFi", "secret123", "WPA").unwrap();
    assert!(cfg.contains("WIFI:"));
    assert!(cfg.contains("MyWiFi"));
    assert!(cfg.contains("secret123"));
    assert!(cfg.contains("T:WPA"));
}

#[test]
fn test_wifi_qr_config_nopass() {
    let cfg = wifi_qr_config("OpenNet", "", "nopass").unwrap();
    assert!(cfg.contains("T:nopass"));
    assert!(!cfg.contains("P:"));
}

#[test]
fn test_wifi_qr_config_invalid_ssid() {
    let err = wifi_qr_config("", "pw", "WPA").unwrap_err();
    assert_eq!(err, CoreError::InvalidWifiSsid);
}

#[test]
fn test_vcard_qr_config() {
    let cfg =
        vcard_qr_config("John Doe", "1234567890", "john@example.com", "ACME Corp").unwrap();
    assert!(cfg.contains("BEGIN:VCARD"));
    assert!(cfg.contains("FN:John Doe"));
    assert!(cfg.contains("TEL:1234567890"));
    assert!(cfg.contains("EMAIL:john@example.com"));
    assert!(cfg.contains("ORG:ACME Corp"));
    assert!(cfg.contains("END:VCARD"));
}

#[test]
fn test_vcard_missing_name() {
    let err = vcard_qr_config("", "", "", "").unwrap_err();
    assert_eq!(err, CoreError::MissingVcardName);
}

#[test]
fn test_parse_hex_color() {
    assert_eq!(
        QrOptions::parse_hex_color("#FF8800").unwrap(),
        [255, 136, 0, 255]
    );
    assert_eq!(
        QrOptions::parse_hex_color("00AAFF").unwrap(),
        [0, 170, 255, 255]
    );
    assert!(QrOptions::parse_hex_color("#GGG").is_err());
}

#[test]
fn test_qr_pixel_size() {
    let opts = QrOptions {
        module_size: 4,
        margin: 2,
        ..Default::default()
    };
    let matrix = generate_qr("test", &opts).unwrap();
    let px = (matrix.size + 4) * 4;
    assert_eq!(matrix.pixel_size(), px);
}

#[test]
fn test_module_size_validation() {
    assert!(QrOptions::new(QrEcLevel::M, 0, 4, [0; 4], [255; 4]).is_err());
    assert!(QrOptions::new(QrEcLevel::M, 65, 4, [0; 4], [255; 4]).is_err());
    assert!(QrOptions::new(QrEcLevel::M, 8, 17, [0; 4], [255; 4]).is_err());
}
