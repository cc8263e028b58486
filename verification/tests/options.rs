use qr_forge_core::error::CoreError;
use qr_forge_core::qr::{QrEcLevel, QrOptions};

#[test]
fn default_options_are_documented() {
    let o = QrOptions::default();
    assert_eq!(o.ec_level, QrEcLevel::M);
    assert_eq!(o.module_size, 8);
    assert_eq!(o.margin, 4);
    assert_eq!(o.fg_color, [0, 0, 0, 255]);
    assert_eq!(o.bg_color, [255, 255, 255, 255]);
}

#[test]
fn option_limits_are_inclusive() {
    let o = QrOptions::new(QrEcLevel::Q, 64, 16, [1, 2, 3, 4], [5, 6, 7, 8]).unwrap();
    assert_eq!(o.module_size, 64);
    assert_eq!(o.margin, 16);
    assert_eq!(o.fg_color, [1, 2, 3, 4]);
    assert!(QrOptions::new(QrEcLevel::Q, 1, 0, [0; 4], [0; 4]).is_ok());
    assert_eq!(
        QrOptions::new(QrEcLevel::M, 0, 99, [0; 4], [0; 4]).unwrap_err(),
        CoreError::InvalidModuleSize
    );
    assert_eq!(
        QrOptions::new(QrEcLevel::M, 8, 17, [0; 4], [0; 4]).unwrap_err(),
        CoreError::InvalidMargin
    );
}

#[test]
fn ec_level_errors_carry_the_uppercased_name() {
    assert_eq!("q".parse::<QrEcLevel>().unwrap(), QrEcLevel::Q);
    assert_eq!(
        "x".parse::<QrEcLevel>().unwrap_err(),
        CoreError::InvalidEcLevel("X".to_string())
    );
    assert_eq!(
        "".parse::<QrEcLevel>().unwrap_err(),
        CoreError::InvalidEcLevel(String::new())
    );
}

#[test]
fn hex_colors_take_one_optional_hash_and_six_digits() {
    assert_eq!(QrOptions::parse_hex_color("#00ff10").unwrap(), [0, 255, 16, 255]);
    assert_eq!(QrOptions::parse_hex_color("aBcDeF").unwrap(), [171, 205, 239, 255]);
    assert_eq!(
        QrOptions::parse_hex_color("##00ff10").unwrap_err(),
        CoreError::InvalidHexColor("#00ff10".to_string())
    );
    assert_eq!(
        QrOptions::parse_hex_color("+F+F+F").unwrap_err(),
        CoreError::InvalidHexColor("+F+F+F".to_string())
    );
    assert_eq!(
        QrOptions::parse_hex_color("#12345").unwrap_err(),
        CoreError::InvalidHexColor("12345".to_string())
    );
    assert_eq!(
        QrOptions::parse_hex_color("#12-456").unwrap_err(),
        CoreError::InvalidHexColor("12-456".to_string())
    );
    assert_eq!(
        QrOptions::parse_hex_color("").unwrap_err(),
        CoreError::InvalidHexColor(String::new())
    );
    assert_eq!(
        QrOptions::parse_hex_color("#").unwrap_err(),
        CoreError::InvalidHexColor(String::new())
    );
}

#[test]
fn hex_colors_with_multibyte_characters_are_refused() {
    assert_eq!(
        QrOptions::parse_hex_color("é1234").unwrap_err(),
        CoreError::InvalidHexColor("é1234".to_string())
    );
    assert_eq!(
        QrOptions::parse_hex_color("aéaaa").unwrap_err(),
        CoreError::InvalidHexColor("aéaaa".to_string())
    );
    assert_eq!(
        QrOptions::parse_hex_color("aé€").unwrap_err(),
        CoreError::InvalidHexColor("aé€".to_string())
    );
    assert_eq!(
        QrOptions::parse_hex_color("#ééé").unwrap_err(),
        CoreError::InvalidHexColor("ééé".to_string())
    );
}

#[test]
fn color_to_hex_is_uppercase_and_parses_back() {
    assert_eq!(QrOptions::color_to_hex(&[255, 136, 0, 7]), "#FF8800");
    assert_eq!(QrOptions::color_to_hex(&[0, 10, 171, 255]), "#000AAB");
    for c in [[0u8, 0, 0, 0], [255, 255, 255, 255], [18, 52, 86, 120], [171, 205, 239, 1]] {
        let hex = QrOptions::color_to_hex(&c);
        assert_eq!(QrOptions::parse_hex_color(&hex).unwrap(), [c[0], c[1], c[2], 255]);
    }
}
