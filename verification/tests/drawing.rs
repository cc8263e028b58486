use qr_forge_core::barcode::{BarcodeMatrix, generate_barcode, BarcodeType};
use qr_forge_core::error::CoreError;
use qr_forge_core::qr::{generate_qr, QrEcLevel, QrMatrix, QrOptions};
use qr_forge_core::render::{
    barcode_render_fits, barcode_to_png, barcode_to_rgba, barcode_to_svg, qr_render_fits,
    qr_to_png, qr_to_png_with_logo_size, qr_to_rgba, qr_to_svg, rgba_to_svg_fill,
};

fn tiny_matrix(options: QrOptions) -> QrMatrix {
    QrMatrix { size: 3, modules: vec![true, true, false, false, true, false, true, false, true], options }
}

fn opts(module_size: u32, margin: u32) -> QrOptions {
    QrOptions {
        ec_level: QrEcLevel::M,
        module_size,
        margin,
        fg_color: [0, 0, 0, 255],
        bg_color: [255, 255, 255, 255],
    }
}

#[test]
fn svg_fill_matches_three_decimal_alpha() {
    assert_eq!(rgba_to_svg_fill(&[1, 2, 3, 255]), "rgb(1,2,3)");
    assert_eq!(rgba_to_svg_fill(&[255, 0, 10, 128]), "rgba(255,0,10,0.502)");
    for a in 0..255u8 {
        let expected = format!("rgba(9,8,7,{:.3})", a as f64 / 255.0);
        assert_eq!(rgba_to_svg_fill(&[9, 8, 7, a]), expected);
    }
}

#[test]
fn qr_svg_draws_one_rect_per_dark_run() {
    let o = opts(2, 1);
    let m = tiny_matrix(o);
    let svg = qr_to_svg(&m, &o).unwrap();
    let expected = "<svg xmlns=\"http://www.w3.org/2000/svg\" width=\"10\" height=\"10\" viewBox=\"0 0 10 10\">\n\
\x20 <rect width=\"10\" height=\"10\" fill=\"rgb(255,255,255)\" />\n\
\x20 <rect x=\"2\" y=\"2\" width=\"4\" height=\"2\" fill=\"rgb(0,0,0)\" />\n\
\x20 <rect x=\"4\" y=\"4\" width=\"2\" height=\"2\" fill=\"rgb(0,0,0)\" />\n\
\x20 <rect x=\"2\" y=\"6\" width=\"2\" height=\"2\" fill=\"rgb(0,0,0)\" />\n\
\x20 <rect x=\"6\" y=\"6\" width=\"2\" height=\"2\" fill=\"rgb(0,0,0)\" />\n\
</svg>\n";
    assert_eq!(svg, expected);
}

#[test]
fn pixel_size_and_module_lookup() {
    let o = opts(2, 1);
    let m = tiny_matrix(o);
    assert_eq!(m.pixel_size(), 10);
    assert!(m.is_dark(0, 0));
    assert!(!m.is_dark(0, 2));
    assert!(m.is_dark(2, 2));
    assert!(!m.is_dark(3, 0));
    assert!(!m.is_dark(u32::MAX, u32::MAX));
}

#[test]
fn qr_raster_scales_modules_after_the_margin() {
    let o = opts(2, 1);
    let m = tiny_matrix(o);
    assert!(qr_render_fits(&m, &o));
    let raster = qr_to_rgba(&m, &o);
    assert_eq!(raster.len(), 10 * 10 * 4);
    let pixel = |x: usize, y: usize| &raster[(y * 10 + x) * 4..(y * 10 + x) * 4 + 4];
    for y in 0..10 {
        for x in 0..10 {
            let dark = (2..8).contains(&x)
                && (2..8).contains(&y)
                && m.is_dark((y / 2 - 1) as u32, (x / 2 - 1) as u32);
            let expected: &[u8] = if dark { &[0, 0, 0, 255] } else { &[255, 255, 255, 255] };
            assert_eq!(pixel(x, y), expected, "pixel ({x}, {y})");
        }
    }
}

#[test]
fn qr_png_decodes_to_its_raster() {
    let o = QrOptions::default();
    let m = generate_qr("hello", &o).unwrap();
    let png = qr_to_png(&m, &o).unwrap();
    let decoded = image::load_from_memory(&png).unwrap().to_rgba8();
    assert_eq!(decoded.width(), m.pixel_size());
    assert_eq!(decoded.into_raw(), qr_to_rgba(&m, &o));
}

#[test]
fn generated_qr_has_finder_patterns() {
    let m = generate_qr("hello", &QrOptions::default()).unwrap();
    assert_eq!(m.size, 21);
    for i in 0..7 {
        assert!(m.is_dark(0, i));
        assert!(m.is_dark(i, 0));
        assert!(m.is_dark(6, 20 - i));
    }
    assert!(!m.is_dark(1, 1));
}

#[test]
fn qr_data_beyond_capacity_is_invalid() {
    let err = generate_qr(&"x".repeat(3000), &QrOptions { ec_level: QrEcLevel::H, ..QrOptions::default() })
        .unwrap_err();
    assert_eq!(err, CoreError::InvalidData);
}

fn hand_barcode() -> BarcodeMatrix {
    BarcodeMatrix {
        bars: vec![(2, false), (1, true), (3, false), (2, true), (1, false)],
        total_modules: 9,
        height: 2,
        module_width: 2,
        fg_color: [0, 0, 0, 255],
        bg_color: [255, 255, 255, 128],
    }
}

#[test]
fn barcode_svg_draws_dark_bars_at_their_offsets() {
    let svg = barcode_to_svg(&hand_barcode()).unwrap();
    let expected = "<svg xmlns=\"http://www.w3.org/2000/svg\" width=\"18\" height=\"2\" viewBox=\"0 0 18 2\">\n\
\x20 <rect width=\"18\" height=\"2\" fill=\"rgba(255,255,255,0.502)\" />\n\
\x20 <rect x=\"4\" y=\"0\" width=\"2\" height=\"2\" fill=\"rgb(0,0,0)\" />\n\
\x20 <rect x=\"12\" y=\"0\" width=\"4\" height=\"2\" fill=\"rgb(0,0,0)\" />\n\
</svg>\n";
    assert_eq!(svg, expected);
}

#[test]
fn barcode_raster_paints_whole_columns() {
    let m = hand_barcode();
    assert!(barcode_render_fits(&m));
    let raster = barcode_to_rgba(&m);
    assert_eq!(raster.len(), 18 * 2 * 4);
    for y in 0..2 {
        for x in 0..18 {
            let dark = (4..6).contains(&x) || (12..16).contains(&x);
            let expected: &[u8] = if dark { &[0, 0, 0, 255] } else { &[255, 255, 255, 128] };
            assert_eq!(&raster[(y * 18 + x) * 4..(y * 18 + x) * 4 + 4], expected);
        }
    }
    let png = barcode_to_png(&m).unwrap();
    let decoded = image::load_from_memory(&png).unwrap().to_rgba8();
    assert_eq!(decoded.into_raw(), raster);
}

#[test]
fn generated_barcodes_fit_the_renderers() {
    let m = generate_barcode(&"~".repeat(128), BarcodeType::Code128, 2000, 16, [0; 4], [255; 4]).unwrap();
    assert!(barcode_render_fits(&m));
    assert_eq!(m.pixel_width(), m.total_modules * 16);
}

fn red_logo_png(size: u32) -> Vec<u8> {
    let img = image::RgbaImage::from_pixel(size, size, image::Rgba([255, 0, 0, 255]));
    let mut buf = Vec::new();
    img.write_to(&mut std::io::Cursor::new(&mut buf), image::ImageFormat::Png).unwrap();
    buf
}

#[test]
fn logo_is_centered_over_a_white_ring() {
    let o = QrOptions { ec_level: QrEcLevel::H, ..QrOptions::default() };
    let m = generate_qr("https://example.com", &o).unwrap();
    let total = m.pixel_size();
    let logo_size = 40;
    let png = qr_to_png_with_logo_size(&m, &o, &red_logo_png(16), logo_size).unwrap();
    let img = image::load_from_memory(&png).unwrap().to_rgba8();
    let offset = (total - logo_size) / 2;
    assert_eq!(img.get_pixel(offset, offset).0, [255, 0, 0, 255]);
    assert_eq!(img.get_pixel(offset + logo_size - 1, offset + logo_size - 1).0, [255, 0, 0, 255]);
    assert_eq!(img.get_pixel(offset - 1, offset - 1).0, [255, 255, 255, 255]);
    assert_eq!(img.get_pixel(offset - 2, offset + 5).0, [255, 255, 255, 255]);
    assert_eq!(img.get_pixel(offset + logo_size + 1, offset).0, [255, 255, 255, 255]);
    assert_eq!(img.get_pixel(0, 0).0, [255, 255, 255, 255]);
    let base = qr_to_rgba(&m, &o);
    let i = ((offset - 3) * total + (offset - 3)) as usize * 4;
    assert_eq!(&img.get_pixel(offset - 3, offset - 3).0[..], &base[i..i + 4]);
}

#[test]
fn logo_errors_come_in_order() {
    let o = QrOptions::default();
    let m = generate_qr("Tinkora", &o).unwrap();
    match qr_to_png_with_logo_size(&m, &o, &[1, 2, 3], 7).unwrap_err() {
        CoreError::LogoOverlayFailed(msg) => assert!(msg.starts_with("Failed to load logo: ")),
        other => panic!("unexpected error {other:?}"),
    }
    assert_eq!(
        qr_to_png_with_logo_size(&m, &o, &red_logo_png(4), 7).unwrap_err(),
        CoreError::LogoOverlayFailed("Logo size too small".to_string())
    );
}
