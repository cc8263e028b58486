use image::{ImageBuffer, Rgba, RgbaImage};
use qr_forge_core::barcode::{generate_barcode, BarcodeType};
use qr_forge_core::qr::{generate_qr, QrEcLevel, QrOptions};
use qr_forge_core::render::{
    barcode_to_png, barcode_to_svg, qr_to_png, qr_to_png_with_logo_size, qr_to_svg,
};

#[test]
fn test_qr_to_svg() {
    let opts = QrOptions::default();
    let matrix = generate_qr("https://example.com", &opts).unwrap();
    let svg = qr_to_svg(&matrix, &opts).unwrap();
    assert!(svg.starts_with("<svg"));
    assert!(svg.contains("</svg>"));
    assert!(svg.contains("rect"));
}

#[test]
fn test_qr_to_png() {
    let opts = QrOptions::default();
    let matrix = generate_qr("hello", &opts).unwrap();
    let png = qr_to_png(&matrix, &opts).unwrap();
    assert!(!png.is_empty());
    // PNG magic bytes
    assert_eq!(&png[0..8], &[137, 80, 78, 71, 13, 10, 26, 10]);
}

#[test]
fn test_qr_to_svg_custom_colors() {
    let opts = QrOptions {
        fg_color: [255, 0, 0, 255],
        bg_color: [0, 0, 255, 255],
        ..Default::default()
    };
    let matrix = generate_qr("test", &opts).unwrap();
    let svg = qr_to_svg(&matrix, &opts).unwrap();
    assert!(svg.contains("rgb(255,0,0)"));
    assert!(svg.contains("rgb(0,0,255)"));
}

#[test]
fn test_barcode_svg_and_png() {
    let matrix = generate_barcode(
        "12345678",
        BarcodeType::Code128,
        100,
        2,
        [0, 0, 0, 255],
        [255, 255, 255, 255],
    )
    .unwrap();

    let svg = barcode_to_svg(&matrix).unwrap();
    assert!(svg.starts_with("<svg"));

    let png = barcode_to_png(&matrix).unwrap();
    assert!(!png.is_empty());
    assert_eq!(&png[0..8], &[137, 80, 78, 71, 13, 10, 26, 10]);
}

#[test]
fn test_qr_to_png_with_logo() {
    let opts = QrOptions {
        ec_level: QrEcLevel::H, // High EC for logo overlay
        ..Default::default()
    };
    let matrix = generate_qr("https://example.com", &opts).unwrap();

    // Create a tiny 32x32 red square as logo
    let mut logo_img: RgbaImage = ImageBuffer::new(32, 32);
    for pixel in logo_img.pixels_mut() {
        *pixel = Rgba([255, 0, 0, 255]);
    }
    let mut logo_buf = Vec::new();
    logo_img
        .write_to(
            &mut std::io::Cursor::new(&mut logo_buf),
            image::ImageFormat::Png,
        )
        .unwrap();

    // A logo ratio of 0.25 of the data area.
    let logo_size = ((matrix.size * opts.module_size) as f64 * 0.25) as u32;
    let result = qr_to_png_with_logo_size(&matrix, &opts, &logo_buf, logo_size);
    assert!(result.is_ok());
    let png = result.unwrap();
    assert!(!png.is_empty());
}

fn decode(png: &[u8]) -> RgbaImage {
    image::load_from_memory(png).unwrap().to_rgba8()
}

#[test]
fn qr_png_pixels_decode_as_drawn() {
    let opts = QrOptions {
        module_size: 2,
        margin: 1,
        fg_color: [10, 20, 30, 255],
        bg_color: [200, 210, 220, 255],
        ..Default::default()
    };
    let matrix = generate_qr("round trip", &opts).unwrap();
    let img = decode(&qr_to_png(&matrix, &opts).unwrap());
    let px = matrix.pixel_size();
    assert_eq!((img.width(), img.height()), (px, px));
    assert_eq!(img.get_pixel(0, 0).0, [200, 210, 220, 255]);
    assert_eq!(img.get_pixel(2, 2).0, [10, 20, 30, 255]);
    assert_eq!(img.get_pixel(px - 1, px - 1).0, [200, 210, 220, 255]);
}

#[test]
fn barcode_png_decodes_to_its_raster() {
    let matrix = generate_barcode("A", BarcodeType::Code128, 20, 1, [0, 0, 0, 255], [255, 255, 255, 255])
        .unwrap();
    let img = decode(&barcode_to_png(&matrix).unwrap());
    assert_eq!((img.width(), img.height()), (matrix.total_modules, 20));
    assert_eq!(img.get_pixel(9, 5).0, [255, 255, 255, 255]);
    assert_eq!(img.get_pixel(10, 5).0, [0, 0, 0, 255]);
}

#[test]
fn logo_overlay_keeps_the_code_outside_its_ring() {
    let opts = QrOptions { ec_level: QrEcLevel::H, ..Default::default() };
    let matrix = generate_qr("https://example.com", &opts).unwrap();
    let mut logo_img: RgbaImage = ImageBuffer::new(32, 32);
    for pixel in logo_img.pixels_mut() {
        *pixel = Rgba([255, 0, 0, 255]);
    }
    let mut logo_buf = Vec::new();
    logo_img
        .write_to(&mut std::io::Cursor::new(&mut logo_buf), image::ImageFormat::Png)
        .unwrap();
    let logo_size = 40;
    let base = decode(&qr_to_png(&matrix, &opts).unwrap());
    let img = decode(&qr_to_png_with_logo_size(&matrix, &opts, &logo_buf, logo_size).unwrap());
    let px = matrix.pixel_size();
    let off = (px - logo_size) / 2;
    assert_eq!(img.get_pixel(off + 20, off + 20).0, [255, 0, 0, 255]);
    assert_eq!(img.get_pixel(off - 1, off + 5).0, [255, 255, 255, 255]);
    assert_eq!(img.get_pixel(off - 2, off - 2).0, [255, 255, 255, 255]);
    for (x, y) in [(0, 0), (off - 3, off), (off + logo_size + 2, off), (px - 1, px - 1)] {
        assert_eq!(img.get_pixel(x, y), base.get_pixel(x, y));
    }
}

#[test]
fn logo_decoding_errors_are_reported_before_the_size_check() {
    let opts = QrOptions::default();
    let matrix = generate_qr("x", &opts).unwrap();
    let err = qr_to_png_with_logo_size(&matrix, &opts, b"not an image", 4).unwrap_err();
    assert!(err.message().starts_with("Logo overlay failed: Failed to load logo: "));
}

#[test]
fn logo_near_the_edge_gets_no_ring() {
    let opts = QrOptions { ec_level: QrEcLevel::L, module_size: 1, margin: 0, ..Default::default() };
    let matrix = generate_qr("1", &opts).unwrap();
    assert_eq!(matrix.pixel_size(), 21);
    let mut logo_img: RgbaImage = ImageBuffer::new(32, 32);
    for pixel in logo_img.pixels_mut() {
        *pixel = Rgba([255, 0, 0, 255]);
    }
    let mut logo_buf = Vec::new();
    logo_img
        .write_to(&mut std::io::Cursor::new(&mut logo_buf), image::ImageFormat::Png)
        .unwrap();
    let base = decode(&qr_to_png(&matrix, &opts).unwrap());
    let img = decode(&qr_to_png_with_logo_size(&matrix, &opts, &logo_buf, 17).unwrap());
    // offset (21 - 17) / 2 = 2: no white ring, only the logo square changes
    for (x, y) in [(0, 0), (1, 10), (10, 1), (19, 10), (20, 20)] {
        assert_eq!(img.get_pixel(x, y), base.get_pixel(x, y));
    }
    let center = img.get_pixel(10, 10).0;
    assert!(center[0] > 200 && center[1] < 50 && center[2] < 50 && center[3] > 0);
}
