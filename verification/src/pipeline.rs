use vstd::prelude::*;

use vstd::string::StringSliceAdditionalSpecFns;

use crate::barcode::{
    barcode_encoding, barcode_input_accepted, generate_barcode, is_barcode_of, left_quiet_zone, right_quiet_zone, BarcodeMatrix,
    BarcodeType,
};
use crate::error::CoreError;
use crate::qr::{
    ec_level_named, generate_qr, hex_color_digits, hex_color_value, image_modules, qr_symbol,
    QrEcLevel, QrMatrix, QrOptions,
};
use crate::render::{
    barcode_raster, barcode_svg, barcode_to_png, barcode_to_svg, qr_image_px, qr_raster, qr_svg,
    qr_to_png, qr_to_svg,
};
use crate::rgba::{is_png_file, png_encodable, png_encoding};
use crate::text::{lowercase, str_eq, to_lowercase, trim, trim_str, uppercase};

verus! {

/// The options that request parameters describe, when all of them are valid.
pub open spec fn params_options(ec_level: Seq<char>, module_size: u32, margin: u32, fg_hex: Seq<char>, bg_hex: Seq<char>) -> Option<QrOptions> {
    match (ec_level_named(uppercase(ec_level)), hex_color_value(fg_hex), hex_color_value(bg_hex)) {
        (Some(level), Some((fr, fg, fb)), Some((br, bg, bb))) => if 1 <= module_size <= 64 && margin <= 16 {
            Some(QrOptions {
                ec_level: level,
                module_size,
                margin,
                fg_color: [fr, fg, fb, 255u8],
                bg_color: [br, bg, bb, 255u8],
            })
        } else {
            None
        },
        _ => None,
    }
}

/// The error that invalid request parameters give: the first invalid one of error
/// correction level, foreground, background, module size and margin.
pub open spec fn params_error(ec_level: Seq<char>, module_size: u32, margin: u32, fg_hex: Seq<char>, bg_hex: Seq<char>, e: CoreError) -> bool {
    if ec_level_named(uppercase(ec_level)) is None {
        e matches CoreError::InvalidEcLevel(n) && n@ == uppercase(ec_level)
    } else if hex_color_value(fg_hex) is None {
        e matches CoreError::InvalidHexColor(n) && n@ == hex_color_digits(fg_hex)
    } else if hex_color_value(bg_hex) is None {
        e matches CoreError::InvalidHexColor(n) && n@ == hex_color_digits(bg_hex)
    } else if !(1 <= module_size <= 64) {
        e == CoreError::InvalidModuleSize
    } else {
        e == CoreError::InvalidMargin
    }
}

/// Builds QR options from request parameters: an error correction level name, sizes and
/// two hex colors.
pub fn qr_options_from_params(
    ec_level: &str,
    module_size: u32,
    margin: u32,
    fg_hex: &str,
    bg_hex: &str,
) -> (r: Result<QrOptions, CoreError>)
    ensures
        match params_options(ec_level@, module_size, margin, fg_hex@, bg_hex@) {
            Some(o) => r == Ok::<QrOptions, CoreError>(o),
            None => r matches Err(e) && params_error(ec_level@, module_size, margin, fg_hex@, bg_hex@, e),
        },
{
    let ec = <QrEcLevel as std::str::FromStr>::from_str(ec_level)?;
    let fg = QrOptions::parse_hex_color(fg_hex)?;
    let bg = QrOptions::parse_hex_color(bg_hex)?;
    let r = QrOptions::new(ec, module_size, margin, fg, bg);
    proof {
        if let Ok(o) = r {
            assert(o.fg_color =~= [fg[0], fg[1], fg[2], 255u8]);
            assert(o.bg_color =~= [bg[0], bg[1], bg[2], 255u8]);
        }
    }
    r
}


/// The QR matrix that generation yields for data under options, described by its parts.
pub open spec fn is_qr_matrix_of(m: QrMatrix, data: Seq<char>, options: QrOptions) -> bool {
    &&& data.len() > 0
    &&& qr_symbol(data, options.ec_level) matches Some((w, modules))
    &&& m.size == w
    &&& m.modules@ == modules
    &&& m.options == options
}

/// Generation of valid options always yields an image that fits the renderers.
proof fn lemma_generated_sizes(m: QrMatrix, o: QrOptions)
    requires
        21 <= m.size <= 177,
        m.options == o,
        1 <= o.module_size <= 64,
        o.margin <= 16,
    ensures
        image_modules(m.size, o.margin) <= 209,
        qr_image_px(m) <= 13376,
        qr_image_px(m) * qr_image_px(m) * 4 <= u32::MAX,
        (o.margin + m.size) * o.module_size <= u32::MAX,
        png_encodable(qr_image_px(m), qr_image_px(m)),
{
    assert(image_modules(m.size, o.margin) * o.module_size >= 21) by (nonlinear_arith)
        requires
            image_modules(m.size, o.margin) >= 21,
            o.module_size >= 1,
    ;
    assert(image_modules(m.size, o.margin) * o.module_size <= 209 * 64) by (nonlinear_arith)
        requires
            image_modules(m.size, o.margin) <= 209,
            o.module_size <= 64,
    ;
    assert(qr_image_px(m) * qr_image_px(m) <= 13376 * 13376) by (nonlinear_arith)
        requires
            0 <= qr_image_px(m) <= 13376,
    ;
    assert((o.margin + m.size) * o.module_size <= 209 * 64) by (nonlinear_arith)
        requires
            o.margin + m.size <= 209,
            o.module_size <= 64,
    ;
}

/// Generates a QR code SVG from request parameters, with the image's pixel size.
pub fn generate_qr_svg(
    data: &str,
    ec_level: &str,
    module_size: u32,
    margin: u32,
    fg_hex: &str,
    bg_hex: &str,
) -> (r: Result<(String, u32), CoreError>)
    ensures
        match params_options(ec_level@, module_size, margin, fg_hex@, bg_hex@) {
            None => r matches Err(e) && params_error(ec_level@, module_size, margin, fg_hex@, bg_hex@, e),
            Some(o) => if data@.len() == 0 {
                r matches Err(CoreError::EmptyData)
            } else if qr_symbol(data@, o.ec_level) is None {
                r matches Err(CoreError::InvalidData)
            } else {
                r matches Ok((svg, px)) && exists|m: QrMatrix| is_qr_matrix_of(m, data@, o)
                    && #[trigger] qr_svg(m, o) == svg@ && px == qr_image_px(m)
            },
        },
        params_options(ec_level@, module_size, margin, fg_hex@, bg_hex@) is Some && data@.len() > 0
            && data.spec_bytes().len() <= 364 ==> r is Ok,
{
    let opts = qr_options_from_params(ec_level, module_size, margin, fg_hex, bg_hex)?;
    let matrix = generate_qr(data, &opts)?;
    proof {
        lemma_generated_sizes(matrix, opts);
    }
    let svg = qr_to_svg(&matrix, &opts)?;
    let pixel_size = matrix.pixel_size();
    Ok((svg, pixel_size))
}

/// Generates a QR code PNG from request parameters.
pub fn generate_qr_png(
    data: &str,
    ec_level: &str,
    module_size: u32,
    margin: u32,
    fg_hex: &str,
    bg_hex: &str,
) -> (r: Result<Vec<u8>, CoreError>)
    ensures
        match params_options(ec_level@, module_size, margin, fg_hex@, bg_hex@) {
            None => r matches Err(e) && params_error(ec_level@, module_size, margin, fg_hex@, bg_hex@, e),
            Some(o) => if data@.len() == 0 {
                r matches Err(CoreError::EmptyData)
            } else if qr_symbol(data@, o.ec_level) is None {
                r matches Err(CoreError::InvalidData)
            } else {
                exists|m: QrMatrix| is_qr_matrix_of(m, data@, o) && match #[trigger] png_encoding(
                    qr_image_px(m) as u32,
                    qr_image_px(m) as u32,
                    qr_raster(m, o),
                ) {
                    Ok(png) => r matches Ok(bytes) && bytes@ == png,
                    Err(msg) => r matches Err(CoreError::PngRenderFailed(s)) && s@ == msg,
                }
            },
        },
        params_options(ec_level@, module_size, margin, fg_hex@, bg_hex@) is Some && data@.len() > 0
            && data.spec_bytes().len() <= 364 ==> r is Ok,
        match r {
            Ok(bytes) => is_png_file(bytes@),
            Err(_) => true,
        },
{
    let opts = qr_options_from_params(ec_level, module_size, margin, fg_hex, bg_hex)?;
    let matrix = generate_qr(data, &opts)?;
    proof {
        lemma_generated_sizes(matrix, opts);
    }
    qr_to_png(&matrix, &opts)
}


/// The symbology that a barcode type name selects, compared after lowercasing.
pub open spec fn barcode_type_named(lower: Seq<char>) -> Option<BarcodeType> {
    if lower == "code128"@ || lower == "code_128"@ || lower == "code-128"@ {
        Some(BarcodeType::Code128)
    } else if lower == "ean13"@ || lower == "ean_13"@ || lower == "ean-13"@ {
        Some(BarcodeType::Ean13)
    } else {
        None
    }
}

/// Reads a barcode type name, case-insensitively; an unknown name gives the message that
/// is shown for it.
pub fn parse_barcode_type(s: &str) -> (r: Result<BarcodeType, String>)
    ensures
        match barcode_type_named(lowercase(s@)) {
            Some(t) => r matches Ok(t2) && t2 == t,
            None => r matches Err(msg) && msg@ == "Unknown barcode type: "@ + lowercase(s@)
                + ". Use 'code128' or 'ean13'."@,
        },
{
    let lower = to_lowercase(s);
    let l = lower.as_str();
    if str_eq(l, "code128") || str_eq(l, "code_128") || str_eq(l, "code-128") {
        Ok(BarcodeType::Code128)
    } else if str_eq(l, "ean13") || str_eq(l, "ean_13") || str_eq(l, "ean-13") {
        Ok(BarcodeType::Ean13)
    } else {
        let mut msg = String::from_str("Unknown barcode type: ");
        msg.append(l);
        msg.append(". Use 'code128' or 'ean13'.");
        Err(msg)
    }
}

/// The `tel:` URI of a phone number, trimmed.
pub fn phone_payload(phone: &str) -> (r: String)
    ensures
        r@ == "tel:"@ + trim(phone@),
{
    let mut r = String::from_str("tel:");
    r.append(trim_str(phone));
    r
}

/// The `mailto:` URI of an email address, trimmed.
pub fn email_payload(email: &str) -> (r: String)
    ensures
        r@ == "mailto:"@ + trim(email@),
{
    let mut r = String::from_str("mailto:");
    r.append(trim_str(email));
    r
}

/// The error that barcode request parameters give before encoding: the first invalid
/// one of foreground and background color.
pub open spec fn barcode_colors(fg_hex: Seq<char>, bg_hex: Seq<char>) -> Option<([u8; 4], [u8; 4])> {
    match (hex_color_value(fg_hex), hex_color_value(bg_hex)) {
        (Some((fr, fg, fb)), Some((br, bg, bb))) => Some(([fr, fg, fb, 255u8], [br, bg, bb, 255u8])),
        _ => None,
    }
}

/// The color error of barcode request parameters.
pub open spec fn barcode_color_error(fg_hex: Seq<char>, bg_hex: Seq<char>, e: CoreError) -> bool {
    if hex_color_value(fg_hex) is None {
        e matches CoreError::InvalidHexColor(n) && n@ == hex_color_digits(fg_hex)
    } else {
        e matches CoreError::InvalidHexColor(n) && n@ == hex_color_digits(bg_hex)
    }
}

fn parse_colors(fg_hex: &str, bg_hex: &str) -> (r: Result<([u8; 4], [u8; 4]), CoreError>)
    ensures
        match barcode_colors(fg_hex@, bg_hex@) {
            Some(c) => r matches Ok(c2) && c2 == c,
            None => r matches Err(e) && barcode_color_error(fg_hex@, bg_hex@, e),
        },
{
    let fg = QrOptions::parse_hex_color(fg_hex)?;
    let bg = QrOptions::parse_hex_color(bg_hex)?;
    assert(fg =~= [fg[0], fg[1], fg[2], 255u8]);
    assert(bg =~= [bg[0], bg[1], bg[2], 255u8]);
    Ok((fg, bg))
}

/// The barcode matrix that generation yields, described by its parts.
pub open spec fn is_generated_barcode(
    m: BarcodeMatrix,
    data: &str,
    t: BarcodeType,
    height: u32,
    module_width: u32,
    colors: ([u8; 4], [u8; 4]),
) -> bool {
    &&& barcode_encoding(data, t) matches Ok(bits)
    &&& is_barcode_of(m, bits, left_quiet_zone(t), right_quiet_zone(t), height, module_width, colors.0, colors.1)
}

/// The error of barcode generation with valid colors.
pub open spec fn barcode_generation_error(data: &str, t: BarcodeType, height: u32, module_width: u32, e: CoreError) -> bool {
    if !(20 <= height <= 2000) {
        e == CoreError::InvalidBarcodeHeight
    } else if !(1 <= module_width <= 16) {
        e == CoreError::InvalidBarcodeModuleWidth
    } else {
        barcode_encoding(data, t) matches Err(e2) && e2 == e
    }
}

/// Whether barcode generation succeeds with valid colors.
pub open spec fn barcode_generates(data: &str, t: BarcodeType, height: u32, module_width: u32) -> bool {
    20 <= height <= 2000 && 1 <= module_width <= 16 && barcode_encoding(data, t) is Ok
}

/// Generates a barcode SVG from request parameters, with the image's pixel width.
pub fn generate_barcode_svg(
    data: &str,
    barcode_type: BarcodeType,
    height: u32,
    module_width: u32,
    fg_hex: &str,
    bg_hex: &str,
) -> (r: Result<(String, u32), CoreError>)
    ensures
        match barcode_colors(fg_hex@, bg_hex@) {
            None => r matches Err(e) && barcode_color_error(fg_hex@, bg_hex@, e),
            Some(colors) => if barcode_generates(data, barcode_type, height, module_width) {
                r matches Ok((svg, w)) && exists|m: BarcodeMatrix|
                    is_generated_barcode(m, data, barcode_type, height, module_width, colors)
                        && #[trigger] barcode_svg(m) == svg@ && w == m.total_modules * m.module_width
            } else {
                r matches Err(e) && barcode_generation_error(data, barcode_type, height, module_width, e)
            },
        },
        barcode_colors(fg_hex@, bg_hex@) is Some && 20 <= height <= 2000 && 1 <= module_width <= 16
            && barcode_input_accepted(data, barcode_type) ==> r is Ok,
{
    let (fg, bg) = parse_colors(fg_hex, bg_hex)?;
    let matrix = generate_barcode(data, barcode_type, height, module_width, fg, bg)?;
    let svg = barcode_to_svg(&matrix)?;
    let pixel_width = matrix.pixel_width();
    Ok((svg, pixel_width))
}

/// Generates a barcode PNG from request parameters.
pub fn generate_barcode_png(
    data: &str,
    barcode_type: BarcodeType,
    height: u32,
    module_width: u32,
    fg_hex: &str,
    bg_hex: &str,
) -> (r: Result<Vec<u8>, CoreError>)
    ensures
        match barcode_colors(fg_hex@, bg_hex@) {
            None => r matches Err(e) && barcode_color_error(fg_hex@, bg_hex@, e),
            Some(colors) => if barcode_generates(data, barcode_type, height, module_width) {
                exists|m: BarcodeMatrix|
                    is_generated_barcode(m, data, barcode_type, height, module_width, colors)
                        && match #[trigger] png_encoding(
                            (m.total_modules * m.module_width) as u32,
                            m.height,
                            barcode_raster(m),
                        ) {
                            Ok(png) => r matches Ok(bytes) && bytes@ == png,
                            Err(msg) => r matches Err(CoreError::PngRenderFailed(s)) && s@ == msg,
                        }
            } else {
                r matches Err(e) && barcode_generation_error(data, barcode_type, height, module_width, e)
            },
        },
        barcode_colors(fg_hex@, bg_hex@) is Some && 20 <= height <= 2000 && 1 <= module_width <= 16
            && barcode_input_accepted(data, barcode_type) ==> r is Ok,
        match r {
            Ok(bytes) => is_png_file(bytes@),
            Err(_) => true,
        },
{
    let (fg, bg) = parse_colors(fg_hex, bg_hex)?;
    let matrix = generate_barcode(data, barcode_type, height, module_width, fg, bg)?;
    proof {
        assert(matrix.total_modules * matrix.module_width * matrix.height * 4 <= 23408 * 2000 * 4) by (nonlinear_arith)
            requires
                matrix.total_modules * matrix.module_width <= 23408,
                matrix.height <= 2000,
        ;
        assert(matrix.total_modules * matrix.module_width >= 17) by (nonlinear_arith)
            requires
                matrix.total_modules >= 17,
                matrix.module_width >= 1,
        ;
        assert(png_encodable(matrix.total_modules * matrix.module_width, matrix.height as int));
    }
    barcode_to_png(&matrix)
}

} // verus!
