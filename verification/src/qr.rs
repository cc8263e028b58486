use vstd::prelude::*;

use vstd::string::StringSliceAdditionalSpecFns;

use qrcode::{Color, EcLevel, QrCode};

use crate::error::CoreError;
use crate::text::{
    byte_len, chars_of,
    push_char, str_eq, string_from_chars, to_uppercase, trim, trim_str, uppercase,
};

verus! {

/// QR code error correction level.
#[derive(Debug, Clone, Copy, PartialEq, Eq, Structural)]
pub enum QrEcLevel {
    /// ~7% recovery
    L,
    /// ~15% recovery
    M,
    /// ~25% recovery
    Q,
    /// ~30% recovery
    H,
}

/// The level that a name selects, compared after uppercasing.
pub open spec fn ec_level_named(upper: Seq<char>) -> Option<QrEcLevel> {
    if upper == "L"@ {
        Some(QrEcLevel::L)
    } else if upper == "M"@ {
        Some(QrEcLevel::M)
    } else if upper == "Q"@ {
        Some(QrEcLevel::Q)
    } else if upper == "H"@ {
        Some(QrEcLevel::H)
    } else {
        None
    }
}

impl std::str::FromStr for QrEcLevel {
    type Err = CoreError;

    fn from_str(s: &str) -> (r: Result<Self, Self::Err>)
        ensures
            match ec_level_named(uppercase(s@)) {
                Some(level) => r == Ok::<QrEcLevel, CoreError>(level),
                None => r matches Err(CoreError::InvalidEcLevel(name)) && name@ == uppercase(s@),
            },
    {
        let upper = to_uppercase(s);
        if str_eq(upper.as_str(), "L") {
            Ok(QrEcLevel::L)
        } else if str_eq(upper.as_str(), "M") {
            Ok(QrEcLevel::M)
        } else if str_eq(upper.as_str(), "Q") {
            Ok(QrEcLevel::Q)
        } else if str_eq(upper.as_str(), "H") {
            Ok(QrEcLevel::H)
        } else {
            Err(CoreError::InvalidEcLevel(upper))
        }
    }
}

/// Configuration for QR code generation.
#[derive(Debug, Clone, Copy)]
pub struct QrOptions {
    /// Error correction level.
    pub ec_level: QrEcLevel,
    /// Pixel size per module (1..64).
    pub module_size: u32,
    /// Quiet zone margin in modules (0..16).
    pub margin: u32,
    /// Foreground RGBA color.
    pub fg_color: [u8; 4],
    /// Background RGBA color.
    pub bg_color: [u8; 4],
}

impl Default for QrOptions {
    fn default() -> (r: Self)
        ensures
            r.ec_level == QrEcLevel::M,
            r.module_size == 8,
            r.margin == 4,
            r.fg_color@ == seq![0u8, 0u8, 0u8, 255u8],
            r.bg_color@ == seq![255u8, 255u8, 255u8, 255u8],
    {
        let r = QrOptions {
            ec_level: QrEcLevel::M,
            module_size: 8,
            margin: 4,
            fg_color: [0, 0, 0, 255],
            bg_color: [255, 255, 255, 255],
        };
        assert(r.fg_color@ =~= seq![0u8, 0u8, 0u8, 255u8]);
        assert(r.bg_color@ =~= seq![255u8, 255u8, 255u8, 255u8]);
        r
    }
}

/// The value of an ASCII hexadecimal digit, in either case.
pub open spec fn hex_digit_value(c: char) -> Option<u8> {
    if '0' <= c <= '9' {
        Some((c as u32 - '0' as u32) as u8)
    } else if 'a' <= c <= 'f' {
        Some((c as u32 - 'a' as u32 + 10) as u8)
    } else if 'A' <= c <= 'F' {
        Some((c as u32 - 'A' as u32 + 10) as u8)
    } else {
        None
    }
}

/// The byte that two hexadecimal digits denote, high digit first.
pub open spec fn hex_pair_value(x: char, y: char) -> Option<u8> {
    match (hex_digit_value(x), hex_digit_value(y)) {
        (Some(a), Some(b)) => Some((a * 16 + b) as u8),
        _ => None,
    }
}

/// The color digits of a hex color string: the text after one optional leading `#`.
pub open spec fn hex_color_digits(s: Seq<char>) -> Seq<char> {
    if s.len() > 0 && s[0] == '#' {
        s.drop_first()
    } else {
        s
    }
}

/// The red, green and blue bytes that a hex color string denotes: an optional `#` and then
/// exactly six hexadecimal digits, read in pairs. Any other text denotes no color.
pub open spec fn hex_color_value(s: Seq<char>) -> Option<(u8, u8, u8)> {
    let h = hex_color_digits(s);
    if h.len() != 6 {
        None
    } else {
        match (hex_pair_value(h[0], h[1]), hex_pair_value(h[2], h[3]), hex_pair_value(h[4], h[5])) {
            (Some(r), Some(g), Some(b)) => Some((r, g, b)),
            _ => None,
        }
    }
}

fn hex_digit(c: char) -> (r: Option<u8>)
    ensures
        r == hex_digit_value(c),
{
    if '0' <= c && c <= '9' {
        Some((c as u32 - '0' as u32) as u8)
    } else if 'a' <= c && c <= 'f' {
        Some((c as u32 - 'a' as u32 + 10) as u8)
    } else if 'A' <= c && c <= 'F' {
        Some((c as u32 - 'A' as u32 + 10) as u8)
    } else {
        None
    }
}

fn read_hex_pair(x: char, y: char) -> (r: Option<u8>)
    ensures
        r == hex_pair_value(x, y),
{
    match (hex_digit(x), hex_digit(y)) {
        (Some(a), Some(b)) => Some(a * 16 + b),
        _ => None,
    }
}

impl QrOptions {
    /// Create new options with validation.
    pub fn new(
        ec_level: QrEcLevel,
        module_size: u32,
        margin: u32,
        fg_color: [u8; 4],
        bg_color: [u8; 4],
    ) -> (r: Result<Self, CoreError>)
        ensures
            !(1 <= module_size <= 64) ==> r matches Err(CoreError::InvalidModuleSize),
            1 <= module_size <= 64 && margin > 16 ==> r matches Err(CoreError::InvalidMargin),
            1 <= module_size <= 64 && margin <= 16 ==> r == Ok::<QrOptions, CoreError>(
                QrOptions { ec_level, module_size, margin, fg_color, bg_color },
            ),
    {
        if !(1 <= module_size && module_size <= 64) {
            return Err(CoreError::InvalidModuleSize);
        }
        if margin > 16 {
            return Err(CoreError::InvalidMargin);
        }
        Ok(QrOptions { ec_level, module_size, margin, fg_color, bg_color })
    }

    /// Parse a hex color string like "#FF8800" or "FF8800" into RGBA bytes.
    ///
    /// The text is six hexadecimal digits after an optional single `#`; alpha is always
    /// 255. Any other text is refused with the text after that `#`.
    pub fn parse_hex_color(hex: &str) -> (r: Result<[u8; 4], CoreError>)
        ensures
            match hex_color_value(hex@) {
                Some((red, green, blue)) => r == Ok::<[u8; 4], CoreError>([red, green, blue, 255]),
                None => r matches Err(CoreError::InvalidHexColor(m)) && m@ == hex_color_digits(hex@),
            },
    {
        let chars = chars_of(hex);
        let k: usize = if chars.len() > 0 && chars[0] == '#' { 1 } else { 0 };
        proof {
            assert(hex_color_digits(hex@) =~= hex@.skip(k as int));
        }
        if chars.len() - k != 6 {
            return Err(CoreError::InvalidHexColor(string_from_chars(&chars, k)));
        }
        let r = match read_hex_pair(chars[k], chars[k + 1]) {
            Some(v) => v,
            None => return Err(CoreError::InvalidHexColor(string_from_chars(&chars, k))),
        };
        let g = match read_hex_pair(chars[k + 2], chars[k + 3]) {
            Some(v) => v,
            None => return Err(CoreError::InvalidHexColor(string_from_chars(&chars, k))),
        };
        let b = match read_hex_pair(chars[k + 4], chars[k + 5]) {
            Some(v) => v,
            None => return Err(CoreError::InvalidHexColor(string_from_chars(&chars, k))),
        };
        Ok([r, g, b, 255])
    }
}


/// The uppercase hexadecimal digit for a value below sixteen.
pub open spec fn hex_digit_upper(n: int) -> char {
    if n == 0 { '0' } else if n == 1 { '1' } else if n == 2 { '2' } else if n == 3 { '3' }
    else if n == 4 { '4' } else if n == 5 { '5' } else if n == 6 { '6' } else if n == 7 { '7' }
    else if n == 8 { '8' } else if n == 9 { '9' } else if n == 10 { 'A' } else if n == 11 { 'B' }
    else if n == 12 { 'C' } else if n == 13 { 'D' } else if n == 14 { 'E' } else { 'F' }
}

/// Two uppercase hexadecimal digits of a byte.
pub open spec fn hex_byte(b: u8) -> Seq<char> {
    seq![hex_digit_upper((b / 16) as int), hex_digit_upper((b % 16) as int)]
}

/// `#RRGGBB` for the red, green and blue bytes of a color.
pub open spec fn color_hex(c: [u8; 4]) -> Seq<char> {
    seq!['#'] + hex_byte(c[0]) + hex_byte(c[1]) + hex_byte(c[2])
}

fn hex_digit_char(n: u8) -> (c: char)
    requires
        n < 16,
    ensures
        c == hex_digit_upper(n as int),
{
    match n {
        0 => '0',
        1 => '1',
        2 => '2',
        3 => '3',
        4 => '4',
        5 => '5',
        6 => '6',
        7 => '7',
        8 => '8',
        9 => '9',
        10 => 'A',
        11 => 'B',
        12 => 'C',
        13 => 'D',
        14 => 'E',
        _ => 'F',
    }
}

fn push_hex_byte(s: &mut String, b: u8)
    ensures
        final(s)@ == old(s)@ + hex_byte(b),
{
    push_char(s, hex_digit_char(b / 16));
    push_char(s, hex_digit_char(b % 16));
    assert(final(s)@ =~= old(s)@ + hex_byte(b));
}

impl QrOptions {
    /// Format RGBA as hex string "#RRGGBB".
    pub fn color_to_hex(color: &[u8; 4]) -> (r: String)
        ensures
            r@ == color_hex(*color),
    {
        let mut r = String::new();
        push_char(&mut r, '#');
        push_hex_byte(&mut r, color[0]);
        push_hex_byte(&mut r, color[1]);
        push_hex_byte(&mut r, color[2]);
        assert(r@ =~= color_hex(*color));
        r
    }
}

proof fn lemma_hex_digit_round_trip(n: int)
    requires
        0 <= n < 16,
    ensures
        hex_digit_upper(n) != '#',
        hex_digit_value(hex_digit_upper(n)) == Some(n as u8),
{
}

/// Formatting a color as hex and parsing it back gives the color's red, green and blue
/// bytes.
pub proof fn lemma_hex_color_round_trip(c: [u8; 4])
    ensures
        hex_color_value(color_hex(c)) == Some((c[0], c[1], c[2])),
{
    let s = color_hex(c);
    let t = hex_byte(c[0]) + hex_byte(c[1]) + hex_byte(c[2]);
    assert(s.drop_first() =~= t);
    lemma_hex_digit_round_trip((c[0] / 16) as int);
    lemma_hex_digit_round_trip((c[0] % 16) as int);
    lemma_hex_digit_round_trip((c[1] / 16) as int);
    lemma_hex_digit_round_trip((c[1] % 16) as int);
    lemma_hex_digit_round_trip((c[2] / 16) as int);
    lemma_hex_digit_round_trip((c[2] % 16) as int);
    assert(hex_color_digits(s) == t);
    assert((c[0] / 16) * 16 + c[0] % 16 == c[0]);
    assert((c[1] / 16) * 16 + c[1] % 16 == c[1]);
    assert((c[2] / 16) * 16 + c[2] % 16 == c[2]);
}


/// The QR code module matrix produced by `generate_qr`.
///
/// Each `bool` represents one module: `true` = dark (foreground), `false` = light (background).
#[derive(Debug, Clone)]
pub struct QrMatrix {
    /// Number of modules per side (the QR code is square).
    pub size: u32,
    /// Row-major module data: `modules[row * size + col]`.
    pub modules: Vec<bool>,
    /// The options used to generate this matrix.
    pub options: QrOptions,
}

/// Side length, in modules, of the image: the symbol plus a margin on each side.
pub open spec fn image_modules(size: u32, margin: u32) -> int {
    size + 2 * margin
}

/// Whether the module at (row, col) is dark; modules outside the data are light.
pub open spec fn module_dark(m: QrMatrix, row: int, col: int) -> bool {
    let i = row * m.size + col;
    0 <= i < m.modules@.len() && m.modules@[i]
}

impl QrMatrix {
    /// Get the total pixel width/height of the rendered image.
    pub fn pixel_size(&self) -> (r: u32)
        requires
            image_modules(self.size, self.options.margin) <= u32::MAX,
            image_modules(self.size, self.options.margin) * self.options.module_size <= u32::MAX,
        ensures
            r == image_modules(self.size, self.options.margin) * self.options.module_size,
    {
        let modules = self.size + 2 * self.options.margin;
        modules * self.options.module_size
    }

    /// Check if the module at (row, col) is dark.
    pub fn is_dark(&self, row: u32, col: u32) -> (r: bool)
        ensures
            r == module_dark(*self, row as int, col as int),
    {
        assert(row as u64 * self.size as u64 <= 0xFFFF_FFFE_0000_0001) by (nonlinear_arith)
            requires
                row <= 0xFFFF_FFFF,
                self.size <= 0xFFFF_FFFF,
        ;
        let i = row as u64 * self.size as u64 + col as u64;
        if i < self.modules.len() as u64 {
            self.modules[i as usize]
        } else {
            false
        }
    }
}

/// The QR symbol that the `qrcode` crate builds for data at an error correction level:
/// its width and its row-major dark modules, or nothing when the data does not fit.
pub uninterp spec fn qr_symbol(data: Seq<char>, level: QrEcLevel) -> Option<(nat, Seq<bool>)>;

/// Encodes data with `QrCode::with_error_correction_level` and reads the symbol's width
/// (`width`) and modules (`to_colors`, row-major, dark as `true`).
///
/// Claimed of the crate: the result is a function of the data and the level; a symbol is
/// a normal QR version 1 to 40, so its width is 17 + 4 * version, and it has width * width
/// modules. Data of at most 364 bytes is always accepted: the crate splits the bytes into
/// segments, each costing at most 20 bits of header at version 40 (4 for the mode, at most
/// 16 for the length) and at most 8 bits per byte, so such data needs at most
/// 28 * 364 = 10192 bits, within the 10208 data bits of version 40 at level H, the
/// smallest of the four levels; the crate picks a version as soon as the data fits. Where
/// exactly longer data stops fitting depends on how the crate segments it, which is left
/// unsaid.
#[verifier::external_body]
fn qr_encode(data: &str, level: QrEcLevel) -> (r: Option<(usize, Vec<bool>)>)
    ensures
        match r {
            Some((w, m)) => qr_symbol(data@, level) == Some((w as nat, m@)) && 21 <= w <= 177
                && (w - 17) % 4 == 0 && m@.len() == w * w,
            None => qr_symbol(data@, level) is None,
        },
        data.spec_bytes().len() <= 364 ==> r is Some,
{
    let ec = match level {
        QrEcLevel::L => EcLevel::L,
        QrEcLevel::M => EcLevel::M,
        QrEcLevel::Q => EcLevel::Q,
        QrEcLevel::H => EcLevel::H,
    };
    match QrCode::with_error_correction_level(data, ec) {
        Ok(code) => Some((code.width(), code.to_colors().into_iter().map(|c| c == Color::Dark).collect())),
        Err(_) => None,
    }
}

/// Generate a QR code matrix from arbitrary data.
///
/// # Errors
///
/// Returns `CoreError::EmptyData` if `data` is empty.
pub fn generate_qr(data: &str, options: &QrOptions) -> (r: Result<QrMatrix, CoreError>)
    ensures
        data@.len() == 0 ==> r matches Err(CoreError::EmptyData),
        data@.len() > 0 ==> match qr_symbol(data@, options.ec_level) {
            None => r matches Err(CoreError::InvalidData),
            Some((w, modules)) => r matches Ok(m) && m.size == w && m.modules@ == modules
                && m.options == *options,
        },
        r matches Ok(m) ==> 21 <= m.size <= 177 && (m.size - 17) % 4 == 0
            && m.modules@.len() == m.size * m.size,
        data@.len() > 0 && data.spec_bytes().len() <= 364 ==> r is Ok && qr_symbol(data@, options.ec_level) is Some,
{
    if data.is_empty() {
        return Err(CoreError::EmptyData);
    }
    let (width, dark) = match qr_encode(data, options.ec_level) {
        Some(symbol) => symbol,
        None => return Err(CoreError::InvalidData),
    };
    let size = width as u32;
    let mut modules: Vec<bool> = Vec::new();
    let mut row: u32 = 0;
    while row < size
        invariant
            size == width,
            21 <= width <= 177,
            dark@.len() == width * width,
            row <= size,
            modules@ == dark@.take(row * size),
        decreases size - row,
    {
        let mut col: u32 = 0;
        while col < size
            invariant
                size == width,
                21 <= width <= 177,
                dark@.len() == width * width,
                row < size,
                col <= size,
                modules@ == dark@.take(row * size + col),
            decreases size - col,
        {
            proof {
                assert(row * size + col < size * size) by (nonlinear_arith)
                    requires
                        row < size,
                        col < size,
                ;
                assert(size * size <= 177 * 177) by (nonlinear_arith)
                    requires
                        size <= 177,
                ;
                assert(dark@.take(row * size + col + 1) =~= dark@.take(row * size + col).push(dark@[row * size + col]));
            }
            modules.push(dark[(row * size + col) as usize]);
            col = col + 1;
        }
        proof {
            assert((row + 1) * size == row * size + size) by (nonlinear_arith);
        }
        row = row + 1;
    }
    proof {
        assert(dark@.take(size * size) =~= dark@);
    }
    Ok(QrMatrix { size, modules, options: *options })
}


/// How the Wi-Fi payload writes one character: backslash, semicolon, comma, colon and
/// double quote get a backslash before them.
pub open spec fn wifi_escape_char(c: char) -> Seq<char> {
    if c == '\\' || c == ';' || c == ',' || c == ':' || c == '"' {
        seq!['\\', c]
    } else {
        seq![c]
    }
}

/// How a vCard field writes one character: backslash, semicolon and comma get a
/// backslash before them, and a newline becomes `\n`.
pub open spec fn vcard_escape_char(c: char) -> Seq<char> {
    if c == '\\' || c == ';' || c == ',' {
        seq!['\\', c]
    } else if c == '\n' {
        seq!['\\', 'n']
    } else {
        seq![c]
    }
}

/// Wi-Fi escaping of a text, character by character.
pub open spec fn wifi_escaped(s: Seq<char>) -> Seq<char>
    decreases s.len(),
{
    if s.len() == 0 {
        Seq::empty()
    } else {
        wifi_escaped(s.drop_last()) + wifi_escape_char(s.last())
    }
}

/// vCard escaping of a text, character by character.
pub open spec fn vcard_escaped(s: Seq<char>) -> Seq<char>
    decreases s.len(),
{
    if s.len() == 0 {
        Seq::empty()
    } else {
        vcard_escaped(s.drop_last()) + vcard_escape_char(s.last())
    }
}

fn is_wifi_special(c: char) -> (r: bool)
    ensures
        r == (c == '\\' || c == ';' || c == ',' || c == ':' || c == '"'),
{
    c == '\\' || c == ';' || c == ',' || c == ':' || c == '"'
}

/// Escape special characters for Wi-Fi QR config strings.
pub fn escape_wifi(s: &str) -> (r: String)
    ensures
        r@ == wifi_escaped(s@),
{
    let chars = chars_of(s);
    let mut r = String::new();
    let mut i: usize = 0;
    while i < chars.len()
        invariant
            i <= chars@.len(),
            chars@ == s@,
            r@ == wifi_escaped(chars@.take(i as int)),
        decreases chars@.len() - i,
    {
        let c = chars[i];
        if is_wifi_special(c) {
            push_char(&mut r, '\\');
        }
        push_char(&mut r, c);
        proof {
            assert(chars@.take(i + 1).drop_last() =~= chars@.take(i as int));
            assert(r@ =~= wifi_escaped(chars@.take(i + 1)));
        }
        i = i + 1;
    }
    proof {
        assert(chars@.take(chars@.len() as int) =~= chars@);
    }
    r
}

/// Escape vCard special characters.
pub fn escape_vcard(s: &str) -> (r: String)
    ensures
        r@ == vcard_escaped(s@),
{
    let chars = chars_of(s);
    let mut r = String::new();
    let mut i: usize = 0;
    while i < chars.len()
        invariant
            i <= chars@.len(),
            chars@ == s@,
            r@ == vcard_escaped(chars@.take(i as int)),
        decreases chars@.len() - i,
    {
        let c = chars[i];
        if c == '\\' || c == ';' || c == ',' {
            push_char(&mut r, '\\');
            push_char(&mut r, c);
        } else if c == '\n' {
            push_char(&mut r, '\\');
            push_char(&mut r, 'n');
        } else {
            push_char(&mut r, c);
        }
        proof {
            assert(chars@.take(i + 1).drop_last() =~= chars@.take(i as int));
            assert(r@ =~= vcard_escaped(chars@.take(i + 1)));
        }
        i = i + 1;
    }
    proof {
        assert(chars@.take(chars@.len() as int) =~= chars@);
    }
    r
}

/// The encryption type that the Wi-Fi payload names for an uppercased encryption input.
pub open spec fn wifi_encryption_named(upper: Seq<char>) -> Option<Seq<char>> {
    if upper == "WPA"@ || upper == "WPA2"@ {
        Some("WPA"@)
    } else if upper == "WEP"@ {
        Some("WEP"@)
    } else if upper == "NOPASS"@ || upper == ""@ {
        Some("nopass"@)
    } else {
        None
    }
}

/// The Wi-Fi payload: `WIFI:S:<ssid>;T:nopass;;` for open networks, else
/// `WIFI:T:<type>;S:<ssid>;P:<password>;;`.
pub open spec fn wifi_payload(ssid: Seq<char>, password: Seq<char>, enc: Seq<char>) -> Seq<char> {
    if enc == "nopass"@ {
        "WIFI:S:"@ + wifi_escaped(ssid) + ";T:nopass;;"@
    } else {
        "WIFI:T:"@ + enc + ";S:"@ + wifi_escaped(ssid) + ";P:"@ + wifi_escaped(password) + ";;"@
    }
}

/// The error of a Wi-Fi configuration, in the order the checks are made.
pub open spec fn wifi_rejection(ssid: &str, password: &str, encryption: &str) -> Option<CoreError> {
    if ssid@.len() == 0 || ssid.spec_bytes().len() > 32 {
        Some(CoreError::InvalidWifiSsid)
    } else if password.spec_bytes().len() > 64 {
        Some(CoreError::InvalidWifiPassword)
    } else if wifi_encryption_named(uppercase(encryption@)) is None {
        Some(CoreError::InvalidWifiEncryption)
    } else {
        None
    }
}

/// Build a Wi-Fi network configuration string for QR encoding.
///
/// Format: `WIFI:S:<ssid>;T:<encryption>;P:<password>;;`
///
/// # Errors
///
/// Returns error if SSID is empty or too long, password too long,
/// or encryption type is invalid.
pub fn wifi_qr_config(ssid: &str, password: &str, encryption: &str) -> (r: Result<String, CoreError>)
    ensures
        wifi_rejection(ssid, password, encryption) matches Some(e) ==> (r matches Err(e2) && e2 == e),
        wifi_rejection(ssid, password, encryption) is None ==> (r matches Ok(cfg) && cfg@ == wifi_payload(
            ssid@,
            password@,
            wifi_encryption_named(uppercase(encryption@))->0,
        )),
{
    if ssid.is_empty() || byte_len(ssid) > 32 {
        return Err(CoreError::InvalidWifiSsid);
    }
    if byte_len(password) > 64 {
        return Err(CoreError::InvalidWifiPassword);
    }
    let upper = to_uppercase(encryption);
    let u = upper.as_str();
    let enc = if str_eq(u, "WPA") || str_eq(u, "WPA2") {
        "WPA"
    } else if str_eq(u, "WEP") {
        "WEP"
    } else if str_eq(u, "NOPASS") || str_eq(u, "") {
        "nopass"
    } else {
        return Err(CoreError::InvalidWifiEncryption);
    };
    let escaped_ssid = escape_wifi(ssid);
    let escaped_pw = escape_wifi(password);
    if str_eq(enc, "nopass") {
        let mut r = String::from_str("WIFI:S:");
        r.append(escaped_ssid.as_str());
        r.append(";T:nopass;;");
        Ok(r)
    } else {
        let mut r = String::from_str("WIFI:T:");
        r.append(enc);
        r.append(";S:");
        r.append(escaped_ssid.as_str());
        r.append(";P:");
        r.append(escaped_pw.as_str());
        r.append(";;");
        Ok(r)
    }
}

/// The vCard 3.0 payload for trimmed fields; empty optional fields are left out.
pub open spec fn vcard_payload(name: Seq<char>, phone: Seq<char>, email: Seq<char>, org: Seq<char>) -> Seq<char> {
    "BEGIN:VCARD\nVERSION:3.0\n"@ + "FN:"@ + vcard_escaped(name) + "\n"@
        + (if phone.len() > 0 { "TEL:"@ + vcard_escaped(phone) + "\n"@ } else { Seq::empty() })
        + (if email.len() > 0 { "EMAIL:"@ + vcard_escaped(email) + "\n"@ } else { Seq::empty() })
        + (if org.len() > 0 { "ORG:"@ + vcard_escaped(org) + "\n"@ } else { Seq::empty() })
        + "END:VCARD"@
}

fn push_vcard_field(vcard: &mut String, tag: &str, value: &str)
    ensures
        final(vcard)@ == old(vcard)@ + (if value@.len() > 0 {
            tag@ + vcard_escaped(value@) + "\n"@
        } else {
            Seq::empty()
        }),
{
    if !value.is_empty() {
        vcard.append(tag);
        let escaped = escape_vcard(value);
        vcard.append(escaped.as_str());
        vcard.append("\n");
    }
    assert(final(vcard)@ =~= old(vcard)@ + (if value@.len() > 0 {
        tag@ + vcard_escaped(value@) + "\n"@
    } else {
        Seq::empty()
    }));
}

/// Build a vCard 3.0 string for QR encoding.
///
/// # Errors
///
/// Returns error if `name` is empty.
pub fn vcard_qr_config(name: &str, phone: &str, email: &str, org: &str) -> (r: Result<String, CoreError>)
    ensures
        trim(name@).len() == 0 ==> r matches Err(CoreError::MissingVcardName),
        trim(name@).len() > 0 ==> (r matches Ok(v) && v@ == vcard_payload(
            trim(name@),
            trim(phone@),
            trim(email@),
            trim(org@),
        )),
{
    let name = trim_str(name);
    if name.is_empty() {
        return Err(CoreError::MissingVcardName);
    }
    let mut vcard = String::from_str("BEGIN:VCARD\nVERSION:3.0\n");
    vcard.append("FN:");
    let escaped_name = escape_vcard(name);
    vcard.append(escaped_name.as_str());
    vcard.append("\n");
    push_vcard_field(&mut vcard, "TEL:", trim_str(phone));
    push_vcard_field(&mut vcard, "EMAIL:", trim_str(email));
    push_vcard_field(&mut vcard, "ORG:", trim_str(org));
    vcard.append("END:VCARD");
    Ok(vcard)
}


proof fn lemma_wifi_escaped_concat(a: Seq<char>, b: Seq<char>)
    ensures
        wifi_escaped(a + b) == wifi_escaped(a) + wifi_escaped(b),
    decreases b.len(),
{
    if b.len() == 0 {
        assert(a + b =~= a);
        assert(wifi_escaped(a) + wifi_escaped(b) =~= wifi_escaped(a));
    } else {
        lemma_wifi_escaped_concat(a, b.drop_last());
        assert((a + b).drop_last() =~= a + b.drop_last());
        assert((a + b).last() == b.last());
    }
}

/// The text that a reader of a Wi-Fi payload takes as one field value: everything up to
/// the first `;` that is not escaped, a backslash and the character after it being read
/// together.
pub open spec fn wifi_field_text(t: Seq<char>) -> Seq<char>
    decreases t.len(),
{
    if t.len() == 0 || t[0] == ';' {
        Seq::empty()
    } else if t[0] == '\\' && t.len() >= 2 {
        t.take(2) + wifi_field_text(t.skip(2))
    } else {
        seq![t[0]] + wifi_field_text(t.skip(1))
    }
}

/// The value that a reader takes from escaped field text: each backslash dropped and the
/// character after it kept as it is.
pub open spec fn wifi_unescape(t: Seq<char>) -> Seq<char>
    decreases t.len(),
{
    if t.len() == 0 {
        Seq::empty()
    } else if t[0] == '\\' && t.len() >= 2 {
        seq![t[1]] + wifi_unescape(t.skip(2))
    } else {
        seq![t[0]] + wifi_unescape(t.skip(1))
    }
}

/// Escaped text, followed by `;`, is read back as one field whose value is the text.
pub proof fn lemma_wifi_escape_reads_back(s: Seq<char>, rest: Seq<char>)
    ensures
        wifi_field_text(wifi_escaped(s) + ";"@ + rest) == wifi_escaped(s),
        wifi_unescape(wifi_escaped(s)) == s,
    decreases s.len(),
{
    reveal_strlit(";");
    if s.len() == 0 {
        assert(wifi_escaped(s) =~= Seq::<char>::empty());
        assert(wifi_escaped(s) + ";"@ + rest =~= seq![';'] + rest);
    } else {
        let c = s[0];
        let t = s.drop_first();
        lemma_wifi_escaped_concat(seq![c], t);
        assert(seq![c] + t =~= s);
        assert(seq![c].drop_last() =~= Seq::<char>::empty());
        assert(wifi_escaped(seq![c].drop_last()) =~= Seq::<char>::empty());
        assert(wifi_escaped(seq![c]) =~= wifi_escape_char(c));
        lemma_wifi_escape_reads_back(t, rest);
        let e = wifi_escape_char(c);
        let whole = wifi_escaped(s) + ";"@ + rest;
        if c == '\\' || c == ';' || c == ',' || c == ':' || c == '"' {
            assert(whole.skip(2) =~= wifi_escaped(t) + ";"@ + rest);
            assert(whole.take(2) =~= e);
            assert(wifi_escaped(s).skip(2) =~= wifi_escaped(t));
        } else {
            assert(whole.skip(1) =~= wifi_escaped(t) + ";"@ + rest);
            assert(wifi_escaped(s).skip(1) =~= wifi_escaped(t));
        }
        assert(wifi_field_text(whole) =~= wifi_escaped(s));
        assert(wifi_unescape(wifi_escaped(s)) =~= s);
    }
}

/// In every Wi-Fi payload, open networks included, the SSID follows `S:` right after the
/// payload's fixed head, and a reader takes from it exactly the SSID; on secured networks
/// the password likewise follows `P:` and reads back as the password.
pub proof fn lemma_wifi_fields_read_back(ssid: Seq<char>, password: Seq<char>, enc: Seq<char>)
    ensures
        exists|pre: Seq<char>, post: Seq<char>|
            #![trigger wifi_field_text(post), pre.len()]
            wifi_payload(ssid, password, enc) == pre + "S:"@ + post && (pre == "WIFI:"@ || pre == "WIFI:T:"@ + enc
                + ";"@) && wifi_unescape(wifi_field_text(post)) == ssid,
        enc != "nopass"@ ==> exists|pre: Seq<char>, post: Seq<char>|
            #![trigger wifi_field_text(post), pre.len()]
            wifi_payload(ssid, password, enc) == pre + ";P:"@ + post && wifi_unescape(wifi_field_text(post))
                == password,
{
    reveal_strlit(";T:nopass;;");
    reveal_strlit(";;");
    reveal_strlit(";");
    reveal_strlit(";P:");
    reveal_strlit(";S:");
    reveal_strlit("S:");
    reveal_strlit("WIFI:S:");
    reveal_strlit("WIFI:T:");
    reveal_strlit("WIFI:");
    reveal_strlit("P:");
    if enc == "nopass"@ {
        let post = wifi_escaped(ssid) + ";T:nopass;;"@;
        assert(";T:nopass;;"@ =~= ";"@ + "T:nopass;;"@) by {
            reveal_strlit("T:nopass;;");
        }
        assert(post =~= wifi_escaped(ssid) + ";"@ + "T:nopass;;"@);
        lemma_wifi_escape_reads_back(ssid, "T:nopass;;"@);
        assert(wifi_payload(ssid, password, enc) =~= "WIFI:"@ + "S:"@ + post);
        assert(wifi_unescape(wifi_field_text(post)) == ssid);
        assert("WIFI:"@.len() == 5);
    } else {
        let pre = "WIFI:T:"@ + enc + ";"@;
        let post = wifi_escaped(ssid) + ";P:"@ + wifi_escaped(password) + ";;"@;
        assert(post =~= wifi_escaped(ssid) + ";"@ + ("P:"@ + wifi_escaped(password) + ";;"@));
        lemma_wifi_escape_reads_back(ssid, "P:"@ + wifi_escaped(password) + ";;"@);
        assert(wifi_payload(ssid, password, enc) =~= pre + "S:"@ + post);
        assert(wifi_unescape(wifi_field_text(post)) == ssid);
        assert(pre.len() == pre.len());
        let pre2 = "WIFI:T:"@ + enc + ";S:"@ + wifi_escaped(ssid);
        let post2 = wifi_escaped(password) + ";;"@;
        assert(";;"@ =~= ";"@ + ";"@);
        assert(post2 =~= wifi_escaped(password) + ";"@ + ";"@);
        lemma_wifi_escape_reads_back(password, ";"@);
        assert(wifi_payload(ssid, password, enc) =~= pre2 + ";P:"@ + post2);
        assert(wifi_unescape(wifi_field_text(post2)) == password);
        assert(pre2.len() == pre2.len());
    }
}

/// Lines joined by newlines, the last one without a newline after it.
pub open spec fn join_lines(lines: Seq<Seq<char>>) -> Seq<char>
    decreases lines.len(),
{
    if lines.len() == 0 {
        Seq::empty()
    } else if lines.len() == 1 {
        lines[0]
    } else {
        lines[0] + "\n"@ + join_lines(lines.drop_first())
    }
}

/// Each line followed by a newline.
spec fn terminated(lines: Seq<Seq<char>>) -> Seq<char>
    decreases lines.len(),
{
    if lines.len() == 0 {
        Seq::empty()
    } else {
        lines[0] + "\n"@ + terminated(lines.drop_first())
    }
}

proof fn lemma_join_after(front: Seq<Seq<char>>, rest: Seq<Seq<char>>)
    requires
        rest.len() > 0,
    ensures
        join_lines(front + rest) == terminated(front) + join_lines(rest),
    decreases front.len(),
{
    if front.len() == 0 {
        assert(front + rest =~= rest);
        assert(terminated(front) + join_lines(rest) =~= join_lines(rest));
    } else {
        lemma_join_after(front.drop_first(), rest);
        assert((front + rest).drop_first() =~= front.drop_first() + rest);
        assert((front + rest)[0] == front[0]);
        assert(join_lines(front + rest) =~= terminated(front) + join_lines(rest));
    }
}

proof fn lemma_terminated_concat(a: Seq<Seq<char>>, b: Seq<Seq<char>>)
    ensures
        terminated(a + b) == terminated(a) + terminated(b),
    decreases a.len(),
{
    if a.len() == 0 {
        assert(a + b =~= b);
        assert(terminated(a) + terminated(b) =~= terminated(b));
    } else {
        lemma_terminated_concat(a.drop_first(), b);
        assert((a + b).drop_first() =~= a.drop_first() + b);
        assert((a + b)[0] == a[0]);
        assert(terminated(a + b) =~= terminated(a) + terminated(b));
    }
}

proof fn lemma_terminated_one(x: Seq<char>)
    ensures
        terminated(seq![x]) == x + "\n"@,
{
    assert(seq![x].drop_first() =~= Seq::<Seq<char>>::empty());
    assert(terminated(seq![x].drop_first()) =~= Seq::<char>::empty());
    assert(terminated(seq![x]) =~= x + "\n"@);
}

/// vCard escaping leaves no newline in a field value.
pub proof fn lemma_vcard_escaped_one_line(s: Seq<char>)
    ensures
        !vcard_escaped(s).contains('\n'),
    decreases s.len(),
{
    if s.len() > 0 {
        lemma_vcard_escaped_one_line(s.drop_last());
        let e = vcard_escape_char(s.last());
        assert(!e.contains('\n'));
        let whole = vcard_escaped(s.drop_last()) + e;
        assert forall|i: int| 0 <= i < whole.len() implies whole[i] != '\n' by {
            if i < vcard_escaped(s.drop_last()).len() {
                assert(whole[i] == vcard_escaped(s.drop_last())[i]);
            } else {
                assert(whole[i] == e[i - vcard_escaped(s.drop_last()).len()]);
            }
        }
    }
}

/// Every field of the vCard is a line of its own: the payload is exactly the lines
/// `BEGIN:VCARD`, `VERSION:3.0`, `FN:` with the name, then `TEL:`, `EMAIL:` and `ORG:` with
/// each non-empty value, then `END:VCARD`, joined by newlines, and no line holds a newline.
pub proof fn lemma_vcard_lines(name: Seq<char>, phone: Seq<char>, email: Seq<char>, org: Seq<char>)
    ensures
        ({
            let lines = seq!["BEGIN:VCARD"@, "VERSION:3.0"@, "FN:"@ + vcard_escaped(name)]
                + (if phone.len() > 0 { seq!["TEL:"@ + vcard_escaped(phone)] } else { Seq::empty() })
                + (if email.len() > 0 { seq!["EMAIL:"@ + vcard_escaped(email)] } else { Seq::empty() })
                + (if org.len() > 0 { seq!["ORG:"@ + vcard_escaped(org)] } else { Seq::empty() })
                + seq!["END:VCARD"@];
            &&& vcard_payload(name, phone, email, org) == join_lines(lines)
            &&& forall|i: int| 0 <= i < lines.len() ==> !(#[trigger] lines[i]).contains('\n')
        }),
{
    reveal_strlit("BEGIN:VCARD");
    reveal_strlit("VERSION:3.0");
    reveal_strlit("BEGIN:VCARD\nVERSION:3.0\n");
    reveal_strlit("FN:");
    reveal_strlit("TEL:");
    reveal_strlit("EMAIL:");
    reveal_strlit("ORG:");
    reveal_strlit("END:VCARD");
    reveal_strlit("\n");
    let head: Seq<Seq<char>> = seq!["BEGIN:VCARD"@, "VERSION:3.0"@, "FN:"@ + vcard_escaped(name)];
    let tel: Seq<Seq<char>> = if phone.len() > 0 { seq!["TEL:"@ + vcard_escaped(phone)] } else { Seq::empty() };
    let mail: Seq<Seq<char>> = if email.len() > 0 { seq!["EMAIL:"@ + vcard_escaped(email)] } else { Seq::empty() };
    let orgl: Seq<Seq<char>> = if org.len() > 0 { seq!["ORG:"@ + vcard_escaped(org)] } else { Seq::empty() };
    let end: Seq<Seq<char>> = seq!["END:VCARD"@];
    let lines = head + tel + mail + orgl + end;
    lemma_join_after(head + tel + mail + orgl, end);
    assert(join_lines(end) == "END:VCARD"@);
    lemma_terminated_concat(head + tel + mail, orgl);
    lemma_terminated_concat(head + tel, mail);
    lemma_terminated_concat(head, tel);
    lemma_terminated_concat(seq!["BEGIN:VCARD"@, "VERSION:3.0"@], seq!["FN:"@ + vcard_escaped(name)]);
    lemma_terminated_concat(seq!["BEGIN:VCARD"@], seq!["VERSION:3.0"@]);
    assert(seq!["BEGIN:VCARD"@] + seq!["VERSION:3.0"@] =~= seq!["BEGIN:VCARD"@, "VERSION:3.0"@]);
    assert(seq!["BEGIN:VCARD"@, "VERSION:3.0"@] + seq!["FN:"@ + vcard_escaped(name)] =~= head);
    lemma_terminated_one("BEGIN:VCARD"@);
    lemma_terminated_one("VERSION:3.0"@);
    lemma_terminated_one("FN:"@ + vcard_escaped(name));
    if phone.len() > 0 {
        lemma_terminated_one("TEL:"@ + vcard_escaped(phone));
    } else {
        assert(terminated(tel) =~= Seq::<char>::empty());
    }
    if email.len() > 0 {
        lemma_terminated_one("EMAIL:"@ + vcard_escaped(email));
    } else {
        assert(terminated(mail) =~= Seq::<char>::empty());
    }
    if org.len() > 0 {
        lemma_terminated_one("ORG:"@ + vcard_escaped(org));
    } else {
        assert(terminated(orgl) =~= Seq::<char>::empty());
    }
    assert(vcard_payload(name, phone, email, org) =~= join_lines(lines));
    lemma_vcard_escaped_one_line(name);
    lemma_vcard_escaped_one_line(phone);
    lemma_vcard_escaped_one_line(email);
    lemma_vcard_escaped_one_line(org);
    assert forall|i: int| 0 <= i < lines.len() implies !(#[trigger] lines[i]).contains('\n') by {
        let l = lines[i];
        assert forall|j: int| 0 <= j < l.len() implies l[j] != '\n' by {
            if l == "FN:"@ + vcard_escaped(name) && j >= 3 {
                assert(l[j] == vcard_escaped(name)[j - 3]);
            } else if l == "TEL:"@ + vcard_escaped(phone) && j >= 4 {
                assert(l[j] == vcard_escaped(phone)[j - 4]);
            } else if l == "EMAIL:"@ + vcard_escaped(email) && j >= 6 {
                assert(l[j] == vcard_escaped(email)[j - 6]);
            } else if l == "ORG:"@ + vcard_escaped(org) && j >= 4 {
                assert(l[j] == vcard_escaped(org)[j - 4]);
            }
        }
    }
}

} // verus!
