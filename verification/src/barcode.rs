use vstd::prelude::*;

use vstd::string::StringSliceAdditionalSpecFns;

use barcoders::sym::code128::Code128;
use barcoders::sym::ean13::EAN13;

use crate::error::CoreError;
use crate::text::{byte_len, chars_of, lemma_ascii_byte_len, lemma_char_count_le_byte_len, push_char};

verus! {

/// Supported barcode symbologies.
#[derive(Debug, Clone, Copy, PartialEq, Eq, Structural)]
pub enum BarcodeType {
    /// Code 128 using subset B or C.
    Code128,
    /// EAN-13 with a 12-digit input and an automatically calculated check digit.
    Ean13,
}

/// The modules that a sequence of `(width, is_dark)` bars covers, from left to right.
pub open spec fn expand_bars(bars: Seq<(u32, bool)>) -> Seq<bool>
    decreases bars.len(),
{
    if bars.len() == 0 {
        Seq::empty()
    } else {
        expand_bars(bars.drop_last()) + Seq::new(bars.last().0 as nat, |_i: int| bars.last().1)
    }
}

/// Sum of the bar widths.
pub open spec fn total_width(bars: Seq<(u32, bool)>) -> nat
    decreases bars.len(),
{
    if bars.len() == 0 {
        0
    } else {
        total_width(bars.drop_last()) + bars.last().0 as nat
    }
}

/// A run-length encoding: every bar is at least one module wide and neighbouring bars
/// have different colors.
pub open spec fn is_run_encoding(bars: Seq<(u32, bool)>) -> bool {
    &&& forall|i: int| 0 <= i < bars.len() ==> #[trigger] bars[i].0 >= 1
    &&& forall|i: int| 0 <= i < bars.len() - 1 ==> #[trigger] bars[i].1 != bars[i + 1].1
}

/// The dark/light reading of encoder output: exactly the bit value 1 is a bar.
pub open spec fn dark_flags(bits: Seq<u8>) -> Seq<bool> {
    Seq::new(bits.len(), |i: int| bits[i] == 1)
}

/// What `bits_to_bars` produces: the left quiet zone, the run-length encoding of the
/// bits, and the right quiet zone.
pub open spec fn is_bar_layout(bars: Seq<(u32, bool)>, bits: Seq<u8>, left: u32, right: u32) -> bool {
    &&& bars.len() >= 2
    &&& bars[0] == (left, false)
    &&& bars.last() == (right, false)
    &&& is_run_encoding(bars.subrange(1, bars.len() - 1))
    &&& expand_bars(bars.subrange(1, bars.len() - 1)) == dark_flags(bits)
}

/// The number of modules covered equals the total bar width.
pub proof fn lemma_expand_len(bars: Seq<(u32, bool)>)
    ensures
        expand_bars(bars).len() == total_width(bars),
    decreases bars.len(),
{
    if bars.len() > 0 {
        lemma_expand_len(bars.drop_last());
    }
}

proof fn lemma_expand_push(bars: Seq<(u32, bool)>, b: (u32, bool))
    ensures
        expand_bars(bars.push(b)) == expand_bars(bars) + Seq::new(b.0 as nat, |_i: int| b.1),
{
    assert(bars.push(b).drop_last() =~= bars);
}

/// No stretch of equal modules is longer than `u32::MAX`: among any `u32::MAX + 1`
/// consecutive modules the color changes somewhere, so every run width fits a `u32`.
pub open spec fn runs_fit_u32(bits: Seq<u8>) -> bool {
    forall|i: int| 0 <= i && i + u32::MAX < bits.len() ==> #[trigger] changes_after(dark_flags(bits), i)
}

/// The color changes at some module among the `u32::MAX` that follow module `i`.
pub open spec fn changes_after(d: Seq<bool>, i: int) -> bool {
    exists|k: int| i < k <= i + u32::MAX && #[trigger] d[k] != d[k - 1]
}

/// Converts encoder bits into bars: a light left quiet zone, one bar per maximal run of
/// equal modules, and a light right quiet zone.
pub fn bits_to_bars(bits: &[u8], left_quiet_zone: u32, right_quiet_zone: u32) -> (bars: Vec<(u32, bool)>)
    requires
        runs_fit_u32(bits@),
    ensures
        is_bar_layout(bars@, bits@, left_quiet_zone, right_quiet_zone),
{
    let mut bars: Vec<(u32, bool)> = Vec::new();
    bars.push((left_quiet_zone, false));
    let n = bits.len();
    if n > 0 {
        let mut is_dark = bits[0] == 1;
        let mut width: u32 = 1;
        let mut i: usize = 1;
        proof {
            lemma_expand_push(Seq::empty(), (width, is_dark));
            assert(bars@.skip(1).push((width, is_dark)) =~= seq![(width, is_dark)]);
            assert(Seq::<(u32, bool)>::empty().push((1u32, is_dark)) =~= seq![(1u32, is_dark)]);
            assert(expand_bars(seq![(width, is_dark)]) =~= dark_flags(bits@).take(1));
        }
        while i < n
            invariant
                n == bits@.len(),
                runs_fit_u32(bits@),
                1 <= i <= n,
                1 <= width <= i,
                forall|k: int| i - width <= k < i ==> #[trigger] dark_flags(bits@)[k] == is_dark,
                bars@.len() >= 1,
                bars@[0] == (left_quiet_zone, false),
                is_dark == (bits@[i - 1] == 1),
                is_run_encoding(bars@.skip(1).push((width, is_dark))),
                expand_bars(bars@.skip(1).push((width, is_dark))) == dark_flags(bits@).take(i as int),
            decreases n - i,
        {
            let next_is_dark = bits[i] == 1;
            let ghost prev = bars@.skip(1);
            let ghost w0 = width;
            proof {
                lemma_expand_push(prev, (w0, is_dark));
                assert(dark_flags(bits@).take(i + 1) =~= dark_flags(bits@).take(i as int).push(next_is_dark));
            }
            if next_is_dark == is_dark {
                proof {
                    if width == u32::MAX {
                        let d = dark_flags(bits@);
                        let s = i - width;
                        assert(s + u32::MAX < d.len());
                        assert(changes_after(d, s));
                        let k = choose|k: int| s < k <= s + u32::MAX && #[trigger] d[k] != d[k - 1];
                        assert(d[k] == is_dark);
                        assert(d[k - 1] == is_dark);
                    }
                }
                width = width + 1;
                proof {
                    lemma_expand_push(prev, (width, is_dark));
                    assert(Seq::new(width as nat, |_j: int| is_dark) =~= Seq::new(w0 as nat, |_j: int| is_dark).push(is_dark));
                    assert(expand_bars(prev.push((width, is_dark))) =~= dark_flags(bits@).take(i + 1));
                    let s0 = prev.push((w0, is_dark));
                    let s1 = prev.push((width, is_dark));
                    assert forall|j: int| 0 <= j < s1.len() - 1 implies #[trigger] s1[j].1 != s1[j + 1].1 by {
                        assert(s0[j].1 != s0[j + 1].1);
                    }
                    assert forall|j: int| 0 <= j < s1.len() implies #[trigger] s1[j].0 >= 1 by {
                        if j < s1.len() - 1 {
                            assert(s0[j].0 >= 1);
                        }
                    }
                }
            } else {
                bars.push((width, is_dark));
                proof {
                    assert(bars@.skip(1) =~= prev.push((w0, is_dark)));
                    lemma_expand_push(prev.push((w0, is_dark)), (1u32, next_is_dark));
                    assert(Seq::new(1nat, |_j: int| next_is_dark) =~= seq![next_is_dark]);
                    assert(expand_bars(bars@.skip(1).push((1u32, next_is_dark))) =~= dark_flags(bits@).take(i + 1));
                    let s0 = prev.push((w0, is_dark));
                    let s1 = s0.push((1u32, next_is_dark));
                    assert forall|j: int| 0 <= j < s1.len() - 1 implies #[trigger] s1[j].1 != s1[j + 1].1 by {
                        if j < s0.len() - 1 {
                            assert(s0[j].1 != s0[j + 1].1);
                        }
                    }
                    assert forall|j: int| 0 <= j < s1.len() implies #[trigger] s1[j].0 >= 1 by {
                        if j < s0.len() {
                            assert(s0[j].0 >= 1);
                        }
                    }
                }
                is_dark = next_is_dark;
                width = 1;
            }
            i = i + 1;
        }
        let ghost body = bars@.skip(1).push((width, is_dark));
        bars.push((width, is_dark));
        bars.push((right_quiet_zone, false));
        proof {
            assert(dark_flags(bits@).take(n as int) =~= dark_flags(bits@));
            assert(bars@.subrange(1, bars@.len() - 1) =~= body);
        }
    } else {
        bars.push((right_quiet_zone, false));
        proof {
            assert(bars@.subrange(1, bars@.len() - 1) =~= Seq::<(u32, bool)>::empty());
            assert(dark_flags(bits@) =~= Seq::<bool>::empty());
        }
    }
    bars
}


proof fn lemma_expand_last(bars: Seq<(u32, bool)>)
    requires
        bars.len() > 0,
        bars.last().0 >= 1,
    ensures
        expand_bars(bars).len() > 0,
        expand_bars(bars).last() == bars.last().1,
{
    lemma_expand_push(bars.drop_last(), bars.last());
    assert(bars.drop_last().push(bars.last()) =~= bars);
}

/// Run-length encoding is canonical: two run encodings that cover the same modules are
/// the same sequence of bars. Together with the contract of `bits_to_bars`, this fixes its
/// result completely.
pub proof fn lemma_run_encoding_unique(a: Seq<(u32, bool)>, b: Seq<(u32, bool)>)
    requires
        is_run_encoding(a),
        is_run_encoding(b),
        expand_bars(a) == expand_bars(b),
    ensures
        a == b,
    decreases a.len() + b.len(),
{
    lemma_expand_len(a);
    lemma_expand_len(b);
    if a.len() == 0 || b.len() == 0 {
        if a.len() > 0 {
            lemma_expand_last(a);
        }
        if b.len() > 0 {
            lemma_expand_last(b);
        }
        assert(a =~= b);
    } else {
        let (wa, ca) = a.last();
        let (wb, cb) = b.last();
        assert(a[a.len() - 1].0 >= 1);
        assert(b[b.len() - 1].0 >= 1);
        lemma_expand_last(a);
        lemma_expand_last(b);
        let pa = a.drop_last();
        let pb = b.drop_last();
        lemma_expand_push(pa, a.last());
        lemma_expand_push(pb, b.last());
        assert(pa.push(a.last()) =~= a);
        assert(pb.push(b.last()) =~= b);
        lemma_expand_len(pa);
        lemma_expand_len(pb);
        let e = expand_bars(a);
        assert(ca == cb);
        if wa < wb {
            if pa.len() > 0 {
                assert(pa.last() == a[a.len() - 2]);
                assert(a[a.len() - 2].1 != a[a.len() - 1].1);
                assert(a[a.len() - 2].0 >= 1);
                lemma_expand_last(pa);
                let k = expand_bars(pa).len() - 1;
                assert(e[k] == expand_bars(pa).last());
                assert(e[k] == expand_bars(b)[k]);
                assert(k >= expand_bars(pb).len());
            } else {
                assert(e.len() == wa);
            }
            assert(false);
        }
        if wb < wa {
            if pb.len() > 0 {
                assert(pb.last() == b[b.len() - 2]);
                assert(b[b.len() - 2].1 != b[b.len() - 1].1);
                assert(b[b.len() - 2].0 >= 1);
                lemma_expand_last(pb);
                let k = expand_bars(pb).len() - 1;
                assert(expand_bars(b)[k] == expand_bars(pb).last());
                assert(e[k] == expand_bars(b)[k]);
                assert(k >= expand_bars(pa).len());
            } else {
                assert(expand_bars(b).len() == wb);
            }
            assert(false);
        }
        assert(expand_bars(pa) =~= e.subrange(0, expand_bars(pa).len() as int));
        assert(expand_bars(pb) =~= e.subrange(0, expand_bars(pb).len() as int));
        assert forall|i: int| 0 <= i < pa.len() implies #[trigger] pa[i].0 >= 1 by {
            assert(a[i].0 >= 1);
        }
        assert forall|i: int| 0 <= i < pa.len() - 1 implies #[trigger] pa[i].1 != pa[i + 1].1 by {
            assert(a[i].1 != a[i + 1].1);
        }
        assert forall|i: int| 0 <= i < pb.len() implies #[trigger] pb[i].0 >= 1 by {
            assert(b[i].0 >= 1);
        }
        assert forall|i: int| 0 <= i < pb.len() - 1 implies #[trigger] pb[i].1 != pb[i + 1].1 by {
            assert(b[i].1 != b[i + 1].1);
        }
        lemma_run_encoding_unique(pa, pb);
    }
}


const CODE128_QUIET_ZONE: u32 = 10;
const EAN13_LEFT_QUIET_ZONE: u32 = 11;
const EAN13_RIGHT_QUIET_ZONE: u32 = 7;
const MAX_CODE128_BYTES: usize = 128;

/// A rendered barcode represented as alternating bar widths.
#[derive(Debug, Clone)]
pub struct BarcodeMatrix {
    /// Sequence of `(width_in_modules, is_dark)` pairs, including quiet zones.
    pub bars: Vec<(u32, bool)>,
    /// Total width in modules, including quiet zones.
    pub total_modules: u32,
    /// Barcode height in pixels.
    pub height: u32,
    /// Width per module in pixels.
    pub module_width: u32,
    /// Foreground RGBA color.
    pub fg_color: [u8; 4],
    /// Background RGBA color.
    pub bg_color: [u8; 4],
}

impl BarcodeMatrix {
    /// Returns the total pixel width of the barcode.
    pub fn pixel_width(&self) -> (r: u32)
        requires
            self.total_modules * self.module_width <= u32::MAX,
        ensures
            r == self.total_modules * self.module_width,
    {
        self.total_modules * self.module_width
    }
}

/// What the `barcoders` Code 128 encoder yields for a payload: the module bits of the
/// symbol, or nothing when it rejects the payload.
pub uninterp spec fn code128_encoding(payload: Seq<char>) -> Option<Seq<u8>>;

/// What the `barcoders` EAN-13 encoder yields for its input: the module bits of the symbol,
/// or nothing when it rejects the input.
pub uninterp spec fn ean13_encoding(data: Seq<char>) -> Option<Seq<u8>>;

/// Every bit is 0 or 1.
pub open spec fn is_binary(bits: Seq<u8>) -> bool {
    forall|i: int| 0 <= i < bits.len() ==> #[trigger] bits[i] <= 1
}

pub open spec fn is_printable_ascii(s: Seq<char>) -> bool {
    forall|i: int| 0 <= i < s.len() ==> ' ' <= #[trigger] s[i] <= '~'
}

pub open spec fn is_ascii_digits(s: Seq<char>) -> bool {
    forall|i: int| 0 <= i < s.len() ==> '0' <= #[trigger] s[i] <= '9'
}

/// The selector for Code 128 character set B.
pub open spec fn start_b() -> char {
    '\u{0181}'
}

/// The selector for Code 128 character set C.
pub open spec fn start_c() -> char {
    '\u{0106}'
}

/// Payloads that `barcoders` encodes without error: a set-B selector followed by
/// printable ASCII, or a set-C selector followed by an even number of ASCII digits.
pub open spec fn code128_accepted(payload: Seq<char>) -> bool {
    &&& payload.len() >= 1
    &&& {
        ||| payload[0] == start_b() && is_printable_ascii(payload.skip(1))
        ||| payload[0] == start_c() && is_ascii_digits(payload.skip(1)) && payload.skip(1).len() % 2 == 0
    }
}

/// The number of symbol units `barcoders` makes of an accepted payload: the start unit,
/// then one unit per character in set B or one per digit pair in set C.
pub open spec fn code128_unit_count(payload: Seq<char>) -> int {
    if payload[0] == start_c() {
        1 + (payload.len() - 1) / 2
    } else {
        payload.len() as int
    }
}

/// Encodes a Code 128 payload with `barcoders` (`Code128::new`, then `encode` on the
/// symbol it returns).
///
/// Claimed of the crate: the result is a function of the payload alone; payloads that
/// start with a set-B selector followed by printable ASCII, or with a set-C selector
/// followed by an even number of digits, are accepted; the bits are 0 or 1: eleven per
/// symbol unit (at least the start unit, at most one unit per payload character), then
/// eleven for the checksum, eleven for stop and two for termination, so 24 after the units;
/// every unit pattern starts with a 1 and the termination is `1, 1`. For accepted payloads
/// the unit count is that of `code128_unit_count`. The payload is kept to 129 characters:
/// the crate sums the weighted checksum in an `i32`, which overflows for very long input.
#[verifier::external_body]
fn code128_encode(payload: &str) -> (r: Option<Vec<u8>>)
    requires
        payload@.len() <= 129,
    ensures
        match r {
            Some(bits) => code128_encoding(payload@) == Some(bits@),
            None => code128_encoding(payload@) is None,
        },
        r matches Some(bits) ==> is_binary(bits@) && 35 <= bits@.len() <= 11 * payload@.len() + 24
            && bits@[0] == 1 && bits@.last() == 1 && (code128_accepted(payload@) ==> bits@.len()
            == 11 * code128_unit_count(payload@) + 24),
        code128_accepted(payload@) ==> r is Some,
{
    match Code128::new(payload) {
        Ok(symbol) => Some(symbol.encode()),
        Err(_) => None,
    }
}

/// Encodes EAN-13 input with `barcoders` (`EAN13::new`, then `encode` on the symbol it
/// returns).
///
/// Claimed of the crate: the result is a function of the input alone; twelve ASCII digits
/// are accepted; the bits are 0 or 1 and there are 95 of them (guards 3 + 5 + 3 and twelve
/// digit patterns of 7), starting and ending with the guard `1, 0, 1`.
#[verifier::external_body]
fn ean13_encode(data: &str) -> (r: Option<Vec<u8>>)
    ensures
        match r {
            Some(bits) => ean13_encoding(data@) == Some(bits@),
            None => ean13_encoding(data@) is None,
        },
        data@.len() == 12 && is_ascii_digits(data@) ==> r is Some,
        r matches Some(bits) ==> is_binary(bits@) && bits@.len() == 95 && bits@[0] == 1
            && bits@[94] == 1,
{
    match EAN13::new(data) {
        Ok(symbol) => Some(symbol.encode()),
        Err(_) => None,
    }
}

/// The payload handed to the Code 128 encoder: subset C for even-length numeric input,
/// subset B otherwise.
pub open spec fn code128_payload(data: Seq<char>) -> Seq<char> {
    if data.len() % 2 == 0 && is_ascii_digits(data) {
        seq![start_c()] + data
    } else {
        seq![start_b()] + data
    }
}

/// The Code 128 encoder is handed the input text itself, unchanged, behind a single start
/// selector: the subset C selector when the input is an even number of ASCII digits, the
/// subset B selector otherwise.
pub proof fn lemma_code128_payload_keeps_data(d: Seq<char>)
    ensures
        code128_payload(d).len() == d.len() + 1,
        code128_payload(d).skip(1) == d,
        code128_payload(d)[0] == if d.len() % 2 == 0 && (forall|i: int| 0 <= i < d.len() ==> '0' <= #[trigger] d[i] <= '9') {
            '\u{0106}'
        } else {
            '\u{0181}'
        },
{
    assert(code128_payload(d).skip(1) =~= d);
}

/// The input checks of Code 128, in the order they are made.
pub open spec fn code128_rejection(data: &str) -> Option<CoreError> {
    if data@.len() == 0 {
        Some(CoreError::EmptyData)
    } else if data.spec_bytes().len() > 128 {
        Some(CoreError::Code128TooLong(data.spec_bytes().len() as usize))
    } else if !is_printable_ascii(data@) {
        Some(CoreError::InvalidCode128)
    } else {
        None
    }
}

fn all_printable(v: &Vec<char>) -> (r: bool)
    ensures
        r == is_printable_ascii(v@),
{
    let mut i: usize = 0;
    while i < v.len()
        invariant
            i <= v@.len(),
            forall|j: int| 0 <= j < i ==> ' ' <= #[trigger] v@[j] <= '~',
        decreases v@.len() - i,
    {
        if !(' ' <= v[i] && v[i] <= '~') {
            return false;
        }
        i = i + 1;
    }
    true
}

fn all_digits(v: &Vec<char>) -> (r: bool)
    ensures
        r == is_ascii_digits(v@),
{
    let mut i: usize = 0;
    while i < v.len()
        invariant
            i <= v@.len(),
            forall|j: int| 0 <= j < i ==> '0' <= #[trigger] v@[j] <= '9',
        decreases v@.len() - i,
    {
        if !('0' <= v[i] && v[i] <= '9') {
            return false;
        }
        i = i + 1;
    }
    true
}

/// The number of Code 128 symbol units for input data: the start unit, then one unit per
/// digit pair in subset C, or one per character in subset B.
pub open spec fn code128_symbol_count(data: Seq<char>) -> nat {
    if data.len() % 2 == 0 && is_ascii_digits(data) {
        1 + data.len() / 2
    } else {
        1 + data.len()
    }
}

/// Encodes Code 128 input into module bits.
pub fn encode_code128(data: &str) -> (r: Result<Vec<u8>, CoreError>)
    ensures
        code128_rejection(data) matches Some(e) ==> r matches Err(e2) && e2 == e,
        code128_rejection(data) is None ==> (r matches Ok(bits)
            && code128_encoding(code128_payload(data@)) == Some(bits@)
            && is_binary(bits@) && bits@.len() == 11 * code128_symbol_count(data@) + 24
            && bits@[0] == 1 && bits@.last() == 1),
{
    if data.is_empty() {
        return Err(CoreError::EmptyData);
    }
    let nbytes = byte_len(data);
    if nbytes > MAX_CODE128_BYTES {
        return Err(CoreError::Code128TooLong(nbytes));
    }
    let chars = chars_of(data);
    if !all_printable(&chars) {
        return Err(CoreError::InvalidCode128);
    }
    proof {
        lemma_char_count_le_byte_len(data@);
    }
    let use_subset_c = chars.len() % 2 == 0 && all_digits(&chars);
    let start = if use_subset_c { '\u{0106}' } else { '\u{0181}' };
    let mut payload = String::new();
    push_char(&mut payload, start);
    payload.append(data);
    proof {
        assert(payload@ =~= code128_payload(data@));
        assert(payload@.skip(1) =~= data@);
    }
    match code128_encode(payload.as_str()) {
        Some(bits) => Ok(bits),
        None => Err(CoreError::InvalidCode128),
    }
}

/// The input checks of EAN-13, in the order they are made.
pub open spec fn ean13_rejection(data: &str) -> Option<CoreError> {
    if data.spec_bytes().len() != 12 {
        Some(CoreError::InvalidEan13(data.spec_bytes().len() as usize))
    } else if !is_ascii_digits(data@) {
        Some(CoreError::InvalidEan13Chars)
    } else {
        None
    }
}

/// Encodes twelve EAN-13 digits into module bits; the encoder adds the check digit.
pub fn encode_ean13(data: &str) -> (r: Result<Vec<u8>, CoreError>)
    ensures
        ean13_rejection(data) matches Some(e) ==> r matches Err(e2) && e2 == e,
        ean13_rejection(data) is None ==> (r matches Ok(bits)
            && ean13_encoding(data@) == Some(bits@)
            && is_binary(bits@) && bits@.len() == 95 && bits@[0] == 1 && bits@.last() == 1),
{
    let nbytes = byte_len(data);
    if nbytes != 12 {
        return Err(CoreError::InvalidEan13(nbytes));
    }
    let chars = chars_of(data);
    if !all_digits(&chars) {
        return Err(CoreError::InvalidEan13Chars);
    }
    let nchars = chars.len();
    proof {
        lemma_ascii_byte_len(data@);
        assert(nchars == data@.len());
        assert(data@.len() == 12);
    }
    match ean13_encode(data) {
        Some(bits) => Ok(bits),
        None => Err(CoreError::InvalidEan13Chars),
    }
}


/// Total width is additive over concatenation.
pub proof fn lemma_total_width_concat(a: Seq<(u32, bool)>, b: Seq<(u32, bool)>)
    ensures
        total_width(a + b) == total_width(a) + total_width(b),
    decreases b.len(),
{
    if b.len() > 0 {
        lemma_total_width_concat(a, b.drop_last());
        assert((a + b).drop_last() =~= a + b.drop_last());
    } else {
        assert(a + b =~= a);
    }
}

/// The bars of a layout cover the quiet zones plus one module per bit.
pub proof fn lemma_layout_width(bars: Seq<(u32, bool)>, bits: Seq<u8>, left: u32, right: u32)
    requires
        is_bar_layout(bars, bits, left, right),
    ensures
        total_width(bars) == left + bits.len() + right,
{
    let mid = bars.subrange(1, bars.len() - 1);
    lemma_expand_len(mid);
    assert(bars =~= seq![bars[0]] + mid + seq![bars.last()]);
    lemma_total_width_concat(seq![bars[0]] + mid, seq![bars.last()]);
    lemma_total_width_concat(seq![bars[0]], mid);
    assert(seq![bars[0]].drop_last() =~= Seq::<(u32, bool)>::empty());
    assert(seq![bars.last()].drop_last() =~= Seq::<(u32, bool)>::empty());
    assert(total_width(Seq::<(u32, bool)>::empty()) == 0);
    assert(total_width(seq![bars[0]]) == left);
    assert(total_width(seq![bars.last()]) == right);
}

proof fn lemma_expand_first(bars: Seq<(u32, bool)>)
    requires
        bars.len() > 0,
        bars[0].0 >= 1,
    ensures
        expand_bars(bars).len() > 0,
        expand_bars(bars)[0] == bars[0].1,
    decreases bars.len(),
{
    lemma_expand_push(bars.drop_last(), bars.last());
    assert(bars.drop_last().push(bars.last()) =~= bars);
    if bars.len() > 1 {
        lemma_expand_first(bars.drop_last());
    } else {
        assert(bars.drop_last() =~= Seq::<(u32, bool)>::empty());
    }
}

/// Light and dark alternate across the whole barcode, quiet zones included: when the bits
/// begin and end with a dark module and both quiet zones are at least one module wide, a
/// layout of them is itself a run encoding, light at both ends.
pub proof fn lemma_layout_alternates(bars: Seq<(u32, bool)>, bits: Seq<u8>, left: u32, right: u32)
    requires
        is_bar_layout(bars, bits, left, right),
        bits.len() > 0,
        bits[0] == 1,
        bits.last() == 1,
        left >= 1,
        right >= 1,
    ensures
        is_run_encoding(bars),
        !bars[0].1,
        !bars.last().1,
{
    let mid = bars.subrange(1, bars.len() - 1);
    let d = dark_flags(bits);
    if mid.len() == 0 {
        assert(expand_bars(mid) =~= Seq::<bool>::empty());
        assert(d.len() > 0);
        assert(false);
    }
    assert(mid[0].0 >= 1);
    assert(mid[mid.len() - 1].0 >= 1);
    lemma_expand_first(mid);
    lemma_expand_last(mid);
    assert(d[0]);
    assert(d[d.len() - 1]);
    assert forall|i: int| 0 <= i < bars.len() implies #[trigger] bars[i].0 >= 1 by {
        if 0 < i < bars.len() - 1 {
            assert(bars[i] == mid[i - 1]);
        }
    }
    assert forall|i: int| 0 <= i < bars.len() - 1 implies #[trigger] bars[i].1 != bars[i + 1].1 by {
        if i == 0 {
            assert(bars[1] == mid[0]);
        } else if i == bars.len() - 2 {
            assert(bars[i] == mid[mid.len() - 1]);
        } else {
            assert(bars[i] == mid[i - 1]);
            assert(bars[i + 1] == mid[i]);
        }
    }
}

/// The left quiet zone, in modules, of each symbology.
pub open spec fn left_quiet_zone(t: BarcodeType) -> u32 {
    match t {
        BarcodeType::Code128 => 10,
        BarcodeType::Ean13 => 11,
    }
}

/// The right quiet zone, in modules, of each symbology.
pub open spec fn right_quiet_zone(t: BarcodeType) -> u32 {
    match t {
        BarcodeType::Code128 => 10,
        BarcodeType::Ean13 => 7,
    }
}

/// A barcode matrix that lays out `bits` with the given quiet zones and dimensions.
pub open spec fn is_barcode_of(
    m: BarcodeMatrix,
    bits: Seq<u8>,
    left: u32,
    right: u32,
    height: u32,
    module_width: u32,
    fg_color: [u8; 4],
    bg_color: [u8; 4],
) -> bool {
    &&& is_bar_layout(m.bars@, bits, left, right)
    &&& m.total_modules == left + bits.len() + right
    &&& m.height == height
    &&& m.module_width == module_width
    &&& m.fg_color == fg_color
    &&& m.bg_color == bg_color
}

/// Builds the barcode matrix for encoder bits: bars with quiet zones and their total
/// width.
pub fn barcode_from_bits(
    bits: &[u8],
    left_quiet_zone: u32,
    right_quiet_zone: u32,
    height: u32,
    module_width: u32,
    fg_color: [u8; 4],
    bg_color: [u8; 4],
) -> (m: BarcodeMatrix)
    requires
        left_quiet_zone + bits@.len() + right_quiet_zone <= u32::MAX,
    ensures
        is_barcode_of(m, bits@, left_quiet_zone, right_quiet_zone, height, module_width, fg_color, bg_color),
{
    let bars = bits_to_bars(bits, left_quiet_zone, right_quiet_zone);
    let ghost total = left_quiet_zone + bits@.len() + right_quiet_zone;
    proof {
        lemma_layout_width(bars@, bits@, left_quiet_zone, right_quiet_zone);
    }
    let mut total_modules: u32 = 0;
    let mut i: usize = 0;
    while i < bars.len()
        invariant
            i <= bars@.len(),
            total_width(bars@) == total,
            total <= u32::MAX,
            total_modules == total_width(bars@.take(i as int)),
        decreases bars@.len() - i,
    {
        proof {
            assert(bars@.take(i + 1).drop_last() =~= bars@.take(i as int));
            assert(bars@ =~= bars@.take(i + 1) + bars@.skip(i + 1));
            lemma_total_width_concat(bars@.take(i + 1), bars@.skip(i + 1));
        }
        total_modules = total_modules + bars[i].0;
        i = i + 1;
    }
    proof {
        assert(bars@.take(bars@.len() as int) =~= bars@);
    }
    BarcodeMatrix { bars, total_modules, height, module_width, fg_color, bg_color }
}

/// Input that passes the checks of its symbology: Code 128 data that is non-empty, at most
/// 128 bytes and printable ASCII; EAN-13 data that is twelve ASCII digits.
pub open spec fn barcode_input_accepted(data: &str, t: BarcodeType) -> bool {
    match t {
        BarcodeType::Code128 => code128_rejection(data) is None,
        BarcodeType::Ean13 => ean13_rejection(data) is None,
    }
}

/// What encoding `data` in a symbology yields: the encoder bits, or the input error.
pub open spec fn barcode_encoding(data: &str, t: BarcodeType) -> Result<Seq<u8>, CoreError> {
    match t {
        BarcodeType::Code128 => match code128_rejection(data) {
            Some(e) => Err(e),
            None => match code128_encoding(code128_payload(data@)) {
                Some(bits) => Ok(bits),
                None => Err(CoreError::InvalidCode128),
            },
        },
        BarcodeType::Ean13 => match ean13_rejection(data) {
            Some(e) => Err(e),
            None => match ean13_encoding(data@) {
                Some(bits) => Ok(bits),
                None => Err(CoreError::InvalidEan13Chars),
            },
        },
    }
}

/// Generates a Code 128 or EAN-13 barcode matrix.
pub fn generate_barcode(
    data: &str,
    barcode_type: BarcodeType,
    height: u32,
    module_width: u32,
    fg_color: [u8; 4],
    bg_color: [u8; 4],
) -> (r: Result<BarcodeMatrix, CoreError>)
    ensures
        !(20 <= height <= 2000) ==> (r matches Err(e) && e == CoreError::InvalidBarcodeHeight),
        20 <= height <= 2000 && !(1 <= module_width <= 16) ==> (r matches Err(e)
            && e == CoreError::InvalidBarcodeModuleWidth),
        20 <= height <= 2000 && 1 <= module_width <= 16 ==> match barcode_encoding(data, barcode_type) {
            Ok(bits) => r matches Ok(m) && is_barcode_of(
                m,
                bits,
                left_quiet_zone(barcode_type),
                right_quiet_zone(barcode_type),
                height,
                module_width,
                fg_color,
                bg_color,
            ),
            Err(e) => r matches Err(e2) && e2 == e,
        },
        r matches Ok(m) ==> 17 <= m.total_modules <= 1463 && m.total_modules * m.module_width <= 23408
            && total_width(m.bars@) == m.total_modules,
        r matches Ok(m) ==> is_run_encoding(m.bars@) && !m.bars@[0].1 && !m.bars@.last().1,
        barcode_type == BarcodeType::Ean13 ==> (r matches Ok(m) ==> m.total_modules == 113),
        20 <= height <= 2000 && 1 <= module_width <= 16 && barcode_input_accepted(data, barcode_type)
            ==> r is Ok && barcode_encoding(data, barcode_type) is Ok,
{
    if !(20 <= height && height <= 2000) {
        return Err(CoreError::InvalidBarcodeHeight);
    }
    if !(1 <= module_width && module_width <= 16) {
        return Err(CoreError::InvalidBarcodeModuleWidth);
    }
    let (encoded, left_quiet_zone, right_quiet_zone) = match barcode_type {
        BarcodeType::Code128 => {
            proof {
                lemma_char_count_le_byte_len(data@);
            }
            let bits = encode_code128(data)?;
            (bits, CODE128_QUIET_ZONE, CODE128_QUIET_ZONE)
        },
        BarcodeType::Ean13 => {
            let bits = encode_ean13(data)?;
            (bits, EAN13_LEFT_QUIET_ZONE, EAN13_RIGHT_QUIET_ZONE)
        },
    };
    let m = barcode_from_bits(
        encoded.as_slice(),
        left_quiet_zone,
        right_quiet_zone,
        height,
        module_width,
        fg_color,
        bg_color,
    );
    assert(m.total_modules * m.module_width <= 23408) by (nonlinear_arith)
        requires
            m.total_modules <= 1463,
            m.module_width <= 16,
    ;
    proof {
        lemma_layout_width(m.bars@, encoded@, left_quiet_zone, right_quiet_zone);
        lemma_layout_alternates(m.bars@, encoded@, left_quiet_zone, right_quiet_zone);
    }
    Ok(m)
}

} // verus!
