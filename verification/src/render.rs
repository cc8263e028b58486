use vstd::prelude::*;

use crate::barcode::{lemma_total_width_concat, total_width, BarcodeMatrix};
use crate::error::CoreError;
use crate::qr::{image_modules, module_dark, QrMatrix, QrOptions};
use crate::rgba::{
    canvas_bytes, canvas_size, canvas_wf, image_decoding, is_png_file, png_encodable, png_encoding, png_round_trips,
    put_next, rgba_pixel, Canvas,
};
use crate::text::{dec, digit_char, digit_of, push_char, push_decimal};

verus! {

/// Alpha in thousandths, rounded to nearest: `alpha / 255` to three decimals.
pub open spec fn alpha_thousandths(alpha: u8) -> nat {
    ((2000 * alpha + 255) / 510) as nat
}

/// `alpha / 255` written with three decimals.
pub open spec fn alpha_text(alpha: u8) -> Seq<char> {
    let m = alpha_thousandths(alpha);
    dec(m / 1000) + seq!['.', digit_char((m / 100) % 10), digit_char((m / 10) % 10), digit_char(m % 10)]
}

/// The SVG fill of an RGBA color: `rgb(r,g,b)` when opaque, else `rgba(r,g,b,a)`.
pub open spec fn svg_fill(c: [u8; 4]) -> Seq<char> {
    if c[3] == 255 {
        "rgb("@ + dec(c[0] as nat) + ","@ + dec(c[1] as nat) + ","@ + dec(c[2] as nat) + ")"@
    } else {
        "rgba("@ + dec(c[0] as nat) + ","@ + dec(c[1] as nat) + ","@ + dec(c[2] as nat) + ","@
            + alpha_text(c[3]) + ")"@
    }
}

/// Format an RGBA color as an SVG fill string: `rgb(r,g,b)` or `rgba(r,g,b,a)`.
pub fn rgba_to_svg_fill(color: &[u8; 4]) -> (r: String)
    ensures
        r@ == svg_fill(*color),
{
    let mut s = String::new();
    if color[3] == 255 {
        s.append("rgb(");
    } else {
        s.append("rgba(");
    }
    push_decimal(&mut s, color[0] as u64);
    s.append(",");
    push_decimal(&mut s, color[1] as u64);
    s.append(",");
    push_decimal(&mut s, color[2] as u64);
    if color[3] != 255 {
        s.append(",");
        let m: u64 = (2000 * color[3] as u64 + 255) / 510;
        push_decimal(&mut s, m / 1000);
        push_char(&mut s, '.');
        push_char(&mut s, digit_of((m / 100) % 10));
        push_char(&mut s, digit_of((m / 10) % 10));
        push_char(&mut s, digit_of(m % 10));
    }
    s.append(")");
    assert(s@ =~= svg_fill(*color));
    s
}


/// The opening `<svg>` element of a `w` by `h` pixel drawing, and a newline.
pub open spec fn svg_open(w: nat, h: nat) -> Seq<char> {
    "<svg xmlns=\"http://www.w3.org/2000/svg\" width=\""@ + dec(w) + "\" height=\""@ + dec(h)
        + "\" viewBox=\"0 0 "@ + dec(w) + " "@ + dec(h) + "\">"@ + "\n"@
}

/// The background rectangle covering the drawing, and a newline.
pub open spec fn svg_background(w: nat, h: nat, fill: Seq<char>) -> Seq<char> {
    "  <rect width=\""@ + dec(w) + "\" height=\""@ + dec(h) + "\" fill=\""@ + fill + "\" />"@ + "\n"@
}

/// A filled rectangle, and a newline.
pub open spec fn svg_rect(x: nat, y: nat, w: nat, h: nat, fill: Seq<char>) -> Seq<char> {
    "  <rect x=\""@ + dec(x) + "\" y=\""@ + dec(y) + "\" width=\""@ + dec(w) + "\" height=\""@
        + dec(h) + "\" fill=\""@ + fill + "\" />"@ + "\n"@
}

/// The closing tag and a newline.
pub open spec fn svg_close() -> Seq<char> {
    "</svg>\n"@
}

fn push_svg_open(svg: &mut String, w: u32, h: u32)
    ensures
        final(svg)@ == old(svg)@ + svg_open(w as nat, h as nat),
{
    svg.append("<svg xmlns=\"http://www.w3.org/2000/svg\" width=\"");
    push_decimal(svg, w as u64);
    svg.append("\" height=\"");
    push_decimal(svg, h as u64);
    svg.append("\" viewBox=\"0 0 ");
    push_decimal(svg, w as u64);
    svg.append(" ");
    push_decimal(svg, h as u64);
    svg.append("\">");
    svg.append("\n");
    assert(final(svg)@ =~= old(svg)@ + svg_open(w as nat, h as nat));
}

fn push_svg_background(svg: &mut String, w: u32, h: u32, fill: &str)
    ensures
        final(svg)@ == old(svg)@ + svg_background(w as nat, h as nat, fill@),
{
    svg.append("  <rect width=\"");
    push_decimal(svg, w as u64);
    svg.append("\" height=\"");
    push_decimal(svg, h as u64);
    svg.append("\" fill=\"");
    svg.append(fill);
    svg.append("\" />");
    svg.append("\n");
    assert(final(svg)@ =~= old(svg)@ + svg_background(w as nat, h as nat, fill@));
}

fn push_svg_rect(svg: &mut String, x: u32, y: u32, w: u32, h: u32, fill: &str)
    ensures
        final(svg)@ == old(svg)@ + svg_rect(x as nat, y as nat, w as nat, h as nat, fill@),
{
    svg.append("  <rect x=\"");
    push_decimal(svg, x as u64);
    svg.append("\" y=\"");
    push_decimal(svg, y as u64);
    svg.append("\" width=\"");
    push_decimal(svg, w as u64);
    svg.append("\" height=\"");
    push_decimal(svg, h as u64);
    svg.append("\" fill=\"");
    svg.append(fill);
    svg.append("\" />");
    svg.append("\n");
    assert(final(svg)@ =~= old(svg)@ + svg_rect(x as nat, y as nat, w as nat, h as nat, fill@));
}

/// The first column at or after `col` that is not a dark module of the row (the end of a
/// run of dark modules that starts at `col`).
pub open spec fn dark_run_end(m: QrMatrix, row: int, col: int) -> int
    decreases m.size - col,
{
    if 0 <= col < m.size && module_dark(m, row, col) {
        dark_run_end(m, row, col + 1)
    } else {
        col
    }
}

proof fn lemma_dark_run_end_bounds(m: QrMatrix, row: int, col: int)
    requires
        0 <= col <= m.size,
    ensures
        col <= dark_run_end(m, row, col) <= m.size,
        col < m.size && module_dark(m, row, col) ==> col < dark_run_end(m, row, col),
    decreases m.size - col,
{
    if 0 <= col < m.size && module_dark(m, row, col) {
        lemma_dark_run_end_bounds(m, row, col + 1);
    }
}

/// The rectangles of one row from column `col` on: one per maximal run of dark modules,
/// placed after the margin and scaled by the module size.
pub open spec fn qr_row_rects(m: QrMatrix, margin: u32, ms: u32, fill: Seq<char>, row: int, col: int) -> Seq<char>
    decreases m.size - col,
{
    if col < 0 || col >= m.size {
        Seq::empty()
    } else if module_dark(m, row, col) {
        let end = dark_run_end(m, row, col);
        if col < end <= m.size {
            svg_rect(
                ((margin + col) * ms) as nat,
                ((margin + row) * ms) as nat,
                ((end - col) * ms) as nat,
                ms as nat,
                fill,
            ) + qr_row_rects(m, margin, ms, fill, row, end)
        } else {
            Seq::empty()
        }
    } else {
        qr_row_rects(m, margin, ms, fill, row, col + 1)
    }
}

/// The runs of dark modules of one row from column `col` on, as `[start, end)` column
/// ranges, in the order `qr_row_rects` draws them.
pub open spec fn qr_row_runs(m: QrMatrix, row: int, col: int) -> Seq<(int, int)>
    decreases m.size - col,
{
    if col < 0 || col >= m.size {
        Seq::empty()
    } else if module_dark(m, row, col) {
        let end = dark_run_end(m, row, col);
        if col < end <= m.size {
            seq![(col, end)] + qr_row_runs(m, row, end)
        } else {
            Seq::empty()
        }
    } else {
        qr_row_runs(m, row, col + 1)
    }
}

/// The rectangles drawn for a sequence of runs of one row.
pub open spec fn rects_of_runs(runs: Seq<(int, int)>, margin: u32, ms: u32, fill: Seq<char>, row: int) -> Seq<char>
    decreases runs.len(),
{
    if runs.len() == 0 {
        Seq::empty()
    } else {
        let (start, end) = runs[0];
        svg_rect(
            ((margin + start) * ms) as nat,
            ((margin + row) * ms) as nat,
            ((end - start) * ms) as nat,
            ms as nat,
            fill,
        ) + rects_of_runs(runs.drop_first(), margin, ms, fill, row)
    }
}

/// The rectangles of a row are those of its runs.
pub proof fn lemma_row_rects_are_runs(m: QrMatrix, margin: u32, ms: u32, fill: Seq<char>, row: int, col: int)
    requires
        0 <= col,
    ensures
        qr_row_rects(m, margin, ms, fill, row, col) == rects_of_runs(qr_row_runs(m, row, col), margin, ms, fill, row),
    decreases m.size - col,
{
    if col < m.size {
        lemma_dark_run_end_bounds(m, row, col);
        if module_dark(m, row, col) {
            let end = dark_run_end(m, row, col);
            lemma_row_rects_are_runs(m, margin, ms, fill, row, end);
            let runs = qr_row_runs(m, row, col);
            assert(runs.drop_first() =~= qr_row_runs(m, row, end));
        } else {
            lemma_row_rects_are_runs(m, margin, ms, fill, row, col + 1);
        }
    }
}

proof fn lemma_dark_run_is_dark(m: QrMatrix, row: int, col: int, c: int)
    requires
        0 <= col <= c < dark_run_end(m, row, col),
    ensures
        c < m.size,
        module_dark(m, row, c),
    decreases m.size - col,
{
    if 0 <= col < m.size && module_dark(m, row, col) {
        if c > col {
            lemma_dark_run_is_dark(m, row, col + 1, c);
        }
    }
}

/// The runs of a row are increasing, non-empty, separated by at least one light module,
/// and cover exactly the dark modules of the row: the SVG draws every dark module once and
/// nothing else.
pub proof fn lemma_row_runs_cover(m: QrMatrix, row: int, col: int)
    requires
        0 <= col,
    ensures
        forall|i: int| 0 <= i < qr_row_runs(m, row, col).len() ==> col <= #[trigger] qr_row_runs(m, row, col)[i].0
            < qr_row_runs(m, row, col)[i].1 <= m.size,
        forall|i: int| 0 <= i < qr_row_runs(m, row, col).len() - 1 ==> #[trigger] qr_row_runs(m, row, col)[i].1
            < qr_row_runs(m, row, col)[i + 1].0,
        forall|c: int| col <= c < m.size ==> (module_dark(m, row, c) <==> exists|i: int|
            0 <= i < qr_row_runs(m, row, col).len() && #[trigger] qr_row_runs(m, row, col)[i].0 <= c
                < qr_row_runs(m, row, col)[i].1),
    decreases m.size - col,
{
    let runs = qr_row_runs(m, row, col);
    if col < m.size {
        lemma_dark_run_end_bounds(m, row, col);
        if module_dark(m, row, col) {
            let end = dark_run_end(m, row, col);
            lemma_row_runs_cover(m, row, end);
            let rest = qr_row_runs(m, row, end);
            assert(runs == seq![(col, end)] + rest);
            assert forall|i: int| 0 <= i < runs.len() implies col <= #[trigger] runs[i].0 < runs[i].1 <= m.size by {
                if i > 0 {
                    assert(runs[i] == rest[i - 1]);
                }
            }
            if end < m.size {
                lemma_dark_run_end_stops(m, row, col);
            }
            assert forall|i: int| 0 <= i < runs.len() - 1 implies #[trigger] runs[i].1 < runs[i + 1].0 by {
                assert(runs[i + 1] == rest[i]);
                if i > 0 {
                    assert(runs[i] == rest[i - 1]);
                } else {
                    assert(rest[0].0 >= end);
                    if rest[0].0 == end {
                        assert(module_dark(m, row, end)) by {
                            assert(rest[0].0 <= end < rest[0].1);
                        }
                    }
                }
            }
            assert forall|c: int| col <= c < m.size implies (module_dark(m, row, c) <==> exists|i: int|
                0 <= i < runs.len() && #[trigger] runs[i].0 <= c < runs[i].1) by {
                if c < end {
                    lemma_dark_run_is_dark(m, row, col, c);
                    assert(runs[0].0 <= c < runs[0].1);
                } else {
                    if module_dark(m, row, c) {
                        let j = choose|j: int| 0 <= j < rest.len() && #[trigger] rest[j].0 <= c < rest[j].1;
                        assert(runs[j + 1] == rest[j]);
                    }
                    if exists|i: int| 0 <= i < runs.len() && #[trigger] runs[i].0 <= c < runs[i].1 {
                        let i = choose|i: int| 0 <= i < runs.len() && #[trigger] runs[i].0 <= c < runs[i].1;
                        assert(i > 0);
                        assert(runs[i] == rest[i - 1]);
                    }
                }
            }
        } else {
            lemma_row_runs_cover(m, row, col + 1);
            assert(runs == qr_row_runs(m, row, col + 1));
        }
    }
}

/// A run ends at the first light module after it.
proof fn lemma_dark_run_end_stops(m: QrMatrix, row: int, col: int)
    requires
        0 <= col <= m.size,
        dark_run_end(m, row, col) < m.size,
    ensures
        !module_dark(m, row, dark_run_end(m, row, col)),
    decreases m.size - col,
{
    if 0 <= col < m.size && module_dark(m, row, col) {
        lemma_dark_run_end_stops(m, row, col + 1);
    }
}

/// The rectangles of the first `rows` rows.
pub open spec fn qr_rows_rects(m: QrMatrix, margin: u32, ms: u32, fill: Seq<char>, rows: int) -> Seq<char>
    decreases rows,
{
    if rows <= 0 {
        Seq::empty()
    } else {
        qr_rows_rects(m, margin, ms, fill, rows - 1) + qr_row_rects(m, margin, ms, fill, rows - 1, 0)
    }
}

/// The SVG drawing of a QR matrix with the module size, margin and colors of `options`.
pub open spec fn qr_svg(m: QrMatrix, options: QrOptions) -> Seq<char> {
    let px = (image_modules(m.size, options.margin) * options.module_size) as nat;
    svg_open(px, px) + svg_background(px, px, svg_fill(options.bg_color))
        + qr_rows_rects(m, options.margin, options.module_size, svg_fill(options.fg_color), m.size as int)
        + svg_close()
}

/// Render a QR code matrix to an SVG string.
///
/// Generates a clean, scalable SVG with `<rect>` elements for each module.
/// Uses the module size and margin from the options.
pub fn qr_to_svg(matrix: &QrMatrix, options: &QrOptions) -> (r: Result<String, CoreError>)
    requires
        image_modules(matrix.size, options.margin) <= u32::MAX,
        image_modules(matrix.size, options.margin) * options.module_size <= u32::MAX,
    ensures
        r matches Ok(svg) && svg@ == qr_svg(*matrix, *options),
{
    let size = matrix.size;
    let ms = options.module_size;
    let margin = options.margin;
    let total = size + 2 * margin;
    let total_px = total * ms;
    let fg = rgba_to_svg_fill(&options.fg_color);
    let bg = rgba_to_svg_fill(&options.bg_color);
    let ghost fill = fg@;
    let mut svg = String::new();
    push_svg_open(&mut svg, total_px, total_px);
    push_svg_background(&mut svg, total_px, total_px, bg.as_str());
    let ghost head = svg@;
    let mut row: u32 = 0;
    while row < size
        invariant
            size == matrix.size,
            ms == options.module_size,
            margin == options.margin,
            total == size + 2 * margin,
            total_px == total * ms,
            total_px <= u32::MAX,
            fg@ == fill,
            row <= size,
            svg@ == head + qr_rows_rects(*matrix, margin, ms, fill, row as int),
        decreases size - row,
    {
        let ghost before_row = svg@;
        let mut col: u32 = 0;
        while col < size
            invariant
                size == matrix.size,
                ms == options.module_size,
                margin == options.margin,
                total == size + 2 * margin,
                total_px == total * ms,
                total_px <= u32::MAX,
                fg@ == fill,
                row < size,
                col <= size,
                svg@ + qr_row_rects(*matrix, margin, ms, fill, row as int, col as int)
                    == before_row + qr_row_rects(*matrix, margin, ms, fill, row as int, 0),
            decreases size - col,
        {
            if matrix.is_dark(row, col) {
                let run_start = col;
                proof {
                    lemma_dark_run_end_bounds(*matrix, row as int, col as int);
                }
                while col < size && matrix.is_dark(row, col)
                    invariant
                        size == matrix.size,
                        run_start <= col <= size,
                        run_start < size,
                        module_dark(*matrix, row as int, run_start as int),
                        dark_run_end(*matrix, row as int, run_start as int) == dark_run_end(*matrix, row as int, col as int),
                    decreases size - col,
                {
                    col = col + 1;
                }
                let run_len = col - run_start;
                proof {
                    lemma_dark_run_end_bounds(*matrix, row as int, run_start as int);
                    assert(col == dark_run_end(*matrix, row as int, run_start as int));
                    assert((margin + run_start) * ms <= total_px) by (nonlinear_arith)
                        requires
                            margin + run_start <= total,
                            total_px == total * ms,
                    ;
                    assert((margin + row) * ms <= total_px) by (nonlinear_arith)
                        requires
                            margin + row <= total,
                            total_px == total * ms,
                    ;
                    assert(run_len * ms <= total_px) by (nonlinear_arith)
                        requires
                            run_len <= total,
                            total_px == total * ms,
                    ;
                    assert(ms <= total_px) by (nonlinear_arith)
                        requires
                            1 <= total,
                            total_px == total * ms,
                    ;
                }
                let rx = (margin + run_start) * ms;
                let ry = (margin + row) * ms;
                push_svg_rect(&mut svg, rx, ry, run_len * ms, ms, fg.as_str());
            } else {
                col = col + 1;
            }
        }
        proof {
            assert(qr_rows_rects(*matrix, margin, ms, fill, row + 1) == qr_rows_rects(*matrix, margin, ms, fill, row as int)
                + qr_row_rects(*matrix, margin, ms, fill, row as int, 0));
            assert(svg@ =~= head + qr_rows_rects(*matrix, margin, ms, fill, row + 1));
        }
        row = row + 1;
    }
    svg.append("</svg>\n");
    Ok(svg)
}


/// The rectangles of the dark bars, each placed after the bars before it.
pub open spec fn bar_rects(bars: Seq<(u32, bool)>, mw: u32, h: u32, fill: Seq<char>) -> Seq<char>
    decreases bars.len(),
{
    if bars.len() == 0 {
        Seq::empty()
    } else {
        let prefix = bars.drop_last();
        let (w, dark) = bars.last();
        bar_rects(prefix, mw, h, fill) + if dark {
            svg_rect((total_width(prefix) * mw) as nat, 0, (w * mw) as nat, h as nat, fill)
        } else {
            Seq::empty()
        }
    }
}

/// The SVG drawing of a barcode matrix.
pub open spec fn barcode_svg(m: BarcodeMatrix) -> Seq<char> {
    let w = (m.total_modules * m.module_width) as nat;
    svg_open(w, m.height as nat) + svg_background(w, m.height as nat, svg_fill(m.bg_color))
        + bar_rects(m.bars@, m.module_width, m.height, svg_fill(m.fg_color)) + svg_close()
}

/// The pixel width of a barcode matrix fits in `u32`, both as given by `total_modules`
/// and as the sum of its bars.
pub open spec fn barcode_fits(m: BarcodeMatrix) -> bool {
    &&& m.total_modules * m.module_width <= u32::MAX
    &&& total_width(m.bars@) * m.module_width <= u32::MAX
}

/// Render a barcode matrix to an SVG string.
pub fn barcode_to_svg(matrix: &BarcodeMatrix) -> (r: Result<String, CoreError>)
    requires
        barcode_fits(*matrix),
    ensures
        r matches Ok(svg) && svg@ == barcode_svg(*matrix),
{
    let width = matrix.pixel_width();
    let height = matrix.height;
    let mw = matrix.module_width;
    let fg = rgba_to_svg_fill(&matrix.fg_color);
    let bg = rgba_to_svg_fill(&matrix.bg_color);
    let ghost fill = fg@;
    let ghost bars = matrix.bars@;
    let mut svg = String::new();
    push_svg_open(&mut svg, width, height);
    push_svg_background(&mut svg, width, height, bg.as_str());
    let ghost head = svg@;
    let mut x_pos: u32 = 0;
    let mut i: usize = 0;
    assert(bars.take(0) =~= Seq::<(u32, bool)>::empty());
    assert(total_width(bars.take(0)) == 0);
    while i < matrix.bars.len()
        invariant
            bars == matrix.bars@,
            mw == matrix.module_width,
            height == matrix.height,
            fg@ == fill,
            total_width(bars) * mw <= u32::MAX,
            i <= bars.len(),
            x_pos == total_width(bars.take(i as int)) * mw,
            svg@ == head + bar_rects(bars.take(i as int), mw, height, fill),
        decreases bars.len() - i,
    {
        let (bar_width_modules, is_dark) = matrix.bars[i];
        let ghost prefix = bars.take(i as int);
        proof {
            assert(bars.take(i + 1).drop_last() =~= prefix);
            assert(bars =~= bars.take(i + 1) + bars.skip(i + 1));
            lemma_total_width_concat(bars.take(i + 1), bars.skip(i + 1));
            let t1 = total_width(bars.take(i + 1));
            assert(t1 == total_width(prefix) + bar_width_modules);
            assert(t1 * mw <= total_width(bars) * mw) by (nonlinear_arith)
                requires
                    t1 <= total_width(bars),
            ;
            assert(t1 * mw == total_width(prefix) * mw + bar_width_modules * mw) by (nonlinear_arith)
                requires
                    t1 == total_width(prefix) + bar_width_modules,
            ;
        }
        let bar_width = bar_width_modules * mw;
        if is_dark {
            push_svg_rect(&mut svg, x_pos, 0, bar_width, height, fg.as_str());
        }
        x_pos = x_pos + bar_width;
        proof {
            assert(svg@ =~= head + bar_rects(bars.take(i + 1), mw, height, fill));
        }
        i = i + 1;
    }
    proof {
        assert(bars.take(bars.len() as int) =~= bars);
    }
    svg.append("</svg>\n");
    Ok(svg)
}


/// One row of an RGBA raster: the bytes of pixels `0..w` of row `y`.
pub open spec fn raster_row(w: int, y: int, color: spec_fn(int, int) -> [u8; 4]) -> Seq<u8>
    decreases w,
{
    if w <= 0 {
        Seq::empty()
    } else {
        raster_row(w - 1, y, color) + color(w - 1, y)@
    }
}

/// A row-major RGBA raster of `w` by `h` pixels, pixel (x, y) having color `color(x, y)`.
pub open spec fn raster(w: int, h: int, color: spec_fn(int, int) -> [u8; 4]) -> Seq<u8>
    decreases h,
{
    if h <= 0 {
        Seq::empty()
    } else {
        raster(w, h - 1, color) + raster_row(w, h - 1, color)
    }
}

/// Whether pixel (x, y) lies in a dark module, given the margin and module size used for
/// drawing.
pub open spec fn qr_pixel_dark(m: QrMatrix, margin: u32, ms: u32, x: int, y: int) -> bool {
    &&& ms > 0
    &&& margin <= x / (ms as int) < margin + m.size
    &&& margin <= y / (ms as int) < margin + m.size
    &&& module_dark(m, y / (ms as int) - margin, x / (ms as int) - margin)
}

/// The pixel colors of a rendered QR code.
pub open spec fn qr_pixel_color(m: QrMatrix, options: QrOptions) -> spec_fn(int, int) -> [u8; 4] {
    |x: int, y: int|
        if qr_pixel_dark(m, options.margin, options.module_size, x, y) {
            options.fg_color
        } else {
            options.bg_color
        }
}

/// The side length of a matrix's image, from the matrix's own options.
pub open spec fn qr_image_px(m: QrMatrix) -> int {
    image_modules(m.size, m.options.margin) * m.options.module_size
}

/// The RGBA raster of a rendered QR code.
pub open spec fn qr_raster(m: QrMatrix, options: QrOptions) -> Seq<u8> {
    raster(qr_image_px(m), qr_image_px(m), qr_pixel_color(m, options))
}

/// The inputs the QR rasterizer handles: the image side fits in `u32`, its bytes fit in
/// memory, and module positions drawn with `options` fit in `u32`.
pub open spec fn qr_raster_fits(m: QrMatrix, options: QrOptions) -> bool {
    &&& image_modules(m.size, m.options.margin) <= u32::MAX
    &&& qr_image_px(m) <= u32::MAX
    &&& qr_image_px(m) * qr_image_px(m) * 4 <= usize::MAX
    &&& options.margin + m.size <= u32::MAX
    &&& (options.margin + m.size) * options.module_size <= u32::MAX
}

fn qr_pixel_is_dark(matrix: &QrMatrix, margin: u32, ms: u32, x: u32, y: u32) -> (r: bool)
    ensures
        r == qr_pixel_dark(*matrix, margin, ms, x as int, y as int),
{
    if ms == 0 {
        return false;
    }
    let mx = x / ms;
    let my = y / ms;
    if mx < margin || my < margin {
        return false;
    }
    if mx - margin >= matrix.size || my - margin >= matrix.size {
        return false;
    }
    matrix.is_dark(my - margin, mx - margin)
}

/// The QR code image drawn on a canvas: the background, with the pixels of each dark
/// module in the foreground color.
pub(crate) fn qr_canvas(matrix: &QrMatrix, options: &QrOptions) -> (img: Canvas)
    requires
        qr_raster_fits(*matrix, *options),
    ensures
        canvas_size(img) == (qr_image_px(*matrix) as u32, qr_image_px(*matrix) as u32),
        canvas_wf(img),
        canvas_bytes(img) == qr_raster(*matrix, *options),
{
    let total_px = matrix.pixel_size();
    let ghost color = qr_pixel_color(*matrix, *options);
    let mut img = Canvas::filled(total_px, total_px, options.bg_color);
    let mut y: u32 = 0;
    while y < total_px
        invariant
            y <= total_px,
            total_px == qr_image_px(*matrix),
            color == qr_pixel_color(*matrix, *options),
            canvas_size(img) == (total_px, total_px),
            canvas_wf(img),
            canvas_bytes(img).take(y * total_px * 4) == raster(total_px as int, y as int, color),
        decreases total_px - y,
    {
        let ghost before = raster(total_px as int, y as int, color);
        let mut x: u32 = 0;
        while x < total_px
            invariant
                y < total_px,
                x <= total_px,
                total_px == qr_image_px(*matrix),
                color == qr_pixel_color(*matrix, *options),
                canvas_size(img) == (total_px, total_px),
                canvas_wf(img),
                canvas_bytes(img).take((y * total_px + x) * 4) == before + raster_row(x as int, y as int, color),
            decreases total_px - x,
        {
            let dark = qr_pixel_is_dark(matrix, options.margin, options.module_size, x, y);
            let c = if dark { options.fg_color } else { options.bg_color };
            put_next(&mut img, x, y, c, Ghost(before + raster_row(x as int, y as int, color)));
            proof {
                assert(color(x as int, y as int) == c);
                assert(before + raster_row(x as int, y as int, color) + c@ =~= before + raster_row(x + 1, y as int, color));
            }
            x = x + 1;
        }
        proof {
            assert((y * total_px + total_px) * 4 == (y + 1) * total_px * 4) by (nonlinear_arith);
        }
        y = y + 1;
    }
    proof {
        lemma_canvas_is_raster(img, total_px as int, total_px as int, color);
    }
    img
}

/// A canvas whose first `h` rows are a `w` by `h` raster is that raster.
proof fn lemma_canvas_is_raster(img: Canvas, w: int, h: int, color: spec_fn(int, int) -> [u8; 4])
    requires
        w >= 0,
        h >= 0,
        canvas_bytes(img).len() == w * h * 4,
        canvas_bytes(img).take(h * w * 4) == raster(w, h, color),
    ensures
        canvas_bytes(img) == raster(w, h, color),
{
    assert(h * w * 4 == w * h * 4) by (nonlinear_arith);
    assert(canvas_bytes(img).take(h * w * 4) =~= canvas_bytes(img));
}

/// The RGBA raster of a QR code image.
pub fn qr_to_rgba(matrix: &QrMatrix, options: &QrOptions) -> (buf: Vec<u8>)
    requires
        qr_raster_fits(*matrix, *options),
    ensures
        buf@ == qr_raster(*matrix, *options),
        buf@.len() == qr_image_px(*matrix) * qr_image_px(*matrix) * 4,
{
    qr_canvas(matrix, options).into_bytes()
}

/// A raster of `w` by `h` pixels has `4 * w * h` bytes.
pub proof fn lemma_raster_len(w: int, h: int, color: spec_fn(int, int) -> [u8; 4])
    requires
        w >= 0,
        h >= 0,
    ensures
        raster(w, h, color).len() == w * h * 4,
    decreases h,
{
    if h > 0 {
        lemma_raster_len(w, h - 1, color);
        lemma_raster_row_len(w, h - 1, color);
        assert(w * h * 4 == w * (h - 1) * 4 + w * 4) by (nonlinear_arith);
    } else {
        assert(w * h * 4 == 0) by (nonlinear_arith)
            requires
                h == 0,
        ;
    }
}

/// A raster row of `w` pixels has `4 * w` bytes.
pub proof fn lemma_raster_row_len(w: int, y: int, color: spec_fn(int, int) -> [u8; 4])
    requires
        w >= 0,
    ensures
        raster_row(w, y, color).len() == w * 4,
    decreases w,
{
    if w > 0 {
        lemma_raster_row_len(w - 1, y, color);
    }
}

/// Render a QR code matrix to PNG bytes.
///
/// Uses the `image` crate to create an RGBA image buffer.
pub fn qr_to_png(matrix: &QrMatrix, options: &QrOptions) -> (r: Result<Vec<u8>, CoreError>)
    requires
        qr_raster_fits(*matrix, *options),
    ensures
        match png_encoding(qr_image_px(*matrix) as u32, qr_image_px(*matrix) as u32, qr_raster(*matrix, *options)) {
            Ok(png) => r matches Ok(bytes) && bytes@ == png,
            Err(msg) => r matches Err(CoreError::PngRenderFailed(m)) && m@ == msg,
        },
        match r {
            Ok(bytes) => is_png_file(bytes@) && (png_round_trips(qr_image_px(*matrix) * qr_image_px(*matrix) * 4)
                ==> image_decoding(bytes@) == Ok::<(u32, u32, Seq<u8>), Seq<char>>(
                (qr_image_px(*matrix) as u32, qr_image_px(*matrix) as u32, qr_raster(*matrix, *options)),
            )),
            Err(_) => true,
        },
        png_encodable(qr_image_px(*matrix), qr_image_px(*matrix)) ==> r is Ok,
{
    let img = qr_canvas(matrix, options);
    match img.png() {
        Ok(png) => Ok(png),
        Err(msg) => Err(CoreError::PngRenderFailed(msg)),
    }
}


/// Whether pixel column `x` lies in a dark bar; each bar spans its width times the module
/// width, after the bars before it.
pub open spec fn bar_dark_at(bars: Seq<(u32, bool)>, mw: u32, x: int) -> bool
    decreases bars.len(),
{
    if bars.len() == 0 {
        false
    } else {
        let prefix = bars.drop_last();
        let start = total_width(prefix) * mw;
        ||| bars.last().1 && start <= x < start + bars.last().0 * mw
        ||| bar_dark_at(prefix, mw, x)
    }
}

/// The pixel colors of a rendered barcode.
pub open spec fn barcode_pixel_color(m: BarcodeMatrix) -> spec_fn(int, int) -> [u8; 4] {
    |x: int, y: int| if bar_dark_at(m.bars@, m.module_width, x) { m.fg_color } else { m.bg_color }
}

/// The RGBA raster of a rendered barcode.
pub open spec fn barcode_raster(m: BarcodeMatrix) -> Seq<u8> {
    raster(m.total_modules * m.module_width, m.height as int, barcode_pixel_color(m))
}

/// The inputs the barcode rasterizer handles: pixel positions fit in `u32` and the image
/// bytes fit in memory.
pub open spec fn barcode_raster_fits(m: BarcodeMatrix) -> bool {
    &&& barcode_fits(m)
    &&& m.total_modules * m.module_width * m.height * 4 <= usize::MAX
}

/// Which pixel columns of a barcode image are dark.
fn barcode_dark_columns(matrix: &BarcodeMatrix, width: u32) -> (cols: Vec<bool>)
    requires
        barcode_fits(*matrix),
    ensures
        cols@.len() == width,
        forall|x: int| 0 <= x < width ==> #[trigger] cols@[x] == bar_dark_at(matrix.bars@, matrix.module_width, x),
{
    let mut cols: Vec<bool> = Vec::new();
    let mut x: u32 = 0;
    while x < width
        invariant
            x <= width,
            cols@.len() == x,
            forall|i: int| 0 <= i < x ==> #[trigger] cols@[i] == false,
        decreases width - x,
    {
        cols.push(false);
        x = x + 1;
    }
    let ghost bars = matrix.bars@;
    let mw = matrix.module_width;
    let mut x_pos: u32 = 0;
    let mut i: usize = 0;
    assert(bars.take(0) =~= Seq::<(u32, bool)>::empty());
    assert(total_width(bars.take(0)) == 0);
    while i < matrix.bars.len()
        invariant
            bars == matrix.bars@,
            mw == matrix.module_width,
            total_width(bars) * mw <= u32::MAX,
            i <= bars.len(),
            x_pos == total_width(bars.take(i as int)) * mw,
            cols@.len() == width,
            forall|x: int| 0 <= x < width ==> #[trigger] cols@[x] == bar_dark_at(bars.take(i as int), mw, x),
        decreases bars.len() - i,
    {
        let (bar_width_modules, is_dark) = matrix.bars[i];
        let ghost prefix = bars.take(i as int);
        proof {
            assert(bars.take(i + 1).drop_last() =~= prefix);
            assert(bars.take(i + 1).last() == (bar_width_modules, is_dark));
            assert(bars =~= bars.take(i + 1) + bars.skip(i + 1));
            lemma_total_width_concat(bars.take(i + 1), bars.skip(i + 1));
            let t1 = total_width(bars.take(i + 1));
            assert(t1 == total_width(prefix) + bar_width_modules);
            assert(t1 * mw <= total_width(bars) * mw) by (nonlinear_arith)
                requires
                    t1 <= total_width(bars),
            ;
            assert(t1 * mw == total_width(prefix) * mw + bar_width_modules * mw) by (nonlinear_arith)
                requires
                    t1 == total_width(prefix) + bar_width_modules,
            ;
        }
        let bar_width = bar_width_modules * mw;
        if is_dark {
            let mut dx: u32 = 0;
            while dx < bar_width
                invariant
                    dx <= bar_width,
                    x_pos + bar_width <= u32::MAX,
                    cols@.len() == width,
                    forall|x: int| 0 <= x < width ==> #[trigger] cols@[x] == (bar_dark_at(prefix, mw, x)
                        || (x_pos <= x < x_pos + dx)),
                decreases bar_width - dx,
            {
                if x_pos + dx < width {
                    cols.set((x_pos + dx) as usize, true);
                }
                dx = dx + 1;
            }
        }
        proof {
            assert forall|x: int| 0 <= x < width implies #[trigger] cols@[x] == bar_dark_at(bars.take(i + 1), mw, x) by {
                assert(bar_dark_at(bars.take(i + 1), mw, x) == ((is_dark && x_pos <= x < x_pos + bar_width)
                    || bar_dark_at(prefix, mw, x)));
            }
        }
        x_pos = x_pos + bar_width;
        i = i + 1;
    }
    proof {
        assert(bars.take(bars.len() as int) =~= bars);
    }
    cols
}

/// The barcode image drawn on a canvas: the background, with every pixel column of a dark
/// bar in the foreground color.
pub(crate) fn barcode_canvas(matrix: &BarcodeMatrix) -> (img: Canvas)
    requires
        barcode_raster_fits(*matrix),
    ensures
        canvas_size(img) == ((matrix.total_modules * matrix.module_width) as u32, matrix.height),
        canvas_wf(img),
        canvas_bytes(img) == barcode_raster(*matrix),
{
    let width = matrix.pixel_width();
    let height = matrix.height;
    let cols = barcode_dark_columns(matrix, width);
    let ghost color = barcode_pixel_color(*matrix);
    let mut img = Canvas::filled(width, height, matrix.bg_color);
    let mut y: u32 = 0;
    while y < height
        invariant
            y <= height,
            height == matrix.height,
            width == matrix.total_modules * matrix.module_width,
            color == barcode_pixel_color(*matrix),
            cols@.len() == width,
            forall|x: int| 0 <= x < width ==> #[trigger] cols@[x] == bar_dark_at(matrix.bars@, matrix.module_width, x),
            canvas_size(img) == (width, height),
            canvas_wf(img),
            canvas_bytes(img).take(y * width * 4) == raster(width as int, y as int, color),
        decreases height - y,
    {
        let ghost before = raster(width as int, y as int, color);
        let mut x: u32 = 0;
        while x < width
            invariant
                y < height,
                x <= width,
                width == matrix.total_modules * matrix.module_width,
                color == barcode_pixel_color(*matrix),
                cols@.len() == width,
                forall|x: int| 0 <= x < width ==> #[trigger] cols@[x] == bar_dark_at(matrix.bars@, matrix.module_width, x),
                canvas_size(img) == (width, height),
                canvas_wf(img),
                canvas_bytes(img).take((y * width + x) * 4) == before + raster_row(x as int, y as int, color),
            decreases width - x,
        {
            let c = if cols[x as usize] { matrix.fg_color } else { matrix.bg_color };
            put_next(&mut img, x, y, c, Ghost(before + raster_row(x as int, y as int, color)));
            proof {
                assert(color(x as int, y as int) == c);
                assert(before + raster_row(x as int, y as int, color) + c@ =~= before + raster_row(x + 1, y as int, color));
            }
            x = x + 1;
        }
        proof {
            assert((y * width + width) * 4 == (y + 1) * width * 4) by (nonlinear_arith);
        }
        y = y + 1;
    }
    proof {
        lemma_canvas_is_raster(img, width as int, height as int, color);
    }
    img
}

/// The RGBA raster of a barcode image.
pub fn barcode_to_rgba(matrix: &BarcodeMatrix) -> (buf: Vec<u8>)
    requires
        barcode_raster_fits(*matrix),
    ensures
        buf@ == barcode_raster(*matrix),
        buf@.len() == matrix.total_modules * matrix.module_width * matrix.height * 4,
{
    barcode_canvas(matrix).into_bytes()
}

/// Render a barcode matrix to PNG bytes.
pub fn barcode_to_png(matrix: &BarcodeMatrix) -> (r: Result<Vec<u8>, CoreError>)
    requires
        barcode_raster_fits(*matrix),
    ensures
        match png_encoding(
            (matrix.total_modules * matrix.module_width) as u32,
            matrix.height,
            barcode_raster(*matrix),
        ) {
            Ok(png) => r matches Ok(bytes) && bytes@ == png,
            Err(msg) => r matches Err(CoreError::PngRenderFailed(m)) && m@ == msg,
        },
        match r {
            Ok(bytes) => is_png_file(bytes@) && (png_round_trips(
                matrix.total_modules * matrix.module_width * matrix.height * 4,
            ) ==> image_decoding(bytes@) == Ok::<(u32, u32, Seq<u8>), Seq<char>>(
                ((matrix.total_modules * matrix.module_width) as u32, matrix.height, barcode_raster(*matrix)),
            )),
            Err(_) => true,
        },
        png_encodable(matrix.total_modules * matrix.module_width, matrix.height as int) ==> r is Ok,
{
    let img = barcode_canvas(matrix);
    match img.png() {
        Ok(png) => Ok(png),
        Err(msg) => Err(CoreError::PngRenderFailed(msg)),
    }
}


/// Where the logo's top-left corner goes on both axes: centered on the image.
pub open spec fn logo_offset(total: int, logo_size: int) -> int {
    (total - logo_size) / 2
}

/// The pixel colors of a QR image with a logo: opaque-enough logo pixels over a white
/// two-pixel ring (drawn only when the logo sits more than two pixels from the edge) over
/// the pixels of the base image, `w` pixels wide. The logo is centered on a square of
/// `total` pixels, the QR code's own size.
pub open spec fn logo_overlay_color(
    base: Seq<u8>,
    w: int,
    total: int,
    logo_size: u32,
    logo: Seq<u8>,
) -> spec_fn(int, int) -> [u8; 4] {
    |x: int, y: int| {
        let o = logo_offset(total, logo_size as int);
        let l = logo_size as int;
        if o <= x < o + l && o <= y < o + l && rgba_pixel(logo, l, x - o, y - o)[3] > 0 {
            rgba_pixel(logo, l, x - o, y - o)
        } else if o > 2 && o - 2 <= x < o + l + 2 && o - 2 <= y < o + l + 2 {
            [255u8, 255u8, 255u8, 255u8]
        } else {
            rgba_pixel(base, w, x, y)
        }
    }
}

/// Composites a logo of `logo_size` by `logo_size` pixels at the center of the first
/// `total` by `total` pixels of an image, over a white two-pixel ring, in place.
pub(crate) fn overlay_logo(img: &mut Canvas, total: u32, logo_size: u32, logo: &Canvas)
    requires
        canvas_wf(*old(img)),
        canvas_size(*logo) == (logo_size, logo_size),
        canvas_wf(*logo),
        logo_size <= total,
    ensures
        canvas_size(*final(img)) == canvas_size(*old(img)),
        canvas_wf(*final(img)),
        canvas_bytes(*final(img)) == raster(
            canvas_size(*old(img)).0 as int,
            canvas_size(*old(img)).1 as int,
            logo_overlay_color(
                canvas_bytes(*old(img)),
                canvas_size(*old(img)).0 as int,
                total as int,
                logo_size,
                canvas_bytes(*logo),
            ),
        ),
{
    let (w, h) = img.size();
    let ghost base = canvas_bytes(*img);
    let ghost color = logo_overlay_color(base, w as int, total as int, logo_size, canvas_bytes(*logo));
    let offset: u64 = ((total - logo_size) / 2) as u64;
    let l: u64 = logo_size as u64;
    let mut y: u32 = 0;
    assert(base.skip(0) =~= base);
    while y < h
        invariant
            y <= h,
            (w, h) == canvas_size(*old(img)),
            base == canvas_bytes(*old(img)),
            base.len() == w * h * 4,
            canvas_size(*img) == (w, h),
            canvas_wf(*img),
            canvas_size(*logo) == (logo_size, logo_size),
            canvas_wf(*logo),
            logo_size <= total,
            offset == logo_offset(total as int, logo_size as int),
            l == logo_size,
            color == logo_overlay_color(base, w as int, total as int, logo_size, canvas_bytes(*logo)),
            canvas_bytes(*img).take(y * w * 4) == raster(w as int, y as int, color),
            canvas_bytes(*img).skip(y * w * 4) == base.skip(y * w * 4),
        decreases h - y,
    {
        let ghost before = raster(w as int, y as int, color);
        let mut x: u32 = 0;
        while x < w
            invariant
                y < h,
                x <= w,
                (w, h) == canvas_size(*old(img)),
                base == canvas_bytes(*old(img)),
                base.len() == w * h * 4,
                canvas_size(*img) == (w, h),
                canvas_wf(*img),
                canvas_size(*logo) == (logo_size, logo_size),
                canvas_wf(*logo),
                logo_size <= total,
                offset == logo_offset(total as int, logo_size as int),
                l == logo_size,
                color == logo_overlay_color(base, w as int, total as int, logo_size, canvas_bytes(*logo)),
                canvas_bytes(*img).take((y * w + x) * 4) == before + raster_row(x as int, y as int, color),
                canvas_bytes(*img).skip((y * w + x) * 4) == base.skip((y * w + x) * 4),
            decreases w - x,
        {
            let ghost k = (y * w + x) * 4;
            proof {
                assert(k + 4 <= w * h * 4) by (nonlinear_arith)
                    requires
                        k == (y * w + x) * 4,
                        x < w,
                        y < h,
                ;
                assert(canvas_bytes(*img)[k] == canvas_bytes(*img).skip(k)[0]);
                assert(canvas_bytes(*img)[k + 1] == canvas_bytes(*img).skip(k)[1]);
                assert(canvas_bytes(*img)[k + 2] == canvas_bytes(*img).skip(k)[2]);
                assert(canvas_bytes(*img)[k + 3] == canvas_bytes(*img).skip(k)[3]);
                assert(base[k] == base.skip(k)[0]);
                assert(base[k + 1] == base.skip(k)[1]);
                assert(base[k + 2] == base.skip(k)[2]);
                assert(base[k + 3] == base.skip(k)[3]);
            }
            let mut c = img.get(x, y);
            assert(c =~= rgba_pixel(base, w as int, x as int, y as int));
            let xs = x as u64;
            let ys = y as u64;
            if offset > 2 && offset - 2 <= xs && xs < offset + l + 2 && offset - 2 <= ys && ys < offset + l + 2 {
                c = [255, 255, 255, 255];
            }
            if offset <= xs && xs < offset + l && offset <= ys && ys < offset + l {
                let p = logo.get((xs - offset) as u32, (ys - offset) as u32);
                if p[3] > 0 {
                    c = p;
                }
            }
            let ghost prefix = before + raster_row(x as int, y as int, color);
            let ghost cur = canvas_bytes(*img);
            put_next(img, x, y, c, Ghost(prefix));
            proof {
                assert(color(x as int, y as int) == c);
                assert(prefix + c@ =~= before + raster_row(x + 1, y as int, color));
                assert(canvas_bytes(*img).skip(k + 4) == cur.skip(k + 4));
                assert(cur.skip(k) == base.skip(k));
                assert(cur.skip(k + 4) =~= base.skip(k + 4)) by {
                    assert forall|i: int| 0 <= i < base.skip(k + 4).len() implies #[trigger] cur.skip(k + 4)[i]
                        == base.skip(k + 4)[i] by {
                        assert(base.skip(k + 4)[i] == base.skip(k)[i + 4]);
                        assert(cur.skip(k + 4)[i] == cur.skip(k)[i + 4]);
                    }
                }
            }
            x = x + 1;
        }
        proof {
            assert((y * w + w) * 4 == (y + 1) * w * 4) by (nonlinear_arith);
        }
        y = y + 1;
    }
    proof {
        lemma_canvas_is_raster(*img, w as int, h as int, color);
    }
}

/// Pixel (x, y) of a raster is the color that it was drawn with.
pub proof fn lemma_rgba_pixel_of_raster(w: int, h: int, color: spec_fn(int, int) -> [u8; 4], x: int, y: int)
    requires
        0 <= x < w,
        0 <= y < h,
    ensures
        rgba_pixel(raster(w, h, color), w, x, y) == color(x, y),
{
    lemma_raster_pixel(w, h, color, x, y, 0);
    lemma_raster_pixel(w, h, color, x, y, 1);
    lemma_raster_pixel(w, h, color, x, y, 2);
    lemma_raster_pixel(w, h, color, x, y, 3);
    assert(rgba_pixel(raster(w, h, color), w, x, y) =~= color(x, y));
}

/// The logo overlay changes only the logo's square and a two-pixel ring around it: every
/// pixel of the composite outside the square widened by two pixels on each side is the base
/// image's own pixel; when the ring is drawn (the logo sits more than two pixels from the
/// edge), the ring is white, as are the transparent logo pixels; and every logo pixel
/// with nonzero alpha is shown unchanged.
pub proof fn lemma_logo_overlay_pixels(
    base: Seq<u8>,
    w: int,
    h: int,
    total: int,
    logo_size: u32,
    logo: Seq<u8>,
    x: int,
    y: int,
)
    requires
        0 <= x < w,
        0 <= y < h,
    ensures
        ({
            let o = logo_offset(total, logo_size as int);
            let l = logo_size as int;
            let img = raster(w, h, logo_overlay_color(base, w, total, logo_size, logo));
            let in_logo = o <= x < o + l && o <= y < o + l;
            let in_padded = o - 2 <= x < o + l + 2 && o - 2 <= y < o + l + 2;
            let shown = in_logo && rgba_pixel(logo, l, x - o, y - o)[3] > 0;
            &&& !in_padded ==> rgba_pixel(img, w, x, y) == rgba_pixel(base, w, x, y)
            &&& o > 2 && in_padded && !shown ==> rgba_pixel(img, w, x, y) == [255u8, 255u8, 255u8, 255u8]
            &&& shown ==> rgba_pixel(img, w, x, y) == rgba_pixel(logo, l, x - o, y - o)
            &&& o <= 2 && !shown ==> rgba_pixel(img, w, x, y) == rgba_pixel(base, w, x, y)
        }),
{
    lemma_rgba_pixel_of_raster(w, h, logo_overlay_color(base, w, total, logo_size, logo), x, y);
}

/// The outcome of encoding a `w` by `h` composite: the PNG bytes or the encoder's error;
/// for images up to 128 MiB of pixel bytes, the bytes decode back to the composite.
pub open spec fn logo_png_result(r: Result<Vec<u8>, CoreError>, w: u32, h: u32, img: Seq<u8>) -> bool {
    &&& match png_encoding(w, h, img) {
        Ok(png) => r matches Ok(bytes) && bytes@ == png,
        Err(msg) => r matches Err(CoreError::PngRenderFailed(s)) && s@ == msg,
    }
    &&& match r {
        Ok(bytes) => is_png_file(bytes@) && (png_round_trips(img.len() as int) ==> image_decoding(bytes@)
            == Ok::<(u32, u32, Seq<u8>), Seq<char>>((w, h, img))),
        Err(_) => true,
    }
    &&& png_encodable(w as int, h as int) ==> r is Ok
}

/// The outcome of compositing some logo of `logo_size` by `logo_size` pixels on a decoded
/// `(width, height, bytes)` image and encoding the result: which logo is left open, as the
/// scaled logo is not fixed by its source.
pub open spec fn logo_overlay_outcome(
    r: Result<Vec<u8>, CoreError>,
    base_image: (u32, u32, Seq<u8>),
    total: int,
    logo_size: u32,
) -> bool {
    exists|logo: Seq<u8>|
        logo.len() == logo_size * logo_size * 4 && logo_png_result(
            r,
            base_image.0,
            base_image.1,
            #[trigger] overlaid(base_image, total, logo_size, logo),
        )
}

/// The RGBA bytes of a decoded `(width, height, bytes)` image with a logo composited on it.
pub open spec fn overlaid(base_image: (u32, u32, Seq<u8>), total: int, logo_size: u32, logo: Seq<u8>) -> Seq<u8> {
    let (w, h, base) = base_image;
    raster(w as int, h as int, logo_overlay_color(base, w as int, total, logo_size, logo))
}

/// Renders a QR code to PNG with a logo scaled to `logo_size` pixels composited at its
/// center over a white two-pixel ring.
///
/// This is the logo overlay once the logo ratio has been checked and turned into a pixel
/// size (a ratio of the data area, `matrix.size * module_size` pixels). The QR code is
/// rendered to PNG and decoded again, and the logo is drawn on the decoded image, which is
/// the QR raster itself for images up to 128 MiB of pixel bytes.
pub fn qr_to_png_with_logo_size(
    matrix: &QrMatrix,
    options: &QrOptions,
    logo_data: &[u8],
    logo_size: u32,
) -> (r: Result<Vec<u8>, CoreError>)
    requires
        qr_raster_fits(*matrix, *options),
        8 <= logo_size ==> logo_size <= qr_image_px(*matrix),
    ensures
        match png_encoding(qr_image_px(*matrix) as u32, qr_image_px(*matrix) as u32, qr_raster(*matrix, *options)) {
            Err(msg) => r matches Err(CoreError::PngRenderFailed(s)) && s@ == msg,
            Ok(qr_png) => {
                &&& png_round_trips(qr_image_px(*matrix) * qr_image_px(*matrix) * 4) ==> image_decoding(qr_png)
                    == Ok::<(u32, u32, Seq<u8>), Seq<char>>(
                    (qr_image_px(*matrix) as u32, qr_image_px(*matrix) as u32, qr_raster(*matrix, *options)),
                )
                &&& match image_decoding(logo_data@) {
                    Err(msg) => r matches Err(CoreError::LogoOverlayFailed(s)) && s@ == "Failed to load logo: "@ + msg,
                    Ok(_) => match image_decoding(qr_png) {
                        Err(msg) => r matches Err(CoreError::PngRenderFailed(s)) && s@ == msg,
                        Ok(decoded) => if logo_size < 8 {
                            r matches Err(CoreError::LogoOverlayFailed(s)) && s@ == "Logo size too small"@
                        } else {
                            logo_overlay_outcome(r, decoded, qr_image_px(*matrix), logo_size)
                        },
                    },
                }
            },
        },
        match r {
            Ok(bytes) => is_png_file(bytes@),
            Err(_) => true,
        },
{
    let qr_png = qr_to_png(matrix, options)?;
    let logo_img = match Canvas::decode(logo_data) {
        Ok(decoded) => decoded,
        Err(msg) => {
            let mut text = String::from_str("Failed to load logo: ");
            text.append(msg.as_str());
            return Err(CoreError::LogoOverlayFailed(text));
        },
    };
    let mut qr_img = match Canvas::decode(qr_png.as_slice()) {
        Ok(decoded) => decoded,
        Err(msg) => return Err(CoreError::PngRenderFailed(msg)),
    };
    if logo_size < 8 {
        return Err(CoreError::LogoOverlayFailed(String::from_str("Logo size too small")));
    }
    let total_px = matrix.pixel_size();
    proof {
        assert(logo_size * logo_size * 4 <= total_px * total_px * 4) by (nonlinear_arith)
            requires
                logo_size <= total_px,
        ;
    }
    let logo = logo_img.resized(logo_size);
    let ghost (w, h) = canvas_size(qr_img);
    let ghost base = canvas_bytes(qr_img);
    overlay_logo(&mut qr_img, total_px, logo_size, &logo);
    let r = match qr_img.png() {
        Ok(png) => Ok(png),
        Err(msg) => Err(CoreError::PngRenderFailed(msg)),
    };
    assert(canvas_bytes(logo).len() == logo_size * logo_size * 4);
    assert(logo_png_result(r, w, h, overlaid((w, h, base), qr_image_px(*matrix), logo_size, canvas_bytes(logo))));
    r
}


/// Whether a QR matrix and drawing options are inside the domain of the QR renderers
/// (`qr_raster_fits`).
pub fn qr_render_fits(matrix: &QrMatrix, options: &QrOptions) -> (r: bool)
    ensures
        r == qr_raster_fits(*matrix, *options),
{
    let modules: u64 = matrix.size as u64 + 2 * matrix.options.margin as u64;
    if modules > u32::MAX as u64 {
        return false;
    }
    assert(modules * matrix.options.module_size <= 0xFFFF_FFFF * 0xFFFF_FFFF) by (nonlinear_arith)
        requires
            modules <= 0xFFFF_FFFF,
            matrix.options.module_size <= 0xFFFF_FFFF,
    ;
    let px: u64 = modules * matrix.options.module_size as u64;
    if px > u32::MAX as u64 {
        return false;
    }
    assert(px * px * 4 <= 0xFFFF_FFFF * 0xFFFF_FFFF * 4) by (nonlinear_arith)
        requires
            px <= 0xFFFF_FFFF,
    ;
    let bytes: u128 = px as u128 * px as u128 * 4;
    if bytes > usize::MAX as u128 {
        return false;
    }
    let reach: u64 = options.margin as u64 + matrix.size as u64;
    if reach > u32::MAX as u64 {
        return false;
    }
    assert(reach * options.module_size <= 0xFFFF_FFFF * 0xFFFF_FFFF) by (nonlinear_arith)
        requires
            reach <= 0xFFFF_FFFF,
            options.module_size <= 0xFFFF_FFFF,
    ;
    reach * options.module_size as u64 <= u32::MAX as u64
}

/// Whether a barcode matrix is inside the domain of the barcode renderers
/// (`barcode_raster_fits`).
pub fn barcode_render_fits(matrix: &BarcodeMatrix) -> (r: bool)
    ensures
        r == barcode_raster_fits(*matrix),
{
    assert(matrix.total_modules * matrix.module_width <= 0xFFFF_FFFF * 0xFFFF_FFFF) by (nonlinear_arith);
    let width: u64 = matrix.total_modules as u64 * matrix.module_width as u64;
    if width > u32::MAX as u64 {
        return false;
    }
    let mut sum: u64 = 0;
    let mut big = false;
    let mut i: usize = 0;
    let ghost bars = matrix.bars@;
    assert(bars.take(0) =~= Seq::<(u32, bool)>::empty());
    while i < matrix.bars.len()
        invariant
            bars == matrix.bars@,
            i <= bars.len(),
            !big ==> sum == total_width(bars.take(i as int)),
            sum <= u32::MAX,
            big ==> total_width(bars.take(i as int)) > u32::MAX,
        decreases bars.len() - i,
    {
        proof {
            assert(bars.take(i + 1).drop_last() =~= bars.take(i as int));
        }
        if !big {
            let next = sum + matrix.bars[i].0 as u64;
            if next > u32::MAX as u64 {
                big = true;
            } else {
                sum = next;
            }
        }
        i = i + 1;
    }
    proof {
        assert(bars.take(bars.len() as int) =~= bars);
    }
    if matrix.module_width != 0 {
        if big {
            proof {
                assert(total_width(bars) * matrix.module_width > u32::MAX) by (nonlinear_arith)
                    requires
                        total_width(bars) > u32::MAX,
                        matrix.module_width >= 1,
                ;
            }
            return false;
        }
        assert(sum * matrix.module_width <= 0xFFFF_FFFF * 0xFFFF_FFFF) by (nonlinear_arith)
            requires
                sum <= 0xFFFF_FFFF,
                matrix.module_width <= 0xFFFF_FFFF,
        ;
        if sum * matrix.module_width as u64 > u32::MAX as u64 {
            return false;
        }
    } else {
        assert(total_width(bars) * matrix.module_width == 0) by (nonlinear_arith)
            requires
                matrix.module_width == 0,
        ;
    }
    assert(width * matrix.height * 4 <= 0xFFFF_FFFF * 0xFFFF_FFFF * 4) by (nonlinear_arith)
        requires
            width <= 0xFFFF_FFFF,
            matrix.height <= 0xFFFF_FFFF,
    ;
    let bytes: u128 = width as u128 * matrix.height as u128 * 4;
    assert(bytes == matrix.total_modules * matrix.module_width * matrix.height * 4);
    bytes <= usize::MAX as u128
}


/// Byte `4 * x + c` of a raster row is channel `c` of pixel `x`.
pub proof fn lemma_raster_row_pixel(w: int, y: int, color: spec_fn(int, int) -> [u8; 4], x: int, c: int)
    requires
        0 <= x < w,
        0 <= c < 4,
    ensures
        raster_row(w, y, color)[x * 4 + c] == color(x, y)@[c],
    decreases w,
{
    lemma_raster_row_len(w - 1, y, color);
    if x < w - 1 {
        lemma_raster_row_pixel(w - 1, y, color, x, c);
        assert(x * 4 + c < (w - 1) * 4);
    }
}

/// Byte `4 * (y * w + x) + c` of a `w` by `h` raster is channel `c` of pixel (x, y): the
/// raster is row-major with four bytes per pixel.
pub proof fn lemma_raster_pixel(w: int, h: int, color: spec_fn(int, int) -> [u8; 4], x: int, y: int, c: int)
    requires
        0 <= x < w,
        0 <= y < h,
        0 <= c < 4,
    ensures
        raster(w, h, color)[(y * w + x) * 4 + c] == color(x, y)@[c],
    decreases h,
{
    lemma_raster_len(w, h - 1, color);
    lemma_raster_row_len(w, h - 1, color);
    assert(raster(w, h, color) == raster(w, h - 1, color) + raster_row(w, h - 1, color));
    let i = (y * w + x) * 4 + c;
    if y < h - 1 {
        lemma_raster_pixel(w, h - 1, color, x, y, c);
        assert(i < w * (h - 1) * 4) by (nonlinear_arith)
            requires
                i == (y * w + x) * 4 + c,
                0 <= x < w,
                0 <= y < h - 1,
                0 <= c < 4,
        ;
    } else {
        assert(i - w * (h - 1) * 4 == x * 4 + c) by (nonlinear_arith)
            requires
                i == (y * w + x) * 4 + c,
                y == h - 1,
        ;
        assert(i >= w * (h - 1) * 4) by (nonlinear_arith)
            requires
                i == (y * w + x) * 4 + c,
                y == h - 1,
                0 <= x,
                0 <= c,
        ;
        assert(i < w * (h - 1) * 4 + w * 4) by (nonlinear_arith)
            requires
                i - w * (h - 1) * 4 == x * 4 + c,
                x < w,
                c < 4,
        ;
        lemma_raster_row_pixel(w, y, color, x, c);
    }
}


proof fn lemma_div_range(x: int, ms: int, a: int, b: int)
    requires
        ms > 0,
        x >= 0,
    ensures
        (a * ms <= x < b * ms) <==> (a <= x / ms < b),
{
    let q = x / ms;
    assert(q * ms <= x < q * ms + ms) by (nonlinear_arith)
        requires
            ms > 0,
            q == x / ms,
    ;
    if a <= q {
        assert(a * ms <= q * ms) by (nonlinear_arith)
            requires
                a <= q,
                ms > 0,
        ;
    } else {
        assert(q * ms + ms <= a * ms) by (nonlinear_arith)
            requires
                q + 1 <= a,
                ms > 0,
        ;
    }
    if q < b {
        assert(q * ms + ms <= b * ms) by (nonlinear_arith)
            requires
                q + 1 <= b,
                ms > 0,
        ;
    } else {
        assert(b * ms <= q * ms) by (nonlinear_arith)
            requires
                b <= q,
                ms > 0,
        ;
    }
}

/// The SVG and the PNG renderings draw the same picture: a pixel of the raster is dark
/// exactly when it lies inside one of the rectangles that the SVG draws for its row of
/// modules (a run `[s, e)` of row `r` covers pixels `(margin + s) * ms <= x < (margin + e) * ms`
/// of pixel rows `(margin + r) * ms <= y < (margin + r + 1) * ms`).
pub proof fn lemma_svg_rects_match_raster(m: QrMatrix, margin: u32, ms: u32, x: int, y: int)
    requires
        ms > 0,
        x >= 0,
        y >= 0,
    ensures
        qr_pixel_dark(m, margin, ms, x, y) <==> (margin <= y / (ms as int) < margin + m.size && exists|i: int|
            0 <= i < qr_row_runs(m, y / (ms as int) - margin, 0).len() && (margin + (
            #[trigger] qr_row_runs(m, y / (ms as int) - margin, 0)[i]).0) * ms <= x < (margin + qr_row_runs(
                m,
                y / (ms as int) - margin,
                0,
            )[i].1) * ms),
{
    let row = y / (ms as int) - margin;
    let runs = qr_row_runs(m, row, 0);
    let c = x / (ms as int) - margin;
    if margin <= y / (ms as int) < margin + m.size {
        lemma_row_runs_cover(m, row, 0);
        assert forall|i: int| 0 <= i < runs.len() implies ((margin + (#[trigger] runs[i]).0) * ms <= x < (margin + runs[i].1) * ms
            <==> runs[i].0 <= c < runs[i].1) by {
            lemma_div_range(x, ms as int, margin + runs[i].0, margin + runs[i].1);
        }
        if 0 <= c < m.size {
            if module_dark(m, row, c) {
                let i = choose|i: int| 0 <= i < runs.len() && #[trigger] runs[i].0 <= c < runs[i].1;
                assert((margin + runs[i].0) * ms <= x < (margin + runs[i].1) * ms);
            }
        } else {
            if exists|i: int| 0 <= i < runs.len() && (margin + (#[trigger] runs[i]).0) * ms <= x < (margin + runs[i].1) * ms {
                let i = choose|i: int| 0 <= i < runs.len() && (margin + (#[trigger] runs[i]).0) * ms <= x < (margin + runs[i].1) * ms;
                assert(runs[i].0 <= c < runs[i].1);
                assert(0 <= runs[i].0 && runs[i].1 <= m.size);
            }
        }
    }
}


/// The SVG text of a sequence of filled rectangles, each given as (x, y, width, height) in
/// pixels, in order.
pub open spec fn rects_svg(rects: Seq<(nat, nat, nat, nat)>, fill: Seq<char>) -> Seq<char>
    decreases rects.len(),
{
    if rects.len() == 0 {
        Seq::empty()
    } else {
        svg_rect(rects[0].0, rects[0].1, rects[0].2, rects[0].3, fill) + rects_svg(rects.drop_first(), fill)
    }
}

/// Pixel (x, y) lies inside the rectangle (x, y, width, height).
pub open spec fn rect_covers(r: (nat, nat, nat, nat), x: int, y: int) -> bool {
    r.0 <= x < r.0 + r.2 && r.1 <= y < r.1 + r.3
}

/// Pixel (x, y) lies inside one of the rectangles.
pub open spec fn rects_cover(rects: Seq<(nat, nat, nat, nat)>, x: int, y: int) -> bool {
    exists|i: int| 0 <= i < rects.len() && rect_covers(#[trigger] rects[i], x, y)
}

proof fn lemma_rects_svg_concat(a: Seq<(nat, nat, nat, nat)>, b: Seq<(nat, nat, nat, nat)>, fill: Seq<char>)
    ensures
        rects_svg(a + b, fill) == rects_svg(a, fill) + rects_svg(b, fill),
    decreases a.len(),
{
    if a.len() == 0 {
        assert(a + b =~= b);
    } else {
        lemma_rects_svg_concat(a.drop_first(), b, fill);
        assert((a + b).drop_first() =~= a.drop_first() + b);
        assert((a + b)[0] == a[0]);
    }
}

proof fn lemma_rects_cover_concat(a: Seq<(nat, nat, nat, nat)>, b: Seq<(nat, nat, nat, nat)>, x: int, y: int)
    ensures
        rects_cover(a + b, x, y) <==> (rects_cover(a, x, y) || rects_cover(b, x, y)),
{
    if rects_cover(a + b, x, y) {
        let i = choose|i: int| 0 <= i < (a + b).len() && rect_covers(#[trigger] (a + b)[i], x, y);
        if i < a.len() {
            assert(a[i] == (a + b)[i]);
        } else {
            assert(b[i - a.len()] == (a + b)[i]);
        }
    }
    if rects_cover(a, x, y) {
        let i = choose|i: int| 0 <= i < a.len() && rect_covers(#[trigger] a[i], x, y);
        assert((a + b)[i] == a[i]);
    }
    if rects_cover(b, x, y) {
        let i = choose|i: int| 0 <= i < b.len() && rect_covers(#[trigger] b[i], x, y);
        assert((a + b)[a.len() + i] == b[i]);
    }
}

/// The rectangles drawn for the dark runs of row `row`.
pub open spec fn run_rects(runs: Seq<(int, int)>, margin: u32, ms: u32, row: int) -> Seq<(nat, nat, nat, nat)> {
    Seq::new(
        runs.len(),
        |i: int|
            (
                ((margin + runs[i].0) * ms) as nat,
                ((margin + row) * ms) as nat,
                ((runs[i].1 - runs[i].0) * ms) as nat,
                ms as nat,
            ),
    )
}

proof fn lemma_run_rects_svg(runs: Seq<(int, int)>, margin: u32, ms: u32, fill: Seq<char>, row: int)
    ensures
        rects_svg(run_rects(runs, margin, ms, row), fill) == rects_of_runs(runs, margin, ms, fill, row),
    decreases runs.len(),
{
    if runs.len() > 0 {
        lemma_run_rects_svg(runs.drop_first(), margin, ms, fill, row);
        assert(run_rects(runs, margin, ms, row).drop_first() =~= run_rects(runs.drop_first(), margin, ms, row));
    }
}

/// The rectangles of the first `rows` rows of a QR drawing, row by row.
pub open spec fn qr_rect_list(m: QrMatrix, margin: u32, ms: u32, rows: int) -> Seq<(nat, nat, nat, nat)>
    decreases rows,
{
    if rows <= 0 {
        Seq::empty()
    } else {
        qr_rect_list(m, margin, ms, rows - 1) + run_rects(qr_row_runs(m, rows - 1, 0), margin, ms, rows - 1)
    }
}

proof fn lemma_qr_rect_list_svg(m: QrMatrix, margin: u32, ms: u32, fill: Seq<char>, rows: int)
    requires
        rows >= 0,
    ensures
        rects_svg(qr_rect_list(m, margin, ms, rows), fill) == qr_rows_rects(m, margin, ms, fill, rows),
    decreases rows,
{
    if rows > 0 {
        lemma_qr_rect_list_svg(m, margin, ms, fill, rows - 1);
        lemma_rects_svg_concat(
            qr_rect_list(m, margin, ms, rows - 1),
            run_rects(qr_row_runs(m, rows - 1, 0), margin, ms, rows - 1),
            fill,
        );
        lemma_run_rects_svg(qr_row_runs(m, rows - 1, 0), margin, ms, fill, rows - 1);
        lemma_row_rects_are_runs(m, margin, ms, fill, rows - 1, 0);
    }
}

proof fn lemma_run_rects_cover(m: QrMatrix, margin: u32, ms: u32, row: int, x: int, y: int)
    requires
        ms > 0,
        0 <= row,
        x >= 0,
        y >= 0,
    ensures
        rects_cover(run_rects(qr_row_runs(m, row, 0), margin, ms, row), x, y) <==> (y / (ms as int) == margin + row
            && exists|i: int|
            0 <= i < qr_row_runs(m, row, 0).len() && (margin + (#[trigger] qr_row_runs(m, row, 0)[i]).0) * ms <= x
                < (margin + qr_row_runs(m, row, 0)[i].1) * ms),
{
    let runs = qr_row_runs(m, row, 0);
    let rects = run_rects(runs, margin, ms, row);
    lemma_row_runs_cover(m, row, 0);
    lemma_div_range(y, ms as int, margin + row, margin + row + 1);
    assert((margin + row + 1) * ms == (margin + row) * ms + ms) by (nonlinear_arith);
    assert forall|i: int| 0 <= i < runs.len() implies (rect_covers(#[trigger] rects[i], x, y) <==> (y / (ms as int)
        == margin + row && (margin + runs[i].0) * ms <= x < (margin + runs[i].1) * ms)) by {
        let (s, e) = runs[i];
        assert(0 <= s < e);
        assert((margin + s) * ms + (e - s) * ms == (margin + e) * ms) by (nonlinear_arith);
        assert((margin + s) * ms >= 0) by (nonlinear_arith)
            requires
                margin + s >= 0,
                ms > 0,
        ;
        assert((e - s) * ms >= 0) by (nonlinear_arith)
            requires
                e - s >= 0,
                ms > 0,
        ;
        assert((margin + row) * ms >= 0) by (nonlinear_arith)
            requires
                margin + row >= 0,
                ms > 0,
        ;
    }
    if rects_cover(rects, x, y) {
        let i = choose|i: int| 0 <= i < rects.len() && rect_covers(#[trigger] rects[i], x, y);
        assert((margin + runs[i].0) * ms <= x < (margin + runs[i].1) * ms);
    }
    if y / (ms as int) == margin + row && exists|i: int|
        0 <= i < runs.len() && (margin + (#[trigger] runs[i]).0) * ms <= x < (margin + runs[i].1) * ms {
        let i = choose|i: int| 0 <= i < runs.len() && (margin + (#[trigger] runs[i]).0) * ms <= x < (margin + runs[i].1)
            * ms;
        assert(rect_covers(rects[i], x, y));
    }
}

proof fn lemma_qr_rect_list_cover(m: QrMatrix, margin: u32, ms: u32, rows: int, x: int, y: int)
    requires
        ms > 0,
        0 <= rows,
        x >= 0,
        y >= 0,
    ensures
        rects_cover(qr_rect_list(m, margin, ms, rows), x, y) <==> (margin <= y / (ms as int) < margin + rows
            && exists|i: int|
            0 <= i < qr_row_runs(m, y / (ms as int) - margin, 0).len() && (margin + (
            #[trigger] qr_row_runs(m, y / (ms as int) - margin, 0)[i]).0) * ms <= x < (margin + qr_row_runs(
                m,
                y / (ms as int) - margin,
                0,
            )[i].1) * ms),
    decreases rows,
{
    if rows > 0 {
        lemma_qr_rect_list_cover(m, margin, ms, rows - 1, x, y);
        lemma_rects_cover_concat(
            qr_rect_list(m, margin, ms, rows - 1),
            run_rects(qr_row_runs(m, rows - 1, 0), margin, ms, rows - 1),
            x,
            y,
        );
        lemma_run_rects_cover(m, margin, ms, rows - 1, x, y);
    } else {
        assert(qr_rect_list(m, margin, ms, rows) =~= Seq::<(nat, nat, nat, nat)>::empty());
    }
}

/// The SVG of a QR code is the drawing's frame, its background, and rectangles in the
/// foreground color that cover exactly the pixels that the PNG raster paints dark: those
/// of the dark modules, placed after `options.margin` modules and scaled by
/// `options.module_size`.
pub proof fn lemma_qr_svg_draws_dark_pixels(m: QrMatrix, options: QrOptions)
    requires
        options.module_size > 0,
    ensures
        exists|rects: Seq<(nat, nat, nat, nat)>|
            {
                let px = (image_modules(m.size, options.margin) * options.module_size) as nat;
                &&& qr_svg(m, options) == svg_open(px, px) + svg_background(px, px, svg_fill(options.bg_color))
                    + #[trigger] rects_svg(rects, svg_fill(options.fg_color)) + svg_close()
                &&& forall|x: int, y: int|
                    x >= 0 && y >= 0 ==> (rects_cover(rects, x, y) <==> qr_pixel_dark(
                        m,
                        options.margin,
                        options.module_size,
                        x,
                        y,
                    ))
            },
{
    let rects = qr_rect_list(m, options.margin, options.module_size, m.size as int);
    lemma_qr_rect_list_svg(m, options.margin, options.module_size, svg_fill(options.fg_color), m.size as int);
    assert forall|x: int, y: int| x >= 0 && y >= 0 implies (rects_cover(rects, x, y) <==> qr_pixel_dark(
        m,
        options.margin,
        options.module_size,
        x,
        y,
    )) by {
        lemma_qr_rect_list_cover(m, options.margin, options.module_size, m.size as int, x, y);
        lemma_svg_rects_match_raster(m, options.margin, options.module_size, x, y);
    }
}

/// The rectangles of the dark bars, each spanning the full height `h`.
pub open spec fn bar_rect_list(bars: Seq<(u32, bool)>, mw: u32, h: u32) -> Seq<(nat, nat, nat, nat)>
    decreases bars.len(),
{
    if bars.len() == 0 {
        Seq::empty()
    } else {
        let prefix = bars.drop_last();
        let (w, dark) = bars.last();
        bar_rect_list(prefix, mw, h) + if dark {
            seq![((total_width(prefix) * mw) as nat, 0nat, (w * mw) as nat, h as nat)]
        } else {
            Seq::empty()
        }
    }
}

proof fn lemma_bar_rect_list(bars: Seq<(u32, bool)>, mw: u32, h: u32, fill: Seq<char>, x: int, y: int)
    requires
        x >= 0,
        y >= 0,
    ensures
        rects_svg(bar_rect_list(bars, mw, h), fill) == bar_rects(bars, mw, h, fill),
        rects_cover(bar_rect_list(bars, mw, h), x, y) <==> (y < h && bar_dark_at(bars, mw, x)),
    decreases bars.len(),
{
    if bars.len() > 0 {
        let prefix = bars.drop_last();
        let (w, dark) = bars.last();
        lemma_bar_rect_list(prefix, mw, h, fill, x, y);
        let last: Seq<(nat, nat, nat, nat)> = if dark {
            seq![((total_width(prefix) * mw) as nat, 0nat, (w * mw) as nat, h as nat)]
        } else {
            Seq::empty()
        };
        lemma_rects_svg_concat(bar_rect_list(prefix, mw, h), last, fill);
        lemma_rects_cover_concat(bar_rect_list(prefix, mw, h), last, x, y);
        assert(total_width(prefix) * mw >= 0) by (nonlinear_arith);
        assert(w * mw >= 0) by (nonlinear_arith);
        if dark {
            assert(last.drop_first() =~= Seq::<(nat, nat, nat, nat)>::empty());
            assert(rects_svg(last.drop_first(), fill) =~= Seq::<char>::empty());
            assert(last[0] == ((total_width(prefix) * mw) as nat, 0nat, (w * mw) as nat, h as nat));
            assert(rects_svg(last, fill) =~= svg_rect(
                (total_width(prefix) * mw) as nat,
                0,
                (w * mw) as nat,
                h as nat,
                fill,
            ));
            if rects_cover(last, x, y) {
                assert(rect_covers(last[0], x, y));
            }
            if y < h && total_width(prefix) * mw <= x < total_width(prefix) * mw + w * mw {
                assert(rect_covers(last[0], x, y));
            }
        } else {
            assert(rects_svg(last, fill) =~= Seq::<char>::empty());
            assert(rects_svg(bar_rect_list(bars, mw, h), fill) =~= rects_svg(bar_rect_list(prefix, mw, h), fill));
            assert(bar_rects(bars, mw, h, fill) =~= bar_rects(prefix, mw, h, fill));
        }
    } else {
        assert(bar_rect_list(bars, mw, h) =~= Seq::<(nat, nat, nat, nat)>::empty());
    }
}

/// The SVG of a barcode is the drawing's frame, its background, and rectangles in the
/// foreground color that cover exactly the pixels that the PNG raster paints dark: every
/// row of the full image height in the columns of the dark bars.
pub proof fn lemma_barcode_svg_draws_dark_bars(m: BarcodeMatrix)
    ensures
        exists|rects: Seq<(nat, nat, nat, nat)>|
            {
                let w = (m.total_modules * m.module_width) as nat;
                &&& barcode_svg(m) == svg_open(w, m.height as nat) + svg_background(w, m.height as nat, svg_fill(m.bg_color))
                    + #[trigger] rects_svg(rects, svg_fill(m.fg_color)) + svg_close()
                &&& forall|x: int, y: int|
                    x >= 0 && y >= 0 ==> (rects_cover(rects, x, y) <==> (y < m.height && bar_dark_at(
                        m.bars@,
                        m.module_width,
                        x,
                    )))
            },
{
    let rects = bar_rect_list(m.bars@, m.module_width, m.height);
    lemma_bar_rect_list(m.bars@, m.module_width, m.height, svg_fill(m.fg_color), 0, 0);
    assert forall|x: int, y: int| x >= 0 && y >= 0 implies (rects_cover(rects, x, y) <==> (y < m.height && bar_dark_at(
        m.bars@,
        m.module_width,
        x,
    ))) by {
        lemma_bar_rect_list(m.bars@, m.module_width, m.height, svg_fill(m.fg_color), x, y);
    }
}

} // verus!
