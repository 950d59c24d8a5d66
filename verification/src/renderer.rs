//! Renders a [`BeadPattern`] + [`Palette`] into in-memory PNG bytes: a
//! `render_preview` (the finished bead-art look, no coordinates) and a
//! `render_grid` (row/column numbers and grid lines for laying out beads).
//!
//! Color comes only from `BeadPattern.cells`: the cell at row-major position
//! `pos` is painted `palette.colors[cells[pos]].rgb`, or the magenta
//! "missing" sentinel when `cells` is too short or the index is out of the
//! palette's range.

use vstd::prelude::*;
use crate::canvas::{covers, fill_rect, lemma_painted_push, no_shape, painted, shows, Shape};
use crate::error::BeadError;
use crate::image::RgbImage;
use crate::models::BeadPattern;
use crate::palette::Palette;
use crate::text::{digit_values, digits_of, lemma_digits_len_le, lemma_digits_len_mono, lemma_digits_len_u32, lemma_digits_of};
use ::image::codecs::png::{CompressionType, FilterType as PngFilter, PngEncoder};
use ::image::{ExtendedColorType, ImageEncoder};

verus! {

/// The sentinel color of an unresolvable cell (magenta).
pub open spec fn missing_color() -> [u8; 3] {
    [255u8, 0, 255]
}

/// Options controlling how a pattern is rendered.
#[derive(Debug, Clone, Copy, PartialEq, Eq, Structural)]
pub struct RenderOptions {
    /// Pixel edge length of each rendered bead (default 10; `> 0` for the
    /// preview, `>= 5` for the grid).
    pub cell_size: u32,
    /// Bead shape.
    pub shape: BeadShape,
}

/// The bead glyph shape.
#[non_exhaustive]
#[derive(Debug, Clone, Copy, PartialEq, Eq, Structural)]
pub enum BeadShape {
    /// A solid filled square.
    Square,
}

impl Default for RenderOptions {
    /// Cell size 10, square beads.
    fn default() -> (o: RenderOptions)
        ensures
            o.cell_size == 10,
            o.shape == BeadShape::Square,
    {
        RenderOptions { cell_size: 10, shape: BeadShape::Square }
    }
}

/// The PNG file (8-bit RGB, non-interlaced, fast compression, adaptive
/// filtering) that encodes a `width × height` image with these row-major
/// pixels.
pub uninterp spec fn png_encoding(width: u32, height: u32, pixels: Seq<[u8; 3]>) -> Seq<u8>;

/// `PngEncoder::new_with_quality(.., Fast, Adaptive).write_image(.., Rgb8)`:
/// encode `img` as an 8-bit RGB, non-interlaced PNG in memory. Stated: the
/// bytes are the PNG encoding of the image's size and pixels, and the encode
/// succeeds exactly when both dimensions are non-zero (the png encoder
/// refuses a zero width or height; the buffer length always matches, and
/// writing into a `Vec` cannot fail). An encoder error is passed through.
#[verifier::external_body]
fn encode_png(img: &RgbImage) -> (r: Result<Vec<u8>, ::image::ImageError>)
    requires
        img.wf(),
    ensures
        r matches Ok(bytes) ==> bytes@ == png_encoding(img.width, img.height, img.pixels@),
        r is Ok <==> (img.width > 0 && img.height > 0),
{
    let mut buf = Vec::new();
    let enc = PngEncoder::new_with_quality(&mut buf, CompressionType::Fast, PngFilter::Adaptive);
    match enc.write_image(img.pixels.as_flattened(), img.width, img.height, ExtendedColorType::Rgb8) {
        Ok(()) => Ok(buf),
        Err(e) => Err(e),
    }
}

/// Encode a painted image, mapping an encoder failure to `ImageEncode`.
fn encode(img: &RgbImage) -> (r: Result<Vec<u8>, BeadError>)
    requires
        img.wf(),
    ensures
        match r {
            Ok(bytes) => bytes@ == png_encoding(img.width, img.height, img.pixels@),
            Err(e) => e is ImageEncode,
        },
        r is Ok <==> (img.width > 0 && img.height > 0),
{
    match encode_png(img) {
        Ok(bytes) => Ok(bytes),
        Err(source) => Err(BeadError::ImageEncode { source }),
    }
}

/// The color of the cell at row-major position `pos`: its palette color, or
/// the missing sentinel when there is no such cell or no such palette index.
pub open spec fn cell_color(grid: &BeadPattern, palette: &Palette, pos: int) -> [u8; 3] {
    if 0 <= pos < grid.cells@.len() && (grid.cells@[pos] as int) < palette.colors@.len() {
        palette.colors@[grid.cells@[pos] as int].rgb
    } else {
        missing_color()
    }
}

fn cell_rgb(grid: &BeadPattern, palette: &Palette, pos: u64) -> (c: [u8; 3])
    ensures
        c == cell_color(grid, palette, pos as int),
{
    if pos < grid.cells.len() as u64 {
        let idx = grid.cells[pos as usize] as usize;
        if idx < palette.colors.len() {
            return palette.colors[idx].rgb;
        }
    }
    [255u8, 0, 255]
}

/// Why `render_preview` rejects a pattern and cell size, if it does; guards
/// are checked in this order.
pub open spec fn preview_failure(width: u32, height: u32, cell: u32) -> Option<Seq<char>> {
    let out_w = width as int * cell as int;
    let out_h = height as int * cell as int;
    if width == 0 {
        Some("pattern width is 0"@)
    } else if height == 0 {
        Some("pattern height is 0"@)
    } else if cell == 0 {
        Some("cell_size is 0"@)
    } else if out_w > u32::MAX || out_h > u32::MAX {
        Some("preview output dimensions exceed u32"@)
    } else if 3 * out_w * out_h > isize::MAX {
        Some("preview output buffer exceeds isize::MAX"@)
    } else {
        None
    }
}

/// The preview's pixels, row-major: pixel `(x, y)` of the
/// `(width·cell) × (height·cell)` image is the color of cell
/// `(x / cell, y / cell)`.
pub open spec fn preview_pixels(grid: &BeadPattern, palette: &Palette, cell: u32) -> Seq<[u8; 3]> {
    let out_w = grid.width as int * cell as int;
    let out_h = grid.height as int * cell as int;
    Seq::new((out_w * out_h) as nat, |i: int| preview_pixel(grid, palette, cell, i))
}

/// The preview's pixel at row-major position `i`.
pub open spec fn preview_pixel(grid: &BeadPattern, palette: &Palette, cell: u32, i: int) -> [u8; 3] {
    let out_w = grid.width as int * cell as int;
    cell_color(grid, palette, (i / out_w) / cell as int * grid.width as int + (i % out_w) / cell as int)
}

/// Paint the preview image: each cell is a `cell × cell` solid square of its
/// color, row-major, no margins.
pub fn paint_preview(grid: &BeadPattern, palette: &Palette, cell: u32) -> (img: RgbImage)
    requires
        preview_failure(grid.width, grid.height, cell) is None,
    ensures
        img.wf(),
        img.width == grid.width as int * cell as int,
        img.height == grid.height as int * cell as int,
        img.pixels@ == preview_pixels(grid, palette, cell),
{
    let w = grid.width as u64;
    let c = cell as u64;
    let out_w = w * c;
    let out_h = grid.height as u64 * c;
    proof {
        assert(out_w * out_h <= 3 * out_w * out_h) by (nonlinear_arith);
    }
    let mut pixels: Vec<[u8; 3]> = Vec::with_capacity((out_w * out_h) as usize);
    let mut py: u64 = 0;
    while py < out_h
        invariant
            w == grid.width,
            c == cell,
            c > 0,
            out_w == w * c,
            out_h == grid.height as int * c,
            out_w <= u32::MAX,
            out_h <= u32::MAX,
            0 <= py <= out_h,
            pixels@.len() == py * out_w,
            forall|i: int| 0 <= i < pixels@.len() ==> #[trigger] pixels@[i] == preview_pixel(grid, palette, cell, i),
        decreases out_h - py,
    {
        let mut px: u64 = 0;
        while px < out_w
            invariant
                w == grid.width,
                c == cell,
                c > 0,
                out_w == w * c,
                out_h == grid.height as int * c,
                out_w <= u32::MAX,
                out_h <= u32::MAX,
                0 <= py < out_h,
                0 <= px <= out_w,
                pixels@.len() == py * out_w + px,
                forall|i: int| 0 <= i < pixels@.len() ==> #[trigger] pixels@[i] == preview_pixel(grid, palette, cell, i),
            decreases out_w - px,
        {
            proof {
                assert((py / c) * w <= 0xffff_ffff * 0xffff_ffff) by (nonlinear_arith)
                    requires py / c <= 0xffff_ffff, w <= 0xffff_ffff;
                vstd::arithmetic::div_mod::lemma_fundamental_div_mod_converse(
                    py as int * out_w as int + px as int, out_w as int, py as int, px as int);
            }
            let color = cell_rgb(grid, palette, (py / c) * w + px / c);
            let ghost before = pixels@;
            pixels.push(color);
            proof {
                let i: int = py as int * out_w as int + px as int;
                assert(i / out_w as int == py as int);
                assert(i % out_w as int == px as int);
                assert(color == cell_color(grid, palette, (py as int / c as int) * w as int + px as int / c as int));
                assert(color == preview_pixel(grid, palette, cell, i));
                assert forall|k: int| 0 <= k < pixels@.len() implies #[trigger] pixels@[k] == preview_pixel(grid, palette, cell, k) by {
                    if k < before.len() {
                        assert(pixels@[k] == before[k]);
                    }
                }
            }
            px += 1;
        }
        proof {
            crate::geom::lemma_next_row(out_w as int, py as int);
        }
        py += 1;
    }
    let img = RgbImage { width: out_w as u32, height: out_h as u32, pixels };
    proof {
        assert(out_h * out_w == out_w * out_h) by (nonlinear_arith);
        assert(img.pixels@ =~= preview_pixels(grid, palette, cell));
    }
    img
}

/// Render `grid` into an in-memory PNG of the finished bead-art look (no
/// coordinates, no grid lines, no margin): each bead is a
/// `cell_size × cell_size` solid square of its palette color, output size
/// `(width·cell_size) × (height·cell_size)`. Unresolvable cells (a too-short
/// `cells`, an index out of the palette's range) render as the missing
/// sentinel, never a panic. Degenerate or oversized requests are rejected
/// with `InvalidImage` (see [`preview_failure`]); every other request gives
/// the PNG of the painted preview.
pub fn render_preview(grid: &BeadPattern, palette: &Palette, opts: &RenderOptions)
    -> (r: Result<Vec<u8>, BeadError>)
    ensures
        match preview_failure(grid.width, grid.height, opts.cell_size) {
            Some(reason) => r matches Err(BeadError::InvalidImage { reason: e }) && e@ == reason,
            None => r matches Ok(bytes) && bytes@ == png_encoding(
                (grid.width * opts.cell_size) as u32,
                (grid.height * opts.cell_size) as u32,
                preview_pixels(grid, palette, opts.cell_size),
            ),
        },
{
    if grid.width == 0 {
        return Err(BeadError::InvalidImage { reason: String::from_str("pattern width is 0") });
    }
    if grid.height == 0 {
        return Err(BeadError::InvalidImage { reason: String::from_str("pattern height is 0") });
    }
    if opts.cell_size == 0 {
        return Err(BeadError::InvalidImage { reason: String::from_str("cell_size is 0") });
    }
    proof {
        assert(grid.width as int * opts.cell_size as int <= 0xffff_ffff * 0xffff_ffff) by (nonlinear_arith)
            requires grid.width <= 0xffff_ffff, opts.cell_size <= 0xffff_ffff;
        assert(grid.height as int * opts.cell_size as int <= 0xffff_ffff * 0xffff_ffff) by (nonlinear_arith)
            requires grid.height <= 0xffff_ffff, opts.cell_size <= 0xffff_ffff;
    }
    let out_w = grid.width as u128 * opts.cell_size as u128;
    let out_h = grid.height as u128 * opts.cell_size as u128;
    if out_w > u32::MAX as u128 || out_h > u32::MAX as u128 {
        return Err(BeadError::InvalidImage {
            reason: String::from_str("preview output dimensions exceed u32"),
        });
    }
    proof {
        assert(3 * out_w * out_h <= 3 * 0xffff_ffff * 0xffff_ffff) by (nonlinear_arith)
            requires out_w <= 0xffff_ffff, out_h <= 0xffff_ffff;
    }
    if 3 * out_w * out_h > isize::MAX as u128 {
        return Err(BeadError::InvalidImage {
            reason: String::from_str("preview output buffer exceeds isize::MAX"),
        });
    }
    let img = paint_preview(grid, palette, opts.cell_size);
    proof {
        assert(img.width > 0 && img.height > 0) by (nonlinear_arith)
            requires
                img.width == grid.width as int * opts.cell_size as int,
                img.height == grid.height as int * opts.cell_size as int,
                grid.width > 0,
                grid.height > 0,
                opts.cell_size > 0,
        ;
    }
    encode(&img)
}

} // verus!

verus! {

/// Grid background color (margins).
pub open spec fn background_color() -> [u8; 3] {
    [255u8, 255, 255]
}

/// Thin per-cell grid line color.
pub open spec fn thin_color() -> [u8; 3] {
    [200u8, 200, 200]
}

/// Bold (every 10th boundary) separator line color.
pub open spec fn bold_color() -> [u8; 3] {
    [120u8, 120, 120]
}

/// Coordinate label color.
pub open spec fn text_color() -> [u8; 3] {
    [0u8, 0, 0]
}

/// Label glyph scale for a cell size: `max(1, cell / 5)`.
pub open spec fn grid_scale(cell: int) -> int {
    if cell / 5 > 1 { cell / 5 } else { 1 }
}

/// Number of decimal digits of `n`.
pub open spec fn num_digits(n: nat) -> nat {
    digits_of(n).len()
}

/// Pixel width of a `d`-digit label: `d` glyphs `3·scale` wide with
/// `scale`-wide gaps.
pub open spec fn label_width(d: int, scale: int) -> int {
    d * 4 * scale - scale
}

/// Top margin of the grid image: room for the column labels when the
/// pattern is at least 10 cells wide.
pub open spec fn grid_margin_top(width: int, cell: int) -> int {
    if width >= 10 { 7 * grid_scale(cell) } else { 0 }
}

/// Left margin of the grid image: room for the widest row label (plus a pad
/// on each side) when the pattern is at least 10 cells high.
pub open spec fn grid_margin_left(height: int, cell: int) -> int {
    if height >= 10 {
        label_width(num_digits(((height / 10) * 10) as nat) as int, grid_scale(cell)) + 2 * grid_scale(cell)
    } else {
        0
    }
}

/// Grid image width.
pub open spec fn grid_out_w(width: int, height: int, cell: int) -> int {
    grid_margin_left(height, cell) + width * cell
}

/// Grid image height.
pub open spec fn grid_out_h(width: int, height: int, cell: int) -> int {
    grid_margin_top(width, cell) + height * cell
}

/// Why `render_grid` rejects a pattern and cell size, if it does; guards are
/// checked in this order.
pub open spec fn grid_failure(width: u32, height: u32, cell: u32) -> Option<Seq<char>> {
    if width == 0 {
        Some("pattern width is 0"@)
    } else if height == 0 {
        Some("pattern height is 0"@)
    } else if cell == 0 {
        Some("cell_size is 0"@)
    } else if cell < 5 {
        Some("cell_size must be >= 5 for grid"@)
    } else {
        geometry_failure(width, height, cell)
    }
}

/// Why the grid geometry of a non-empty pattern and non-zero cell size does
/// not fit, if it does not: an output dimension beyond `u32`, then an output
/// buffer beyond `isize::MAX` bytes.
pub open spec fn geometry_failure(width: u32, height: u32, cell: u32) -> Option<Seq<char>> {
    let out_w = grid_out_w(width as int, height as int, cell as int);
    let out_h = grid_out_h(width as int, height as int, cell as int);
    if out_w > u32::MAX || out_h > u32::MAX {
        Some("grid output dimensions exceed u32"@)
    } else if 3 * out_w * out_h > isize::MAX {
        Some("grid output buffer exceeds isize::MAX"@)
    } else {
        None
    }
}

/// The grid image before lines and labels: the margins are background, and
/// the cell area holds each cell's color as a `cell × cell` square.
pub open spec fn grid_background(grid: &BeadPattern, palette: &Palette, cell: int) -> spec_fn(int, int) -> [u8; 3] {
    let ml = grid_margin_left(grid.height as int, cell);
    let mt = grid_margin_top(grid.width as int, cell);
    |x: int, y: int| if x >= ml && y >= mt {
        cell_color(grid, palette, ((y - mt) / cell) * grid.width as int + (x - ml) / cell)
    } else {
        background_color()
    }
}

/// `min(a, b)`.
pub open spec fn min_int(a: int, b: int) -> int {
    if a < b { a } else { b }
}

/// Line width of the thin (1) or bold (2) lines.
pub open spec fn line_width(bold: bool) -> int {
    if bold { 2 } else { 1 }
}

/// Column `off` of the vertical line at boundary `bx`, drawn in the thin pass
/// (boundaries not divisible by 10) or the bold pass (divisible by 10), down
/// the cell area; the rightmost boundary is clamped onto the last column.
pub open spec fn vline_shape(width: int, height: int, cell: int, bx: int, off: int, bold: bool) -> Shape {
    let ml = grid_margin_left(height, cell);
    let mt = grid_margin_top(width, cell);
    let out_w = grid_out_w(width, height, cell);
    let out_h = grid_out_h(width, height, cell);
    if (bx % 10 == 0) == bold {
        (min_int(ml + bx * cell + off, out_w - 1), mt, 1, out_h - mt, if bold { bold_color() } else { thin_color() })
    } else {
        no_shape()
    }
}

/// Row `off` of the horizontal line at boundary `by`, across the cell area;
/// the bottom boundary is clamped onto the last row.
pub open spec fn hline_shape(width: int, height: int, cell: int, by: int, off: int, bold: bool) -> Shape {
    let ml = grid_margin_left(height, cell);
    let mt = grid_margin_top(width, cell);
    let out_w = grid_out_w(width, height, cell);
    let out_h = grid_out_h(width, height, cell);
    if (by % 10 == 0) == bold {
        (ml, min_int(mt + by * cell + off, out_h - 1), out_w - ml, 1, if bold { bold_color() } else { thin_color() })
    } else {
        no_shape()
    }
}

/// The vertical lines of one pass, boundary by boundary (`0..=width`), each
/// boundary `line_width(bold)` columns.
pub open spec fn vlines(width: int, height: int, cell: int, bold: bool) -> Seq<Shape> {
    let lw = line_width(bold);
    Seq::new(((width + 1) * lw) as nat, |j: int| vline_shape(width, height, cell, j / lw, j % lw, bold))
}

/// The horizontal lines of one pass, boundary by boundary (`0..=height`).
pub open spec fn hlines(width: int, height: int, cell: int, bold: bool) -> Seq<Shape> {
    let lw = line_width(bold);
    Seq::new(((height + 1) * lw) as nat, |j: int| hline_shape(width, height, cell, j / lw, j % lw, bold))
}

/// Exec copy of the grid geometry, all values validated to fit.
struct GridGeom {
    width: u64,
    height: u64,
    cell: u64,
    scale: u64,
    pad: u64,
    margin_left: u64,
    margin_top: u64,
    out_w: u64,
    out_h: u64,
}

impl GridGeom {
    /// The fields hold the geometry of a `width × height` pattern at `cell`,
    /// and the output fits the guards.
    spec fn is_for(&self, width: u32, height: u32, cell: u32) -> bool {
        &&& self.width == width
        &&& self.height == height
        &&& self.cell == cell
        &&& cell > 0
        &&& width > 0
        &&& height > 0
        &&& self.scale == grid_scale(cell as int)
        &&& self.pad == self.scale
        &&& self.margin_left == grid_margin_left(height as int, cell as int)
        &&& self.margin_top == grid_margin_top(width as int, cell as int)
        &&& self.out_w == grid_out_w(width as int, height as int, cell as int)
        &&& self.out_h == grid_out_h(width as int, height as int, cell as int)
        &&& self.out_w <= u32::MAX
        &&& self.out_h <= u32::MAX
        &&& self.margin_left + self.cell <= self.out_w
        &&& self.margin_top + self.cell <= self.out_h
        &&& 3 * self.out_w * self.out_h <= isize::MAX
    }
}

/// Paint the lines of one direction of one pass over `img`.
fn draw_lines(img: &mut RgbImage, g: &GridGeom, vertical: bool, bold: bool, Ghost(shapes): Ghost<Seq<Shape>>,
    Ghost(base): Ghost<spec_fn(int, int) -> [u8; 3]>, Ghost(w): Ghost<u32>, Ghost(h): Ghost<u32>, Ghost(c): Ghost<u32>)
    requires
        g.is_for(w, h, c),
        c >= 5,
        shows(old(img), shapes, base),
        old(img).width == g.out_w,
        old(img).height == g.out_h,
    ensures
        shows(final(img), shapes + if vertical { vlines(w as int, h as int, c as int, bold) } else { hlines(w as int, h as int, c as int, bold) }, base),
        final(img).width == g.out_w,
        final(img).height == g.out_h,
{
    let ghost lines = if vertical { vlines(w as int, h as int, c as int, bold) } else { hlines(w as int, h as int, c as int, bold) };
    let lw: u64 = if bold { 2 } else { 1 };
    let count = if vertical { g.width } else { g.height };
    let ghost mut done: Seq<Shape> = Seq::empty();
    let mut b: u64 = 0;
    while b <= count
        invariant
            g.is_for(w, h, c),
            c >= 5,
            img.width == g.out_w,
            img.height == g.out_h,
            lw == line_width(bold),
            count == if vertical { g.width } else { g.height },
            0 <= b <= count + 1,
            lines == if vertical { vlines(w as int, h as int, c as int, bold) } else { hlines(w as int, h as int, c as int, bold) },
            lines.len() == (count + 1) * lw,
            done.len() == b * lw,
            forall|j: int| 0 <= j < done.len() ==> #[trigger] done[j] == lines[j],
            shows(img, shapes + done, base),
        decreases count + 1 - b,
    {
        let mut off: u64 = 0;
        while off < lw
            invariant
                g.is_for(w, h, c),
                c >= 5,
                img.width == g.out_w,
                img.height == g.out_h,
                lw == line_width(bold),
                count == if vertical { g.width } else { g.height },
                0 <= b <= count,
                0 <= off <= lw,
                lines == if vertical { vlines(w as int, h as int, c as int, bold) } else { hlines(w as int, h as int, c as int, bold) },
                lines.len() == (count + 1) * lw,
                done.len() == b * lw + off,
                forall|j: int| 0 <= j < done.len() ==> #[trigger] done[j] == lines[j],
                shows(img, shapes + done, base),
            decreases lw - off,
        {
            let ghost j = b * lw + off;
            proof {
                vstd::arithmetic::div_mod::lemma_fundamental_div_mod_converse(j as int, lw as int, b as int, off as int);
                assert(j < (count + 1) * lw) by (nonlinear_arith)
                    requires j == b * lw + off, off < lw, b <= count;
            }
            let ghost s = lines[j as int];
            let on = (b % 10 == 0) == bold;
            if on {
                let color: [u8; 3] = if bold { [120, 120, 120] } else { [200, 200, 200] };
                proof {
                    assert(b * g.cell <= count * g.cell) by (nonlinear_arith)
                        requires b <= count;
                }
                if vertical {
                    let x0 = g.margin_left + b * g.cell + off;
                    let x = if x0 < g.out_w - 1 { x0 } else { g.out_w - 1 };
                    fill_rect(img, x, g.margin_top, 1, g.out_h - g.margin_top, color);
                } else {
                    let y0 = g.margin_top + b * g.cell + off;
                    let y = if y0 < g.out_h - 1 { y0 } else { g.out_h - 1 };
                    fill_rect(img, g.margin_left, y, g.out_w - g.margin_left, 1, color);
                }
            }
            proof {
                let old_done = done;
                done = done.push(s);
                assert(shapes + done =~= (shapes + old_done).push(s));
                assert forall|x: int, y: int| 0 <= x < img.width && 0 <= y < img.height
                    implies #[trigger] img.pixel(x, y) == painted(shapes + done, base, x, y) by {
                    lemma_painted_push(shapes + old_done, s, base, x, y);
                }
            }
            off += 1;
        }
        b += 1;
    }
    proof {
        assert(done =~= lines);
    }
}

} // verus!

verus! {

/// Row `row` (top first) of the 3×5 bitmap glyph of digit `d`: the low 3 bits
/// are the pixels, the most significant of them on the left.
pub open spec fn glyph_row(d: int, row: int) -> int {
    if d == 0 {
        if row == 0 { 7 } else if row == 1 { 5 } else if row == 2 { 5 } else if row == 3 { 5 } else { 7 }
    } else if d == 1 {
        if row == 0 { 2 } else if row == 1 { 6 } else if row == 2 { 2 } else if row == 3 { 2 } else { 7 }
    } else if d == 2 {
        if row == 0 { 7 } else if row == 1 { 1 } else if row == 2 { 7 } else if row == 3 { 4 } else { 7 }
    } else if d == 3 {
        if row == 0 { 7 } else if row == 1 { 1 } else if row == 2 { 7 } else if row == 3 { 1 } else { 7 }
    } else if d == 4 {
        if row == 0 { 5 } else if row == 1 { 5 } else if row == 2 { 7 } else if row == 3 { 1 } else { 1 }
    } else if d == 5 {
        if row == 0 { 7 } else if row == 1 { 4 } else if row == 2 { 7 } else if row == 3 { 1 } else { 7 }
    } else if d == 6 {
        if row == 0 { 7 } else if row == 1 { 4 } else if row == 2 { 7 } else if row == 3 { 5 } else { 7 }
    } else if d == 7 {
        if row == 0 { 7 } else if row == 1 { 1 } else if row == 2 { 2 } else if row == 3 { 4 } else { 4 }
    } else if d == 8 {
        if row == 0 { 7 } else if row == 1 { 5 } else if row == 2 { 7 } else if row == 3 { 5 } else { 7 }
    } else {
        if row == 0 { 7 } else if row == 1 { 5 } else if row == 2 { 7 } else if row == 3 { 1 } else { 7 }
    }
}

/// Pixel `(col, row)` of the glyph of digit `d` is set.
pub open spec fn glyph_bit(d: int, row: int, col: int) -> bool {
    (glyph_row(d, row) / (if col == 0 { 4int } else if col == 1 { 2int } else { 1int })) % 2 == 1
}

fn glyph_row_exec(d: u8, row: u64) -> (r: u8)
    requires
        row < 5,
    ensures
        r as int == glyph_row(d as int, row as int),
        r < 8,
{
    match d {
        0 => match row { 0 => 7, 1 => 5, 2 => 5, 3 => 5, _ => 7 },
        1 => match row { 0 => 2, 1 => 6, 2 => 2, 3 => 2, _ => 7 },
        2 => match row { 0 => 7, 1 => 1, 2 => 7, 3 => 4, _ => 7 },
        3 => match row { 0 => 7, 1 => 1, 2 => 7, 3 => 1, _ => 7 },
        4 => match row { 0 => 5, 1 => 5, 2 => 7, 3 => 1, _ => 1 },
        5 => match row { 0 => 7, 1 => 4, 2 => 7, 3 => 1, _ => 7 },
        6 => match row { 0 => 7, 1 => 4, 2 => 7, 3 => 5, _ => 7 },
        7 => match row { 0 => 7, 1 => 1, 2 => 2, 3 => 4, _ => 4 },
        8 => match row { 0 => 7, 1 => 5, 2 => 7, 3 => 5, _ => 7 },
        _ => match row { 0 => 7, 1 => 5, 2 => 7, 3 => 1, _ => 7 },
    }
}

/// Glyph pixel `(col, row)` of the `j`-th digit (most significant first) of
/// label `n` drawn at `(x0, y0)`: a `scale × scale` text square when the
/// glyph bit is set. Glyphs are `3·scale` wide and `scale` apart.
pub open spec fn glyph_shape(n: nat, x0: int, y0: int, scale: int, j: int, row: int, col: int) -> Shape {
    if glyph_bit(digits_of(n)[j] as int, row, col) {
        (x0 + j * 4 * scale + col * scale, y0 + row * scale, scale, scale, text_color())
    } else {
        no_shape()
    }
}

/// The text squares of number `n` drawn at `(x0, y0)`: digit by digit (most
/// significant first), row by row, column by column.
pub open spec fn number_shapes(n: nat, x0: int, y0: int, scale: int) -> Seq<Shape> {
    Seq::new(num_digits(n) * 15, |i: int| glyph_shape(n, x0, y0, scale, i / 15, (i % 15) / 3, i % 3))
}

/// Draw the decimal digits of `value` with top-left `(x0, y0)` at glyph
/// scale `scale`, clipped to the image.
fn draw_number(img: &mut RgbImage, x0: u64, y0: u64, value: u64, scale: u64,
    Ghost(shapes): Ghost<Seq<Shape>>, Ghost(base): Ghost<spec_fn(int, int) -> [u8; 3]>)
    requires
        shows(old(img), shapes, base),
        value <= 0xffff_ffff,
        x0 <= 0x1_0000_0000_0000,
        y0 <= 0x1_0000_0000_0000,
        scale <= 0xffff_ffff,
    ensures
        shows(final(img), shapes + number_shapes(value as nat, x0 as int, y0 as int, scale as int), base),
        final(img).width == old(img).width,
        final(img).height == old(img).height,
{
    let digits = digit_values(value);
    proof {
        lemma_digits_len_u32(value as nat);
        lemma_digits_of(value as nat);
    }
    let ghost all = number_shapes(value as nat, x0 as int, y0 as int, scale as int);
    let ghost mut done: Seq<Shape> = Seq::empty();
    let ghost w0 = img.width;
    let ghost h0 = img.height;
    let nd = digits.len();
    let mut j: usize = 0;
    while j < nd
        invariant
            nd == digits@.len(),
            nd == num_digits(value as nat),
            nd <= 10,
            forall|q: int| 0 <= q < nd ==> #[trigger] digits@[q] as nat == digits_of(value as nat)[q],
            forall|q: int| 0 <= q < nd ==> #[trigger] digits_of(value as nat)[q] < 10,
            all == number_shapes(value as nat, x0 as int, y0 as int, scale as int),
            x0 <= 0x1_0000_0000_0000,
            y0 <= 0x1_0000_0000_0000,
            scale <= 0xffff_ffff,
            0 <= j <= nd,
            img.width == w0,
            img.height == h0,
            done.len() == j * 15,
            forall|i: int| 0 <= i < done.len() ==> #[trigger] done[i] == all[i],
            shows(img, shapes + done, base),
        decreases nd - j,
    {
        let d = digits[j];
        proof {
            assert(j * 4 * scale <= 40 * 0xffff_ffff) by (nonlinear_arith)
                requires j < 10, scale <= 0xffff_ffff;
        }
        let cursor = x0 + j as u64 * 4 * scale;
        let mut row: u64 = 0;
        while row < 5
            invariant
                nd == digits@.len(),
                nd == num_digits(value as nat),
                nd <= 10,
                d as nat == digits_of(value as nat)[j as int],
                all == number_shapes(value as nat, x0 as int, y0 as int, scale as int),
                cursor == x0 + j * 4 * scale,
                x0 <= 0x1_0000_0000_0000,
                y0 <= 0x1_0000_0000_0000,
                scale <= 0xffff_ffff,
                0 <= j < nd,
                0 <= row <= 5,
                img.width == w0,
                img.height == h0,
                done.len() == j * 15 + row * 3,
                forall|i: int| 0 <= i < done.len() ==> #[trigger] done[i] == all[i],
                shows(img, shapes + done, base),
            decreases 5 - row,
        {
            let bits = glyph_row_exec(d, row);
            let mut col: u64 = 0;
            while col < 3
                invariant
                    nd == num_digits(value as nat),
                    nd <= 10,
                    d as nat == digits_of(value as nat)[j as int],
                    all == number_shapes(value as nat, x0 as int, y0 as int, scale as int),
                    cursor == x0 + j * 4 * scale,
                    bits as int == glyph_row(d as int, row as int),
                    bits < 8,
                    x0 <= 0x1_0000_0000_0000,
                    y0 <= 0x1_0000_0000_0000,
                    scale <= 0xffff_ffff,
                    0 <= j < nd,
                    0 <= row < 5,
                    0 <= col <= 3,
                    img.width == w0,
                    img.height == h0,
                    done.len() == j * 15 + row * 3 + col,
                    forall|i: int| 0 <= i < done.len() ==> #[trigger] done[i] == all[i],
                    shows(img, shapes + done, base),
                decreases 3 - col,
            {
                let ghost i = j * 15 + row * 3 + col;
                proof {
                    assert(i < nd * 15);
                    vstd::arithmetic::div_mod::lemma_fundamental_div_mod_converse(i as int, 15, j as int, (row * 3 + col) as int);
                    vstd::arithmetic::div_mod::lemma_fundamental_div_mod_converse((row * 3 + col) as int, 3, row as int, col as int);
                    vstd::arithmetic::div_mod::lemma_fundamental_div_mod_converse(i as int, 3, (j * 5 + row) as int, col as int);
                }
                let ghost s = all[i as int];
                let divisor: u8 = if col == 0 { 4 } else if col == 1 { 2 } else { 1 };
                if (bits / divisor) % 2 == 1 {
                    proof {
                        assert(j * 4 * scale <= 40 * 0xffff_ffff) by (nonlinear_arith)
                            requires j < 10, scale <= 0xffff_ffff;
                        assert(col * scale <= 3 * 0xffff_ffff) by (nonlinear_arith)
                            requires col < 3, scale <= 0xffff_ffff;
                        assert(row * scale <= 5 * 0xffff_ffff) by (nonlinear_arith)
                            requires row < 5, scale <= 0xffff_ffff;
                    }
                    fill_rect(img, cursor + col * scale, y0 + row * scale, scale, scale, [0, 0, 0]);
                }
                proof {
                    let old_done = done;
                    done = done.push(s);
                    assert(shapes + done =~= (shapes + old_done).push(s));
                    assert forall|x: int, y: int| 0 <= x < img.width && 0 <= y < img.height
                        implies #[trigger] img.pixel(x, y) == painted(shapes + done, base, x, y) by {
                        lemma_painted_push(shapes + old_done, s, base, x, y);
                    }
                }
                col += 1;
            }
            row += 1;
        }
        j += 1;
    }
    proof {
        assert(done =~= all);
    }
}

} // verus!

verus! {

/// The text squares of the column labels `10, 20, …, 10·k`, each right-aligned
/// at its boundary in the top margin.
pub open spec fn column_label_shapes(width: int, height: int, cell: int, k: nat) -> Seq<Shape>
    decreases k,
{
    if k == 0 {
        Seq::empty()
    } else {
        let n = 10 * k;
        let scale = grid_scale(cell);
        let x = grid_margin_left(height, cell) + n * cell - label_width(num_digits(n) as int, scale);
        column_label_shapes(width, height, cell, (k - 1) as nat) + number_shapes(n, x, scale, scale)
    }
}

/// The text squares of the row labels `10, 20, …, 10·k`, each right-aligned in
/// the left margin at the top of its row.
pub open spec fn row_label_shapes(width: int, height: int, cell: int, k: nat) -> Seq<Shape>
    decreases k,
{
    if k == 0 {
        Seq::empty()
    } else {
        let n = 10 * k;
        let scale = grid_scale(cell);
        let x = grid_margin_left(height, cell) - scale - label_width(num_digits(n) as int, scale);
        let y = grid_margin_top(width, cell) + (n - 1) * cell;
        row_label_shapes(width, height, cell, (k - 1) as nat) + number_shapes(n, x, y, scale)
    }
}

/// Everything painted over the grid background, in drawing order: thin
/// vertical and horizontal lines, bold vertical and horizontal lines (so
/// bold wins at crossings), then column labels and row labels.
pub open spec fn grid_shapes(width: int, height: int, cell: int) -> Seq<Shape> {
    vlines(width, height, cell, false) + hlines(width, height, cell, false)
        + vlines(width, height, cell, true) + hlines(width, height, cell, true)
        + column_label_shapes(width, height, cell, (width / 10) as nat)
        + row_label_shapes(width, height, cell, (height / 10) as nat)
}

/// The grid image's pixels, row-major.
pub open spec fn grid_pixels(grid: &BeadPattern, palette: &Palette, cell: u32) -> Seq<[u8; 3]> {
    let out_w = grid_out_w(grid.width as int, grid.height as int, cell as int);
    let out_h = grid_out_h(grid.width as int, grid.height as int, cell as int);
    Seq::new(
        (out_w * out_h) as nat,
        |i: int| painted(
            grid_shapes(grid.width as int, grid.height as int, cell as int),
            grid_background(grid, palette, cell as int),
            i % out_w,
            i / out_w,
        ),
    )
}

/// Compute and check the grid geometry of a non-empty pattern at a non-zero
/// cell size in 128-bit arithmetic: margins, scale and output size, or the
/// first size guard it fails (see [`geometry_failure`]).
fn grid_geometry(width: u32, height: u32, cell: u32) -> (r: Result<GridGeom, BeadError>)
    requires
        width > 0,
        height > 0,
        cell > 0,
    ensures
        match geometry_failure(width, height, cell) {
            Some(reason) => r matches Err(BeadError::InvalidImage { reason: e }) && e@ == reason,
            None => r matches Ok(g) && g.is_for(width, height, cell),
        },
{
    let scale: u64 = if cell as u64 / 5 > 1 { cell as u64 / 5 } else { 1 };
    let margin_top: u64 = if width >= 10 { 7 * scale } else { 0 };
    let margin_left: u64 = if height >= 10 {
        let max_row_label = (height as u64 / 10) * 10;
        let row_digits = digit_values(max_row_label).len() as u64;
        proof {
            lemma_digits_len_u32(max_row_label as nat);
            lemma_digits_of(max_row_label as nat);
            assert(row_digits * 4 * scale <= 40 * 0xffff_ffff) by (nonlinear_arith)
                requires row_digits <= 10, scale <= 0xffff_ffff;
            assert(row_digits * 4 * scale >= scale) by (nonlinear_arith)
                requires row_digits >= 1, scale >= 0;
        }
        row_digits * 4 * scale - scale + 2 * scale
    } else {
        0
    };
    proof {
        assert(width as int * cell as int <= 0xffff_ffff * 0xffff_ffff) by (nonlinear_arith)
            requires width <= 0xffff_ffff, cell <= 0xffff_ffff;
        assert(height as int * cell as int <= 0xffff_ffff * 0xffff_ffff) by (nonlinear_arith)
            requires height <= 0xffff_ffff, cell <= 0xffff_ffff;
    }
    let out_w: u128 = margin_left as u128 + width as u128 * cell as u128;
    let out_h: u128 = margin_top as u128 + height as u128 * cell as u128;
    if out_w > u32::MAX as u128 || out_h > u32::MAX as u128 {
        return Err(BeadError::InvalidImage {
            reason: String::from_str("grid output dimensions exceed u32"),
        });
    }
    proof {
        assert(3 * out_w * out_h <= 3 * 0xffff_ffff * 0xffff_ffff) by (nonlinear_arith)
            requires out_w <= 0xffff_ffff, out_h <= 0xffff_ffff;
        assert(width as int * cell as int >= cell) by (nonlinear_arith)
            requires width >= 1, cell >= 0;
        assert(height as int * cell as int >= cell) by (nonlinear_arith)
            requires height >= 1, cell >= 0;
    }
    if 3 * out_w * out_h > isize::MAX as u128 {
        return Err(BeadError::InvalidImage {
            reason: String::from_str("grid output buffer exceeds isize::MAX"),
        });
    }
    Ok(GridGeom {
        width: width as u64,
        height: height as u64,
        cell: cell as u64,
        scale,
        pad: scale,
        margin_left,
        margin_top,
        out_w: out_w as u64,
        out_h: out_h as u64,
    })
}


/// Shapes that do not cover a pixel leave it as it was.
proof fn lemma_painted_skip(a: Seq<Shape>, c: Seq<Shape>, base: spec_fn(int, int) -> [u8; 3], x: int, y: int)
    requires
        forall|k: int| 0 <= k < c.len() ==> !covers(#[trigger] c[k], x, y),
    ensures
        painted(a + c, base, x, y) == painted(a, base, x, y),
    decreases c.len(),
{
    if c.len() > 0 {
        assert((a + c).drop_last() =~= a + c.drop_last());
        assert((a + c).last() == c.last());
        assert(!covers(c[c.len() - 1], x, y));
        lemma_painted_skip(a, c.drop_last(), base, x, y);
    }
}

/// When shapes of `c` cover a pixel and all of them have color `col`, the
/// pixel shows `col` after `c` is painted.
proof fn lemma_painted_cover(a: Seq<Shape>, c: Seq<Shape>, base: spec_fn(int, int) -> [u8; 3], x: int, y: int, col: [u8; 3])
    requires
        exists|k: int| 0 <= k < c.len() && covers(#[trigger] c[k], x, y),
        forall|k: int| 0 <= k < c.len() && covers(#[trigger] c[k], x, y) ==> c[k].4 == col,
    ensures
        painted(a + c, base, x, y) == col,
    decreases c.len(),
{
    let k0 = choose|k: int| 0 <= k < c.len() && covers(#[trigger] c[k], x, y);
    assert((a + c).drop_last() =~= a + c.drop_last());
    assert((a + c).last() == c.last());
    if !covers(c[c.len() - 1], x, y) {
        let d = c.drop_last();
        assert(d[k0] == c[k0]);
        assert forall|k: int| 0 <= k < d.len() && covers(#[trigger] d[k], x, y) implies d[k].4 == col by {
            assert(d[k] == c[k]);
        }
        lemma_painted_cover(a, d, base, x, y, col);
    }
}

/// A number's text squares lie inside its label box: left of
/// `x0 + label_width` and above `y0 + 5·scale`.
proof fn lemma_number_shapes_box(n: nat, x0: int, y0: int, scale: int, x: int, y: int)
    requires
        scale >= 1,
        x >= x0 + label_width(num_digits(n) as int, scale) || y >= y0 + 5 * scale,
    ensures
        forall|k: int|
            0 <= k < number_shapes(n, x0, y0, scale).len() ==> !covers(
                #[trigger] number_shapes(n, x0, y0, scale)[k],
                x,
                y,
            ),
{
    let nd = num_digits(n) as int;
    assert forall|k: int| 0 <= k < number_shapes(n, x0, y0, scale).len() implies !covers(
        #[trigger] number_shapes(n, x0, y0, scale)[k],
        x,
        y,
    ) by {
        let j = k / 15;
        let row = (k % 15) / 3;
        let col = k % 3;
        assert(0 <= j < nd) by (nonlinear_arith)
            requires
                0 <= k < nd * 15,
                j == k / 15,
        ;
        assert(0 <= row < 5);
        assert(0 <= col < 3);
        assert(j * 4 * scale + col * scale + scale <= nd * 4 * scale - scale) by (nonlinear_arith)
            requires
                0 <= j < nd,
                0 <= col < 3,
                scale >= 1,
        ;
        assert(row * scale + scale <= 5 * scale) by (nonlinear_arith)
            requires
                0 <= row < 5,
                scale >= 1,
        ;
    }
}

/// No column-label square covers a pixel below the label band.
proof fn lemma_column_labels_above(width: int, height: int, cell: int, k: nat, x: int, y: int)
    requires
        cell >= 1,
        y >= 6 * grid_scale(cell),
    ensures
        forall|i: int|
            0 <= i < column_label_shapes(width, height, cell, k).len() ==> !covers(
                #[trigger] column_label_shapes(width, height, cell, k)[i],
                x,
                y,
            ),
    decreases k,
{
    if k > 0 {
        let n = 10 * k;
        let scale = grid_scale(cell);
        let x0 = grid_margin_left(height, cell) + n * cell - label_width(num_digits(n) as int, scale);
        let prev = column_label_shapes(width, height, cell, (k - 1) as nat);
        let ns = number_shapes(n, x0, scale, scale);
        lemma_column_labels_above(width, height, cell, (k - 1) as nat, x, y);
        lemma_number_shapes_box(n, x0, scale, scale, x, y);
        assert forall|i: int| 0 <= i < (prev + ns).len() implies !covers(#[trigger] (prev + ns)[i], x, y) by {
            if i < prev.len() {
                assert((prev + ns)[i] == prev[i]);
            } else {
                assert((prev + ns)[i] == ns[i - prev.len()]);
            }
        }
    }
}

/// No row-label square covers a pixel right of the left margin.
proof fn lemma_row_labels_left(width: int, height: int, cell: int, k: nat, x: int, y: int)
    requires
        cell >= 1,
        x >= grid_margin_left(height, cell),
    ensures
        forall|i: int|
            0 <= i < row_label_shapes(width, height, cell, k).len() ==> !covers(
                #[trigger] row_label_shapes(width, height, cell, k)[i],
                x,
                y,
            ),
    decreases k,
{
    if k > 0 {
        let n = 10 * k;
        let scale = grid_scale(cell);
        let x0 = grid_margin_left(height, cell) - scale - label_width(num_digits(n) as int, scale);
        let y0 = grid_margin_top(width, cell) + (n - 1) * cell;
        let prev = row_label_shapes(width, height, cell, (k - 1) as nat);
        let ns = number_shapes(n, x0, y0, scale);
        lemma_row_labels_left(width, height, cell, (k - 1) as nat, x, y);
        lemma_number_shapes_box(n, x0, y0, scale, x, y);
        assert forall|i: int| 0 <= i < (prev + ns).len() implies !covers(#[trigger] (prev + ns)[i], x, y) by {
            if i < prev.len() {
                assert((prev + ns)[i] == prev[i]);
            } else {
                assert((prev + ns)[i] == ns[i - prev.len()]);
            }
        }
    }
}

/// The grid lines, in drawing order: thin verticals, thin horizontals, bold
/// verticals, bold horizontals.
pub open spec fn grid_lines(width: int, height: int, cell: int) -> Seq<Shape> {
    vlines(width, height, cell, false) + hlines(width, height, cell, false)
        + vlines(width, height, cell, true) + hlines(width, height, cell, true)
}

/// The grid image shows the beads: a pixel of the cell area that no grid line
/// covers lies in cell `(cx, cy) = ((x - ml) / cell, (y - mt) / cell)` and
/// has the palette color of `cells[cy * width + cx]` (the missing sentinel
/// when that cell or its palette index does not exist), which is also the
/// color the preview shows at the same position within the cell area.
pub proof fn lemma_grid_shows_beads(grid: &BeadPattern, palette: &Palette, cell: u32, x: int, y: int)
    requires
        grid_failure(grid.width, grid.height, cell) is None,
        grid_margin_left(grid.height as int, cell as int) <= x < grid_out_w(grid.width as int, grid.height as int, cell as int),
        grid_margin_top(grid.width as int, cell as int) <= y < grid_out_h(grid.width as int, grid.height as int, cell as int),
        forall|k: int| 0 <= k < grid_lines(grid.width as int, grid.height as int, cell as int).len()
            ==> !covers(#[trigger] grid_lines(grid.width as int, grid.height as int, cell as int)[k], x, y),
    ensures
        ({
            let w = grid.width as int;
            let h = grid.height as int;
            let c = cell as int;
            let ml = grid_margin_left(h, c);
            let mt = grid_margin_top(w, c);
            let out_w = grid_out_w(w, h, c);
            let cx = (x - ml) / c;
            let cy = (y - mt) / c;
            let pos = cy * w + cx;
            let shown = grid_pixels(grid, palette, cell)[y * out_w + x];
            &&& 0 <= cx < w
            &&& 0 <= cy < h
            &&& shown == if 0 <= pos < grid.cells@.len() && (grid.cells@[pos] as int) < palette.colors@.len() {
                palette.colors@[grid.cells@[pos] as int].rgb
            } else {
                [255u8, 0, 255]
            }
            &&& shown == preview_pixels(grid, palette, cell)[(y - mt) * (w * c) + (x - ml)]
        }),
{
    let w = grid.width as int;
    let h = grid.height as int;
    let c = cell as int;
    let ml = grid_margin_left(h, c);
    let mt = grid_margin_top(w, c);
    let out_w = grid_out_w(w, h, c);
    let out_h = grid_out_h(w, h, c);
    let lines = grid_lines(w, h, c);
    let cols = column_label_shapes(w, h, c, (w / 10) as nat);
    let rows = row_label_shapes(w, h, c, (h / 10) as nat);
    let labels = cols + rows;
    let base = grid_background(grid, palette, c);
    assert(grid_shapes(w, h, c) =~= lines + labels);
    let scale = grid_scale(c);
    if w / 10 > 0 {
        assert(mt == 7 * scale);
        lemma_column_labels_above(w, h, c, (w / 10) as nat, x, y);
    } else {
        assert(cols.len() == 0);
    }
    lemma_row_labels_left(w, h, c, (h / 10) as nat, x, y);
    assert forall|i: int| 0 <= i < labels.len() implies !covers(#[trigger] labels[i], x, y) by {
        if i < cols.len() {
            assert(labels[i] == cols[i]);
        } else {
            assert(labels[i] == rows[i - cols.len()]);
        }
    }
    lemma_painted_skip(lines, labels, base, x, y);
    let empty: Seq<Shape> = Seq::empty();
    assert(empty + lines =~= lines);
    lemma_painted_skip(empty, lines, base, x, y);
    // Position of the pixel in the row-major grid image.
    let i = y * out_w + x;
    assert(0 <= x < out_w);
    assert(0 <= y < out_h);
    vstd::arithmetic::div_mod::lemma_fundamental_div_mod_converse(i, out_w, y, x);
    assert(0 <= i < out_w * out_h) by (nonlinear_arith)
        requires i == y * out_w + x, 0 <= x < out_w, 0 <= y < out_h;
    assert(grid_pixels(grid, palette, cell)[i] == painted(grid_shapes(w, h, c), base, x, y));
    // The cell the pixel lies in.
    let dx = x - ml;
    let dy = y - mt;
    assert(dx < w * c);
    assert(dy < h * c);
    vstd::arithmetic::div_mod::lemma_div_pos_is_pos(dx, c);
    vstd::arithmetic::div_mod::lemma_div_pos_is_pos(dy, c);
    vstd::arithmetic::div_mod::lemma_fundamental_div_mod(dx, c);
    vstd::arithmetic::div_mod::lemma_fundamental_div_mod(dy, c);
    vstd::arithmetic::div_mod::lemma_mod_pos_bound(dx, c);
    vstd::arithmetic::div_mod::lemma_mod_pos_bound(dy, c);
    assert(dx / c < w) by (nonlinear_arith)
        requires dx == c * (dx / c) + dx % c, dx % c >= 0, dx < w * c, c > 0;
    assert(dy / c < h) by (nonlinear_arith)
        requires dy == c * (dy / c) + dy % c, dy % c >= 0, dy < h * c, c > 0;
    // The preview at the same position.
    let pw = w * c;
    let j = dy * pw + dx;
    assert(pw > 0) by (nonlinear_arith)
        requires pw == w * c, w > 0, c > 0;
    vstd::arithmetic::div_mod::lemma_fundamental_div_mod_converse(j, pw, dy, dx);
    assert(0 <= j < pw * (h * c)) by (nonlinear_arith)
        requires j == dy * pw + dx, 0 <= dx < pw, 0 <= dy < h * c, pw > 0;
    assert(preview_pixels(grid, palette, cell)[j] == preview_pixel(grid, palette, cell, j));
}

/// Bold separators win over thin lines: a pixel of the cell area that a bold
/// line covers shows the bold color, whatever thin line crosses it.
pub proof fn lemma_grid_bold_wins(
    width: int,
    height: int,
    cell: int,
    base: spec_fn(int, int) -> [u8; 3],
    x: int,
    y: int,
    k: int,
)
    requires
        width >= 0,
        height >= 0,
        cell >= 5,
        x >= grid_margin_left(height, cell),
        y >= grid_margin_top(width, cell),
        0 <= k < (vlines(width, height, cell, true) + hlines(width, height, cell, true)).len(),
        covers((vlines(width, height, cell, true) + hlines(width, height, cell, true))[k], x, y),
    ensures
        painted(grid_shapes(width, height, cell), base, x, y) == bold_color(),
{
    let thin = vlines(width, height, cell, false) + hlines(width, height, cell, false);
    let vb = vlines(width, height, cell, true);
    let hb = hlines(width, height, cell, true);
    let bold = vb + hb;
    let cols = column_label_shapes(width, height, cell, (width / 10) as nat);
    let rows = row_label_shapes(width, height, cell, (height / 10) as nat);
    let labels = cols + rows;
    assert(grid_shapes(width, height, cell) =~= (thin + bold) + labels);
    let scale = grid_scale(cell);
    if width / 10 > 0 {
        assert(grid_margin_top(width, cell) == 7 * scale);
        lemma_column_labels_above(width, height, cell, (width / 10) as nat, x, y);
    } else {
        assert(cols.len() == 0);
    }
    lemma_row_labels_left(width, height, cell, (height / 10) as nat, x, y);
    assert forall|i: int| 0 <= i < labels.len() implies !covers(#[trigger] labels[i], x, y) by {
        if i < cols.len() {
            assert(labels[i] == cols[i]);
        } else {
            assert(labels[i] == rows[i - cols.len()]);
        }
    }
    lemma_painted_skip(thin + bold, labels, base, x, y);
    assert forall|i: int| 0 <= i < bold.len() && covers(#[trigger] bold[i], x, y) implies bold[i].4 == bold_color() by {
        if i < vb.len() {
            assert(bold[i] == vb[i]);
        } else {
            assert(bold[i] == hb[i - vb.len()]);
        }
    }
    lemma_painted_cover(thin, bold, base, x, y, bold_color());
}

} // verus!

verus! {

/// A label `n >= 1` fits left of its boundary: `label_width(digits(n)) <= n·cell`.
proof fn lemma_label_fits(n: nat, cell: int)
    requires
        n >= 1,
        cell >= 5,
    ensures
        0 <= label_width(num_digits(n) as int, grid_scale(cell)) <= n * cell,
{
    lemma_digits_len_le(n);
    lemma_digits_of(n);
    let d = num_digits(n) as int;
    let s = grid_scale(cell);
    assert(s == cell / 5);
    assert(5 * s <= cell) by (nonlinear_arith)
        requires s == cell / 5, cell >= 5;
    assert(d * 4 * s - s <= n * cell) by (nonlinear_arith)
        requires 1 <= d <= n, 5 * s <= cell, s >= 1;
    assert(d * 4 * s - s >= 0) by (nonlinear_arith)
        requires d >= 1, s >= 1;
}

/// Draw the column labels `10, 20, …` (every 10th boundary up to the width).
fn draw_column_labels(img: &mut RgbImage, g: &GridGeom, Ghost(shapes): Ghost<Seq<Shape>>,
    Ghost(base): Ghost<spec_fn(int, int) -> [u8; 3]>, Ghost(w): Ghost<u32>, Ghost(h): Ghost<u32>, Ghost(c): Ghost<u32>)
    requires
        g.is_for(w, h, c),
        c >= 5,
        shows(old(img), shapes, base),
        old(img).width == g.out_w,
        old(img).height == g.out_h,
    ensures
        shows(final(img), shapes + column_label_shapes(w as int, h as int, c as int, (w / 10) as nat), base),
        final(img).width == g.out_w,
        final(img).height == g.out_h,
{
    let kmax = g.width / 10;
    let mut k: u64 = 1;
    while k <= kmax
        invariant
            g.is_for(w, h, c),
            c >= 5,
            kmax == w / 10,
            1 <= k <= kmax + 1,
            img.width == g.out_w,
            img.height == g.out_h,
            shows(img, shapes + column_label_shapes(w as int, h as int, c as int, (k - 1) as nat), base),
        decreases kmax + 1 - k,
    {
        let n = 10 * k;
        let nd = digit_values(n).len() as u64;
        proof {
            lemma_label_fits(n as nat, c as int);
            lemma_digits_len_u32(n as nat);
            assert(n * g.cell <= g.width * g.cell) by (nonlinear_arith)
                requires n <= g.width;
        }
        let x = g.margin_left + n * g.cell - (nd * 4 * g.scale - g.scale);
        let ghost before = shapes + column_label_shapes(w as int, h as int, c as int, (k - 1) as nat);
        draw_number(img, x, g.pad, n, g.scale, Ghost(before), Ghost(base));
        proof {
            assert(before + number_shapes(n as nat, x as int, g.pad as int, g.scale as int)
                =~= shapes + column_label_shapes(w as int, h as int, c as int, k as nat));
        }
        k += 1;
    }
}

/// Draw the row labels `10, 20, …` (every 10th row up to the height).
fn draw_row_labels(img: &mut RgbImage, g: &GridGeom, Ghost(shapes): Ghost<Seq<Shape>>,
    Ghost(base): Ghost<spec_fn(int, int) -> [u8; 3]>, Ghost(w): Ghost<u32>, Ghost(h): Ghost<u32>, Ghost(c): Ghost<u32>)
    requires
        g.is_for(w, h, c),
        c >= 5,
        shows(old(img), shapes, base),
        old(img).width == g.out_w,
        old(img).height == g.out_h,
    ensures
        shows(final(img), shapes + row_label_shapes(w as int, h as int, c as int, (h / 10) as nat), base),
        final(img).width == g.out_w,
        final(img).height == g.out_h,
{
    let kmax = g.height / 10;
    let mut k: u64 = 1;
    while k <= kmax
        invariant
            g.is_for(w, h, c),
            c >= 5,
            kmax == h / 10,
            1 <= k <= kmax + 1,
            img.width == g.out_w,
            img.height == g.out_h,
            shows(img, shapes + row_label_shapes(w as int, h as int, c as int, (k - 1) as nat), base),
        decreases kmax + 1 - k,
    {
        let n = 10 * k;
        let nd = digit_values(n).len() as u64;
        let ghost max_label = ((h / 10) * 10) as nat;
        proof {
            lemma_digits_len_mono(n as nat, max_label);
            lemma_digits_of(n as nat);
            lemma_digits_len_u32(max_label);
            assert(nd * 4 * g.scale <= num_digits(max_label) * 4 * g.scale) by (nonlinear_arith)
                requires nd <= num_digits(max_label);
            assert(nd * 4 * g.scale >= g.scale) by (nonlinear_arith)
                requires nd >= 1, g.scale >= 0;
            assert((n - 1) * g.cell <= g.height * g.cell) by (nonlinear_arith)
                requires n <= g.height;
        }
        let x = g.margin_left - g.pad - (nd * 4 * g.scale - g.scale);
        let y = g.margin_top + (n - 1) * g.cell;
        let ghost before = shapes + row_label_shapes(w as int, h as int, c as int, (k - 1) as nat);
        draw_number(img, x, y, n, g.scale, Ghost(before), Ghost(base));
        proof {
            assert(before + number_shapes(n as nat, x as int, y as int, g.scale as int)
                =~= shapes + row_label_shapes(w as int, h as int, c as int, k as nat));
        }
        k += 1;
    }
}

/// The grid background image: margins in background color, each cell's
/// color as a `cell × cell` square in the cell area.
fn paint_grid_background(grid: &BeadPattern, palette: &Palette, g: &GridGeom, Ghost(c): Ghost<u32>) -> (img: RgbImage)
    requires
        g.is_for(grid.width, grid.height, c),
        c >= 5,
    ensures
        img.width == g.out_w,
        img.height == g.out_h,
        shows(&img, Seq::empty(), grid_background(grid, palette, c as int)),
{
    let ghost base = grid_background(grid, palette, c as int);
    let ow = g.out_w;
    let oh = g.out_h;
    proof {
        assert(ow * oh <= 3 * ow * oh) by (nonlinear_arith);
    }
    let mut pixels: Vec<[u8; 3]> = Vec::with_capacity((ow * oh) as usize);
    let mut py: u64 = 0;
    while py < oh
        invariant
            g.is_for(grid.width, grid.height, c),
            c >= 5,
            base == grid_background(grid, palette, c as int),
            ow == g.out_w,
            oh == g.out_h,
            0 <= py <= oh,
            pixels@.len() == py * ow,
            forall|i: int| 0 <= i < pixels@.len() ==> #[trigger] pixels@[i] == base(i % ow as int, i / ow as int),
        decreases oh - py,
    {
        let mut px: u64 = 0;
        while px < ow
            invariant
                g.is_for(grid.width, grid.height, c),
                c >= 5,
                base == grid_background(grid, palette, c as int),
                ow == g.out_w,
                oh == g.out_h,
                0 <= py < oh,
                0 <= px <= ow,
                pixels@.len() == py * ow + px,
                forall|i: int| 0 <= i < pixels@.len() ==> #[trigger] pixels@[i] == base(i % ow as int, i / ow as int),
            decreases ow - px,
        {
            let color = if px >= g.margin_left && py >= g.margin_top {
                proof {
                    let q: int = (py - g.margin_top) / (g.cell as int);
                    assert(q <= g.height) by (nonlinear_arith)
                        requires py < g.out_h, g.out_h == g.margin_top + g.height * g.cell, g.cell >= 5,
                            py >= g.margin_top, q == (py - g.margin_top) / (g.cell as int);
                    assert(q * g.width <= 0xffff_ffff * 0xffff_ffff) by (nonlinear_arith)
                        requires q <= g.height, g.height <= 0xffff_ffff, g.width <= 0xffff_ffff, q >= 0;
                }
                cell_rgb(grid, palette, ((py - g.margin_top) / g.cell) * g.width + (px - g.margin_left) / g.cell)
            } else {
                [255u8, 255, 255]
            };
            proof {
                vstd::arithmetic::div_mod::lemma_fundamental_div_mod_converse(
                    py as int * ow as int + px as int, ow as int, py as int, px as int);
                let i: int = py as int * ow as int + px as int;
                assert(color == base(i % ow as int, i / ow as int));
            }
            let ghost before = pixels@;
            pixels.push(color);
            proof {
                assert forall|k: int| 0 <= k < pixels@.len() implies #[trigger] pixels@[k] == base(k % ow as int, k / ow as int) by {
                    if k < before.len() {
                        assert(pixels@[k] == before[k]);
                    }
                }
            }
            px += 1;
        }
        proof {
            crate::geom::lemma_next_row(ow as int, py as int);
        }
        py += 1;
    }
    let img = RgbImage { width: ow as u32, height: oh as u32, pixels };
    proof {
        assert(oh * ow == ow * oh) by (nonlinear_arith);
        assert forall|x: int, y: int| 0 <= x < img.width && 0 <= y < img.height
            implies #[trigger] img.pixel(x, y) == painted(Seq::empty(), base, x, y) by {
            crate::geom::lemma_row_major_lt(ow as int, x, y, oh as int);
            vstd::arithmetic::div_mod::lemma_fundamental_div_mod_converse(y * ow as int + x, ow as int, y, x);
        }
    }
    img
}

/// Paint the grid image: the bead grid inside the margins, a thin line at
/// every cell boundary, a bold 2-pixel line at every 10th boundary, and the
/// 1-indexed row/column numbers `10, 20, …` in a built-in 3×5 bitmap font.
pub fn paint_grid(grid: &BeadPattern, palette: &Palette, cell: u32) -> (img: RgbImage)
    requires
        grid_failure(grid.width, grid.height, cell) is None,
    ensures
        img.width == grid_out_w(grid.width as int, grid.height as int, cell as int),
        img.height == grid_out_h(grid.width as int, grid.height as int, cell as int),
        shows(&img, grid_shapes(grid.width as int, grid.height as int, cell as int),
            grid_background(grid, palette, cell as int)),
        img.pixels@ == grid_pixels(grid, palette, cell),
{
    let g = match grid_geometry(grid.width, grid.height, cell) {
        Ok(g) => g,
        Err(_) => {
            assert(false);
            return RgbImage::new(0, 0);
        },
    };
    let ghost w = grid.width;
    let ghost h = grid.height;
    let ghost base = grid_background(grid, palette, cell as int);
    let mut img = paint_grid_background(grid, palette, &g, Ghost(cell));
    let ghost s0: Seq<Shape> = Seq::empty();
    draw_lines(&mut img, &g, true, false, Ghost(s0), Ghost(base), Ghost(w), Ghost(h), Ghost(cell));
    let ghost s1 = s0 + vlines(w as int, h as int, cell as int, false);
    draw_lines(&mut img, &g, false, false, Ghost(s1), Ghost(base), Ghost(w), Ghost(h), Ghost(cell));
    let ghost s2 = s1 + hlines(w as int, h as int, cell as int, false);
    draw_lines(&mut img, &g, true, true, Ghost(s2), Ghost(base), Ghost(w), Ghost(h), Ghost(cell));
    let ghost s3 = s2 + vlines(w as int, h as int, cell as int, true);
    draw_lines(&mut img, &g, false, true, Ghost(s3), Ghost(base), Ghost(w), Ghost(h), Ghost(cell));
    let ghost s4 = s3 + hlines(w as int, h as int, cell as int, true);
    draw_column_labels(&mut img, &g, Ghost(s4), Ghost(base), Ghost(w), Ghost(h), Ghost(cell));
    let ghost s5 = s4 + column_label_shapes(w as int, h as int, cell as int, (w / 10) as nat);
    draw_row_labels(&mut img, &g, Ghost(s5), Ghost(base), Ghost(w), Ghost(h), Ghost(cell));
    proof {
        let s6 = s5 + row_label_shapes(w as int, h as int, cell as int, (h / 10) as nat);
        assert(s6 =~= grid_shapes(w as int, h as int, cell as int));
        let ow = g.out_w as int;
        let oh = g.out_h as int;
        assert(oh * ow == ow * oh) by (nonlinear_arith);
        assert forall|i: int| 0 <= i < img.pixels@.len() implies #[trigger] img.pixels@[i] == grid_pixels(grid, palette, cell)[i] by {
            vstd::arithmetic::div_mod::lemma_fundamental_div_mod(i, ow);
            vstd::arithmetic::div_mod::lemma_div_pos_is_pos(i, ow);
            let x = i % ow;
            let y = i / ow;
            assert(0 <= x < ow);
            assert(y < oh) by (nonlinear_arith)
                requires i == ow * y + x, 0 <= x, i < ow * oh, ow > 0;
            assert(i == y * ow + x) by (nonlinear_arith)
                requires i == ow * y + x;
            assert(img.pixel(x, y) == img.pixels@[i]);
        }
        assert(img.pixels@ =~= grid_pixels(grid, palette, cell));
    }
    img
}

/// Render `grid` into an in-memory PNG with coordinates (see [`paint_grid`]):
/// output size is the margins plus `dimension × cell_size`; lines overlay
/// cell-edge pixels and do not add to the size. Requires `cell_size >= 5`
/// (below that the labels would clip or overlap). Unresolvable cells render
/// as the missing sentinel; degenerate or oversized requests are rejected
/// with `InvalidImage` (see [`grid_failure`]); every other request gives the
/// PNG of the painted grid.
pub fn render_grid(grid: &BeadPattern, palette: &Palette, opts: &RenderOptions)
    -> (r: Result<Vec<u8>, BeadError>)
    ensures
        match grid_failure(grid.width, grid.height, opts.cell_size) {
            Some(reason) => r matches Err(BeadError::InvalidImage { reason: e }) && e@ == reason,
            None => r matches Ok(bytes) && bytes@ == png_encoding(
                grid_out_w(grid.width as int, grid.height as int, opts.cell_size as int) as u32,
                grid_out_h(grid.width as int, grid.height as int, opts.cell_size as int) as u32,
                grid_pixels(grid, palette, opts.cell_size),
            ),
        },
{
    if grid.width == 0 {
        return Err(BeadError::InvalidImage { reason: String::from_str("pattern width is 0") });
    }
    if grid.height == 0 {
        return Err(BeadError::InvalidImage { reason: String::from_str("pattern height is 0") });
    }
    if opts.cell_size == 0 {
        return Err(BeadError::InvalidImage { reason: String::from_str("cell_size is 0") });
    }
    if opts.cell_size < 5 {
        return Err(BeadError::InvalidImage {
            reason: String::from_str("cell_size must be >= 5 for grid"),
        });
    }
    match grid_geometry(grid.width, grid.height, opts.cell_size) {
        Ok(_) => {},
        Err(e) => return Err(e),
    }
    let img = paint_grid(grid, palette, opts.cell_size);
    proof {
        assert(grid.width as int * opts.cell_size as int > 0) by (nonlinear_arith)
            requires grid.width > 0, opts.cell_size > 0;
        assert(grid.height as int * opts.cell_size as int > 0) by (nonlinear_arith)
            requires grid.height > 0, opts.cell_size > 0;
    }
    encode(&img)
}

} // verus!
