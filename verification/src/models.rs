//! Engine data models: the raw-RGB `PixelGrid` produced before color
//! matching, the color-matched `BeadPattern` (the source of truth) and the
//! per-color `ColorStat`.

use vstd::prelude::*;

verus! {

/// A fixed-size, row-major grid of raw RGB pixels, one cell per bead, before
/// color matching. `pixels[y * width + x]` is the cell at `(x, y)`; the
/// invariant `pixels.len() == width * height` is produced by `resize_image`.
#[derive(Debug, Clone, PartialEq)]
pub struct PixelGrid {
    /// Grid width in cells.
    pub width: u32,
    /// Grid height in cells.
    pub height: u32,
    /// Row-major raw RGB pixels; `pixels[y * width + x]` is cell `(x, y)`.
    pub pixels: Vec<[u8; 3]>,
}

impl PixelGrid {
    /// The shape invariant: one pixel per cell.
    pub open spec fn wf(&self) -> bool {
        self.pixels@.len() == self.width as int * self.height as int
    }
}

/// The color-matched pattern. `cells[y * width + x]` is the palette index of
/// cell `(x, y)`; the invariant `cells.len() == width * height` is produced by
/// `match_pattern` from a well-formed `PixelGrid`.
#[derive(Debug, Clone, PartialEq)]
pub struct BeadPattern {
    /// Pattern width in cells.
    pub width: u32,
    /// Pattern height in cells.
    pub height: u32,
    /// Row-major palette indices; `cells[y * width + x]` is cell `(x, y)`.
    pub cells: Vec<u16>,
}

impl BeadPattern {
    /// The shape invariant: one palette index per cell.
    pub open spec fn wf(&self) -> bool {
        self.cells@.len() == self.width as int * self.height as int
    }

    /// The palette index at `(x, y)` as `cell_at` reports it.
    pub open spec fn spec_cell_at(&self, x: u32, y: u32) -> Option<u16> {
        let idx = y as int * self.width as int + x as int;
        if x < self.width && y < self.height && idx < self.cells@.len() {
            Some(self.cells@[idx])
        } else {
            None
        }
    }

    /// The palette index at `(x, y)`, or `None` if out of bounds (or if a
    /// malformed pattern has no cell at that row-major position).
    pub fn cell_at(&self, x: u32, y: u32) -> (r: Option<u16>)
        ensures
            r == self.spec_cell_at(x, y),
    {
        if x >= self.width || y >= self.height {
            return None;
        }
        proof {
            assert(y as int * self.width as int <= 0xffff_ffff * 0xffff_ffff)
                by (nonlinear_arith)
                requires y <= 0xffff_ffff, self.width <= 0xffff_ffff;
        }
        let idx = y as u64 * self.width as u64 + x as u64;
        if idx < self.cells.len() as u64 {
            Some(self.cells[idx as usize])
        } else {
            None
        }
    }
}

/// Per-color usage of a pattern: the palette color's `code` and `name`, and
/// how many cells use it.
#[derive(Debug, Clone, PartialEq)]
pub struct ColorStat {
    pub code: String,
    pub name: String,
    pub count: u32,
}

} // verus!
