//! Color matching: map raw RGB cells to palette indices. This is the single
//! hand-off from `PixelGrid` (raw RGB) to `BeadPattern` (palette indices).
//!
//! [`RgbMatcher`] compares squared RGB Euclidean distance in pure integer
//! arithmetic (no square root: it is monotonic and preserves the argmin) and
//! breaks ties by the lowest palette index.

use vstd::prelude::*;
use crate::error::BeadError;
use crate::models::{BeadPattern, PixelGrid};
use crate::palette::Palette;

verus! {

/// Maps an arbitrary RGB triple to the closest palette index.
pub trait ColorMatcher {
    /// Returns the index of the palette color closest to `target`.
    fn find_best_match(&self, target: [u8; 3]) -> u16;
}

/// Which color space a matcher compares in.
#[derive(Debug, Clone, Copy, PartialEq, Eq, Structural)]
pub enum MatcherKind {
    Rgb,
    Lab,
    Oklab,
}

impl Default for MatcherKind {
    /// The default matcher is Oklab.
    fn default() -> (k: MatcherKind)
        ensures
            k == MatcherKind::Oklab,
    {
        MatcherKind::Oklab
    }
}

/// Largest palette a matcher accepts: indices `0..=65535` must fit in `u16`.
pub const MAX_PALETTE_LEN: usize = 65536;

/// What the palette-size guard shared by all matchers reports: `None` for
/// `1..=65536` colors, otherwise the reason.
pub open spec fn palette_len_failure(len: nat) -> Option<Seq<char>> {
    if len == 0 {
        Some("matcher: palette has no colors"@)
    } else if len > 65536 {
        Some("matcher: palette has more than 65536 colors"@)
    } else {
        None
    }
}

/// Palette-size guard shared by all matchers: an empty palette, or one with
/// more than 65536 colors (whose indices would not fit in `u16`), is an
/// `InvalidPalette`. Never panics.
pub fn check_palette_len(palette: &Palette) -> (r: Result<(), BeadError>)
    ensures
        match palette_len_failure(palette.colors@.len()) {
            None => r is Ok,
            Some(reason) => r matches Err(BeadError::InvalidPalette { reason: e }) && e@ == reason,
        },
{
    if palette.colors.len() == 0 {
        return Err(BeadError::InvalidPalette {
            reason: String::from_str("matcher: palette has no colors"),
        });
    }
    if palette.colors.len() > MAX_PALETTE_LEN {
        return Err(BeadError::InvalidPalette {
            reason: String::from_str("matcher: palette has more than 65536 colors"),
        });
    }
    Ok(())
}

/// Squared RGB Euclidean distance.
pub open spec fn rgb_dist2(a: [u8; 3], b: [u8; 3]) -> int {
    (a[0] - b[0]) * (a[0] - b[0]) + (a[1] - b[1]) * (a[1] - b[1]) + (a[2] - b[2]) * (a[2] - b[2])
}

/// `i` is the lowest index among the colors nearest to `target`: no color is
/// strictly nearer, and every lower index is strictly farther.
pub open spec fn is_lowest_nearest(colors: Seq<[u8; 3]>, target: [u8; 3], i: int) -> bool {
    &&& 0 <= i < colors.len()
    &&& forall|j: int| 0 <= j < colors.len() ==> rgb_dist2(target, colors[i]) <= rgb_dist2(target, #[trigger] colors[j])
    &&& forall|j: int| 0 <= j < i ==> rgb_dist2(target, colors[i]) < rgb_dist2(target, #[trigger] colors[j])
}

/// At most one index is the lowest among the colors nearest to a target, so
/// `find_best_match` has a single right answer.
pub proof fn lemma_lowest_nearest_unique(colors: Seq<[u8; 3]>, target: [u8; 3], i: int, j: int)
    requires
        is_lowest_nearest(colors, target, i),
        is_lowest_nearest(colors, target, j),
    ensures
        i == j,
{
    assert(rgb_dist2(target, colors[i]) <= rgb_dist2(target, colors[j]));
    assert(rgb_dist2(target, colors[j]) <= rgb_dist2(target, colors[i]));
}

/// The RGB matcher: squared RGB Euclidean distance, lowest index on a tie.
///
/// Holds an order-preserving snapshot of the palette's RGB taken at
/// construction (`colors[i]` is `palette.colors[i].rgb`), so mutating the
/// palette afterwards does not affect the matcher.
#[derive(Debug)]
pub struct RgbMatcher {
    colors: Vec<[u8; 3]>,
}

impl RgbMatcher {
    #[verifier::type_invariant]
    spec fn inv(self) -> bool {
        0 < self.colors@.len() <= 65536
    }

    /// The matcher's color snapshot.
    pub closed spec fn colors(self) -> Seq<[u8; 3]> {
        self.colors@
    }

    /// Build a matcher from a one-time, order-preserving RGB snapshot of
    /// `palette`, size-validated like every matcher. Never panics.
    pub fn new(palette: &Palette) -> (r: Result<RgbMatcher, BeadError>)
        ensures
            match palette_len_failure(palette.colors@.len()) {
                None => r matches Ok(m) && m.colors() == palette@.1.map_values(
                    |c: (Seq<char>, Seq<char>, [u8; 3])| c.2,
                ),
                Some(reason) => r matches Err(BeadError::InvalidPalette { reason: e }) && e@
                    == reason,
            },
    {
        match check_palette_len(palette) {
            Ok(()) => {},
            Err(e) => return Err(e),
        }
        let n = palette.colors.len();
        let mut colors: Vec<[u8; 3]> = Vec::with_capacity(n);
        let mut i: usize = 0;
        while i < n
            invariant
                n == palette.colors@.len(),
                0 <= i <= n,
                colors@.len() == i,
                forall|k: int| 0 <= k < i ==> colors@[k] == #[trigger] palette.colors@[k].rgb,
            decreases n - i,
        {
            colors.push(palette.colors[i].rgb);
            i += 1;
        }
        let m = RgbMatcher { colors };
        assert(m.colors() =~= palette@.1.map_values(|c: (Seq<char>, Seq<char>, [u8; 3])| c.2));
        Ok(m)
    }
}

fn rgb_distance(a: [u8; 3], b: [u8; 3]) -> (d: u32)
    ensures
        d as int == rgb_dist2(a, b),
{
    let dr = a[0] as i32 - b[0] as i32;
    let dg = a[1] as i32 - b[1] as i32;
    let db = a[2] as i32 - b[2] as i32;
    assert(0 <= dr * dr <= 65025) by (nonlinear_arith) requires -255 <= dr <= 255;
    assert(0 <= dg * dg <= 65025) by (nonlinear_arith) requires -255 <= dg <= 255;
    assert(0 <= db * db <= 65025) by (nonlinear_arith) requires -255 <= db <= 255;
    (dr * dr + dg * dg + db * db) as u32
}

impl ColorMatcher for RgbMatcher {
    /// The lowest index among the snapshot colors nearest to `target` by
    /// squared RGB distance. Total: the snapshot is never empty.
    fn find_best_match(&self, target: [u8; 3]) -> (r: u16)
        ensures
            is_lowest_nearest(self.colors(), target, r as int),
    {
        proof {
            use_type_invariant(self);
        }
        let n = self.colors.len();
        let mut best_i: usize = 0;
        let mut best_d: u32 = u32::MAX;
        let mut i: usize = 0;
        while i < n
            invariant
                n == self.colors@.len(),
                0 < n <= 65536,
                0 <= i <= n,
                i > 0 ==> 0 <= best_i < i,
                i > 0 ==> best_d as int == rgb_dist2(target, self.colors@[best_i as int]),
                i == 0 ==> best_i == 0 && best_d == u32::MAX,
                forall|j: int| 0 <= j < i ==> best_d as int <= rgb_dist2(target, #[trigger] self.colors@[j]),
                forall|j: int| 0 <= j < best_i ==> (best_d as int) < rgb_dist2(target, #[trigger] self.colors@[j]),
            decreases n - i,
        {
            let d = rgb_distance(target, self.colors[i]);
            if d < best_d {
                best_d = d;
                best_i = i;
            }
            i += 1;
        }
        best_i as u16
    }
}

/// Map a `PixelGrid` (raw RGB) to a `BeadPattern` (palette indices), row-major
/// one-to-one: `cells[i]` is what `matcher.find_best_match(grid.pixels[i])`
/// returns, for the same `i`; `width` and `height` are carried over verbatim.
/// Total: a well-formed grid gives a well-formed pattern, and a degenerate
/// grid (`width == 0` or `height == 0`) gives an empty `cells`.
pub fn match_pattern<M: ColorMatcher>(grid: &PixelGrid, matcher: &M) -> (p: BeadPattern)
    ensures
        p.width == grid.width,
        p.height == grid.height,
        p.cells@.len() == grid.pixels@.len(),
        forall|i: int| 0 <= i < grid.pixels@.len()
            ==> call_ensures(M::find_best_match, (matcher, grid.pixels@[i]), #[trigger] p.cells@[i]),
{
    let n = grid.pixels.len();
    let mut cells: Vec<u16> = Vec::with_capacity(n);
    let mut i: usize = 0;
    while i < n
        invariant
            n == grid.pixels@.len(),
            0 <= i <= n,
            cells@.len() == i,
            forall|k: int| 0 <= k < i
                ==> call_ensures(M::find_best_match, (matcher, grid.pixels@[k]), #[trigger] cells@[k]),
        decreases n - i,
    {
        let c = matcher.find_best_match(grid.pixels[i]);
        cells.push(c);
        i += 1;
    }
    BeadPattern { width: grid.width, height: grid.height, cells }
}

} // verus!
