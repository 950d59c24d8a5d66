//! The generation entry point: [`generate_pattern`] chains the existing
//! primitives (`image_to_grid` → matcher → optional color reduction →
//! optional despeckle → statistics → renderer) into one call, threading the
//! same palette through every stage. No new algorithm lives here.

use vstd::prelude::*;
use crate::cleanup::{despeckle, is_despeckle_of};
use crate::error::BeadError;
use crate::image::{
    crop_dims, decode_image, grid_crop_width, grid_fits, grid_ok, image_to_grid, is_grid_error, is_target_grid,
    target_failure, alloc_limit, ResizeOptions,
};
use crate::matcher::{check_palette_len, match_pattern, palette_len_failure, ColorMatcher, MatcherKind};
use crate::quantizer::{
    is_greedy_run, is_reduction, lemma_rgb_greedy_run_unique, run_merges, start_state, BeadReducer, GreedyReducer,
    MergeTarget, RgbSnapshot,
};
use crate::models::{BeadPattern, ColorStat, PixelGrid};
use crate::palette::Palette;
use crate::renderer::{
    grid_failure, grid_out_h, grid_out_w, grid_pixels, png_encoding, preview_failure, preview_pixels,
    render_grid, render_preview, RenderOptions,
};
use crate::statistics::{are_color_stats, count_colors, generate_summary, summary_text};

verus! {

/// How the pattern is generated from the image.
#[derive(Debug, Clone, Copy, PartialEq, Eq, Structural)]
pub enum GeneratorKind {
    /// Crop, resize, then match every cell against the palette.
    Staged,
    /// Superpixel clustering of the cropped source, snapped to the palette.
    Gerstner,
}

impl Default for GeneratorKind {
    /// The staged generator.
    fn default() -> (k: GeneratorKind)
        ensures
            k == GeneratorKind::Staged,
    {
        GeneratorKind::Staged
    }
}

/// Options for [`generate_pattern`]: target grid size in cells, the resize
/// and render sub-options, the matching and generation strategies, and the
/// optional color-count limit and despeckle threshold.
#[derive(Debug, Clone, PartialEq)]
pub struct GenerateOptions {
    /// Target grid width in cells.
    pub width: u32,
    /// Target grid height in cells.
    pub height: u32,
    /// How the source image is resized into the grid.
    pub resize: ResizeOptions,
    /// How the pattern is rendered to PNG.
    pub render: RenderOptions,
    /// Which color space matching (and color reduction) compares in.
    pub matcher: MatcherKind,
    /// How the pattern is generated from the image.
    pub generator: GeneratorKind,
    /// Limit the pattern to at most this many bead colors.
    pub max_colors: Option<u32>,
    /// Merge same-color regions of at most this many beads into their
    /// majority neighbor color.
    pub despeckle: Option<u32>,
}

impl Default for GenerateOptions {
    /// A 0×0 grid, default resize and render options, the default matcher and
    /// generator, no color limit and no despeckle.
    fn default() -> (o: GenerateOptions)
        ensures
            o.width == 0,
            o.height == 0,
            o.resize.filter == crate::image::FilterType::Lanczos3,
            o.render.cell_size == 10,
            o.render.shape == crate::renderer::BeadShape::Square,
            o.matcher == MatcherKind::Oklab,
            o.generator == GeneratorKind::Staged,
            o.max_colors is None,
            o.despeckle is None,
    {
        GenerateOptions {
            width: 0,
            height: 0,
            resize: ResizeOptions::default(),
            render: RenderOptions::default(),
            matcher: MatcherKind::default(),
            generator: GeneratorKind::default(),
            max_colors: None,
            despeckle: None,
        }
    }
}

/// The full result of a generation: the pattern (the source of truth), its
/// statistics and summary, the palette's brand, and the two rendered PNGs.
#[derive(Debug)]
pub struct GenerateResult {
    /// The color-matched pattern.
    pub pattern: BeadPattern,
    /// Per-color statistics of `pattern` (count descending, lowest index on ties).
    pub stats: Vec<ColorStat>,
    /// The copyable summary text.
    pub summary: String,
    /// The palette's brand label.
    pub brand: String,
    /// Rendered preview PNG bytes.
    pub preview_png: Vec<u8>,
    /// Rendered grid PNG bytes.
    pub grid_png: Vec<u8>,
}

/// `res` packages `pattern` with its statistics, summary, brand and the two
/// renderings made with `render` and `palette`.
pub open spec fn is_result_for(res: &GenerateResult, pattern: &BeadPattern, palette: &Palette, render: RenderOptions) -> bool {
    &&& res.pattern == *pattern
    &&& are_color_stats(res.stats@, pattern, palette)
    &&& res.summary@ == summary_text(pattern.width, pattern.height, pattern.cells@.len() as u32, palette.brand@, res.stats@)
    &&& res.brand@ == palette.brand@
    &&& res.preview_png@ == png_encoding(
        (pattern.width * render.cell_size) as u32,
        (pattern.height * render.cell_size) as u32,
        preview_pixels(pattern, palette, render.cell_size),
    )
    &&& res.grid_png@ == png_encoding(
        grid_out_w(pattern.width as int, pattern.height as int, render.cell_size as int) as u32,
        grid_out_h(pattern.width as int, pattern.height as int, render.cell_size as int) as u32,
        grid_pixels(pattern, palette, render.cell_size),
    )
}

/// `e` is the error rendering a `width × height` pattern at `cell` gives:
/// the preview's first guard that fails, then the grid's (no error when
/// none fails).
pub open spec fn is_render_error(e: BeadError, width: u32, height: u32, cell: u32) -> bool {
    match preview_failure(width, height, cell) {
        Some(reason) => e matches BeadError::InvalidImage { reason: m } && m@ == reason,
        None => match grid_failure(width, height, cell) {
            Some(reason) => e matches BeadError::InvalidImage { reason: m } && m@ == reason,
            None => false,
        },
    }
}

/// Both renderings of a `width × height` pattern at `cell` pass their guards.
pub open spec fn renders(width: u32, height: u32, cell: u32) -> bool {
    preview_failure(width, height, cell) is None && grid_failure(width, height, cell) is None
}

/// Package a finished pattern: statistics, summary, brand, preview and grid
/// renderings, all from the same `palette`. Rendering errors pass through:
/// the preview's first, then the grid's; otherwise the result is complete.
pub fn build_result(pattern: BeadPattern, palette: &Palette, render: &RenderOptions)
    -> (r: Result<GenerateResult, BeadError>)
    requires
        pattern.cells@.len() <= u32::MAX,
    ensures
        match r {
            Ok(res) => renders(pattern.width, pattern.height, render.cell_size)
                && is_result_for(&res, &pattern, palette, *render),
            Err(e) => is_render_error(e, pattern.width, pattern.height, render.cell_size),
        },
        renders(pattern.width, pattern.height, render.cell_size) ==> r is Ok,
{
    let stats = count_colors(&pattern, palette);
    let summary = generate_summary(&pattern, palette);
    let ghost sum_stats = choose|s: Seq<ColorStat>| #[trigger] are_color_stats(s, &pattern, palette)
        && summary@ == summary_text(pattern.width, pattern.height, pattern.cells@.len() as u32, palette.brand@, s);
    let preview_png = match render_preview(&pattern, palette, render) {
        Ok(b) => b,
        Err(e) => return Err(e),
    };
    let grid_png = match render_grid(&pattern, palette, render) {
        Ok(b) => b,
        Err(e) => return Err(e),
    };
    proof {
        crate::statistics::lemma_color_stats_unique(stats@, sum_stats, &pattern, palette);
        crate::statistics::lemma_stat_lines_view(stats@, sum_stats);
    }
    Ok(GenerateResult { pattern, stats, summary, brand: palette.brand.clone(), preview_png, grid_png })
}

/// `out` is `input` reduced to at most `max_colors` colors by the greedy
/// merge run in `space` over a palette of `palette_len` colors: some greedy
/// run of that space from the input's usage, and each cell takes the color
/// its input color was merged into.
pub open spec fn is_space_reduction<S: MergeTarget>(
    space: S,
    input: Seq<u16>,
    palette_len: int,
    max_colors: u32,
    out: Seq<u16>,
) -> bool {
    exists|steps: Seq<(usize, usize)>, asked: Seq<Vec<bool>>| {
        &&& #[trigger] is_greedy_run(space, start_state(input, palette_len), max_colors, steps, asked)
        &&& out.len() == input.len()
        &&& forall|i: int| 0 <= i < out.len() ==> #[trigger] out[i] as int
            == run_merges(start_state(input, palette_len), steps).2[input[i] as int]
    }
}

/// `fin` is `input` after the optional stages of `opts`: color reduction to
/// `max_colors` by the greedy merge run in `space` (over a palette of
/// `palette_len` colors), then despeckling with the `despeckle` threshold.
pub open spec fn is_refined<S: MergeTarget>(
    input: &BeadPattern,
    fin: &BeadPattern,
    opts: &GenerateOptions,
    space: S,
    palette_len: int,
) -> bool {
    exists|mid: BeadPattern| {
        &&& mid.width == input.width
        &&& mid.height == input.height
        &&& match opts.max_colors {
            None => mid.cells@ == input.cells@,
            Some(mc) => is_reduction(input.cells@, mid.cells@, mc)
                && is_space_reduction(space, input.cells@, palette_len, mc, mid.cells@),
        }
        &&& match opts.despeckle {
            None => *fin == mid,
            Some(mr) => is_despeckle_of(&mid, mr, fin),
        }
    }
}

/// In the RGB space the optional stages are deterministic: two refinements
/// of one pattern with the same options give the same pattern.
pub proof fn lemma_rgb_refinement_unique(
    input: &BeadPattern,
    fin1: &BeadPattern,
    fin2: &BeadPattern,
    opts: &GenerateOptions,
    space: RgbSnapshot,
    palette_len: int,
)
    requires
        palette_len == space.colors().len(),
        is_refined(input, fin1, opts, space, palette_len),
        is_refined(input, fin2, opts, space, palette_len),
    ensures
        fin1.width == fin2.width,
        fin1.height == fin2.height,
        fin1.cells@ == fin2.cells@,
{
    let mid1 = choose|mid: BeadPattern| {
        &&& mid.width == input.width
        &&& mid.height == input.height
        &&& match opts.max_colors {
            None => mid.cells@ == input.cells@,
            Some(mc) => is_reduction(input.cells@, mid.cells@, mc)
                && is_space_reduction(space, input.cells@, palette_len, mc, mid.cells@),
        }
        &&& match opts.despeckle {
            None => *fin1 == mid,
            Some(mr) => is_despeckle_of(&mid, mr, fin1),
        }
    };
    let mid2 = choose|mid: BeadPattern| {
        &&& mid.width == input.width
        &&& mid.height == input.height
        &&& match opts.max_colors {
            None => mid.cells@ == input.cells@,
            Some(mc) => is_reduction(input.cells@, mid.cells@, mc)
                && is_space_reduction(space, input.cells@, palette_len, mc, mid.cells@),
        }
        &&& match opts.despeckle {
            None => *fin2 == mid,
            Some(mr) => is_despeckle_of(&mid, mr, fin2),
        }
    };
    if let Some(mc) = opts.max_colors {
        let start = start_state(input.cells@, palette_len);
        let (steps1, asked1) = choose|steps: Seq<(usize, usize)>, asked: Seq<Vec<bool>>| {
            &&& #[trigger] is_greedy_run(space, start, mc, steps, asked)
            &&& mid1.cells@.len() == input.cells@.len()
            &&& forall|i: int| 0 <= i < mid1.cells@.len() ==> #[trigger] mid1.cells@[i] as int
                == run_merges(start, steps).2[input.cells@[i] as int]
        };
        let (steps2, asked2) = choose|steps: Seq<(usize, usize)>, asked: Seq<Vec<bool>>| {
            &&& #[trigger] is_greedy_run(space, start, mc, steps, asked)
            &&& mid2.cells@.len() == input.cells@.len()
            &&& forall|i: int| 0 <= i < mid2.cells@.len() ==> #[trigger] mid2.cells@[i] as int
                == run_merges(start, steps).2[input.cells@[i] as int]
        };
        lemma_rgb_greedy_run_unique(space, start, mc, steps1, asked1, steps2, asked2);
        assert forall|i: int| 0 <= i < mid1.cells@.len() implies mid1.cells@[i] == mid2.cells@[i] by {
            assert(mid1.cells@[i] as int == run_merges(start, steps1).2[input.cells@[i] as int]);
            assert(mid2.cells@[i] as int == run_merges(start, steps2).2[input.cells@[i] as int]);
        }
    }
    assert(mid1.cells@ =~= mid2.cells@);
    if let Some(mr) = opts.despeckle {
        if crate::cleanup::despeckle_shape_ok(&mid1) {
            assert forall|i: int| 0 <= i < fin1.cells@.len() implies fin1.cells@[i] == fin2.cells@[i] by {
                assert(fin1.cells@[i] == crate::cleanup::despeckled_cell(&mid1, mr, i));
                assert(fin2.cells@[i] == crate::cleanup::despeckled_cell(&mid2, mr, i));
            }
        }
        assert(fin1.cells@ =~= fin2.cells@);
    }
}

/// The error the reduction stage reports, if any: a zero `max_colors`, then a
/// palette size the matchers refuse.
pub open spec fn is_reduction_error(e: BeadError, max_colors: u32, palette_len: nat) -> bool {
    if max_colors == 0 {
        e matches BeadError::InvalidImage { reason } && reason@ == "reducer: max_colors must be >= 1, got 0"@
    } else {
        match palette_len_failure(palette_len) {
            Some(reason) => e matches BeadError::InvalidPalette { reason: r } && r@ == reason,
            None => false,
        }
    }
}

/// The reduction stage of `opts` cannot build its reducer: a zero
/// `max_colors`, or a palette size the matchers refuse.
pub open spec fn reduction_fails(palette_len: nat, opts: &GenerateOptions) -> bool {
    opts.max_colors matches Some(mc) && (mc == 0 || palette_len_failure(palette_len) is Some)
}

/// `e` is the error [`finish_pattern`] gives for a `width × height` pattern:
/// a reducer that cannot be built, then a rendering failure (no error when
/// none fails).
pub open spec fn is_finish_error(e: BeadError, width: u32, height: u32, palette_len: nat, opts: &GenerateOptions) -> bool {
    if reduction_fails(palette_len, opts) {
        is_reduction_error(e, opts.max_colors->Some_0, palette_len)
    } else {
        is_render_error(e, width, height, opts.render.cell_size)
    }
}

/// [`finish_pattern`] succeeds for a `width × height` pattern: the reducer,
/// if any, can be built and both renderings pass their guards.
pub open spec fn finish_ok(width: u32, height: u32, palette_len: nat, opts: &GenerateOptions) -> bool {
    !reduction_fails(palette_len, opts) && renders(width, height, opts.render.cell_size)
}

/// Finish a generated pattern: reduce it to `opts.max_colors` colors in
/// `space` when a limit is set, despeckle it with `opts.despeckle` when a
/// threshold is set, then [`build_result`]. A reducer that cannot be built
/// fails first; rendering errors pass through after it; otherwise the result
/// is complete.
pub fn finish_pattern<S: MergeTarget>(
    pattern: BeadPattern,
    palette: &Palette,
    opts: &GenerateOptions,
    space: S,
) -> (r: Result<GenerateResult, BeadError>)
    requires
        pattern.cells@.len() <= u32::MAX,
        opts.max_colors is Some ==> forall|i: int|
            0 <= i < pattern.cells@.len() ==> (#[trigger] pattern.cells@[i] as int) < palette.colors@.len(),
    ensures
        match r {
            Ok(res) => finish_ok(pattern.width, pattern.height, palette.colors@.len(), opts)
                && is_refined(&pattern, &res.pattern, opts, space, palette.colors@.len() as int)
                && is_result_for(&res, &res.pattern, palette, opts.render),
            Err(e) => is_finish_error(e, pattern.width, pattern.height, palette.colors@.len(), opts),
        },
        finish_ok(pattern.width, pattern.height, palette.colors@.len(), opts) ==> r is Ok,
{
    let ghost input = pattern;
    let ghost sp = space;
    let mut mid = pattern;
    match opts.max_colors {
        Some(mc) => {
            let reducer = match GreedyReducer::new(palette, space, mc) {
                Ok(g) => g,
                Err(e) => return Err(e),
            };
            mid = reducer.reduce(&mid);
        },
        None => {},
    }
    let ghost reduced = mid;
    let fin = match opts.despeckle {
        Some(mr) => despeckle(&mid, mr),
        None => mid,
    };
    proof {
        assert(fin.width == input.width && fin.height == input.height);
    }
    let ghost f = fin;
    match build_result(fin, palette, &opts.render) {
        Ok(res) => {
            assert(res.pattern == f);
            assert(is_refined(&input, &res.pattern, opts, sp, palette.colors@.len() as int)) by {
                assert(reduced.width == input.width && reduced.height == input.height);
            }
            Ok(res)
        },
        Err(e) => Err(e),
    }
}

/// `r` is what generating from `bytes` with `palette`, `opts` and `matcher`
/// gives: on success, a result whose pattern is the matched target grid
/// refined by the optional stages and packaged with its statistics and
/// renderings; on failure, the error of the first failing stage (target size,
/// decoding and cropping, palette size, matcher, then the finishing stages);
/// and success whenever no stage fails.
pub open spec fn is_generation<M: ColorMatcher, S: MergeTarget>(
    bytes: Seq<u8>,
    palette: &Palette,
    opts: &GenerateOptions,
    matcher: Result<M, BeadError>,
    space: S,
    r: Result<GenerateResult, BeadError>,
) -> bool {
    &&& match r {
        Ok(res) => {
            &&& grid_ok(bytes, opts.width, opts.height)
            &&& palette_len_failure(palette.colors@.len()) is None
            &&& finish_ok(opts.width, opts.height, palette.colors@.len(), opts)
            &&& matcher matches Ok(m) && exists|grid: PixelGrid, matched: BeadPattern| {
                &&& is_target_grid(bytes, opts.width, opts.height, opts.resize.filter, &grid)
                &&& matched.width == opts.width
                &&& matched.height == opts.height
                &&& matched.cells@.len() == grid.pixels@.len()
                &&& forall|i: int| 0 <= i < grid.pixels@.len()
                    ==> call_ensures(M::find_best_match, (&m, grid.pixels@[i]), #[trigger] matched.cells@[i])
                &&& is_refined(&matched, &res.pattern, opts, space, palette.colors@.len() as int)
                &&& is_result_for(&res, &res.pattern, palette, opts.render)
            }
        },
        Err(e) => if !grid_ok(bytes, opts.width, opts.height) {
            is_grid_error(bytes, opts.width, opts.height, e)
        } else if palette_len_failure(palette.colors@.len()) is Some {
            e matches BeadError::InvalidPalette { reason } && palette_len_failure(palette.colors@.len()) == Some(reason@)
        } else if matcher is Err {
            matcher == Err::<M, BeadError>(e)
        } else {
            is_finish_error(e, opts.width, opts.height, palette.colors@.len(), opts)
        },
    }
    &&& grid_ok(bytes, opts.width, opts.height) && palette_len_failure(palette.colors@.len()) is None
        && matcher is Ok && finish_ok(opts.width, opts.height, palette.colors@.len(), opts) ==> r is Ok
}

/// Generate a complete bead pattern from image bytes and a palette in one
/// call, on the staged path: `image_to_grid` (target size checked first, then
/// decode, crop, resize), the palette-size guard every matcher's constructor
/// runs, `match_pattern` with the matcher, then [`finish_pattern`] with
/// `space`. Errors from any stage pass through as their existing variant.
///
/// `matcher` is what building the matcher for `opts.matcher` from `palette`
/// gave, and `space` is built from `palette` too; when a color limit is set,
/// the matcher must only ever answer indices of `palette`, as a matcher built
/// from it does. The resampling buffers must fit in one allocation (see
/// [`grid_fits`]); [`generate_pattern_checked`] tests that first.
pub fn generate_pattern<M: ColorMatcher, S: MergeTarget>(
    image_bytes: &[u8],
    palette: &Palette,
    opts: &GenerateOptions,
    matcher: Result<M, BeadError>,
    space: S,
) -> (r: Result<GenerateResult, BeadError>)
    requires
        grid_fits(image_bytes@, opts.width, opts.height),
        target_failure(opts.width, opts.height) is None ==> opts.width as int * opts.height as int <= u32::MAX,
        opts.max_colors is Some ==> (matcher matches Ok(m) ==> forall|t: [u8; 3], c: u16|
            call_ensures(M::find_best_match, (&m, t), c) ==> (c as int) < palette.colors@.len()),
    ensures
        is_generation(image_bytes@, palette, opts, matcher, space, r),
{
    let grid = match image_to_grid(image_bytes, opts.width, opts.height, &opts.resize) {
        Ok(g) => g,
        Err(e) => return Err(e),
    };
    match check_palette_len(palette) {
        Ok(()) => {},
        Err(e) => return Err(e),
    }
    let m = match matcher {
        Ok(m) => m,
        Err(e) => return Err(e),
    };
    let pattern = match_pattern(&grid, &m);
    proof {
        assert(pattern.cells@.len() <= u32::MAX);
        if opts.max_colors is Some {
            assert forall|i: int| 0 <= i < pattern.cells@.len() implies (#[trigger] pattern.cells@[i] as int) < palette.colors@.len() by {
                assert(call_ensures(M::find_best_match, (&m, grid.pixels@[i]), pattern.cells@[i]));
            }
        }
    }
    let ghost p = pattern;
    let ghost sp = space;
    match finish_pattern(pattern, palette, opts, space) {
        Ok(res) => {
            assert(is_refined(&p, &res.pattern, opts, sp, palette.colors@.len() as int));
            Ok(res)
        },
        Err(e) => {
            assert(is_finish_error(e, opts.width, opts.height, palette.colors@.len(), opts));
            Err(e)
        },
    }
}

/// [`generate_pattern`], run only when its resampling buffers fit in one
/// allocation: the bytes are decoded once to learn the crop's width, and
/// `None` is returned, with nothing generated, when the `f32` intermediate
/// of that width by the target height would exceed `isize::MAX` bytes.
pub fn generate_pattern_checked<M: ColorMatcher, S: MergeTarget>(
    image_bytes: &[u8],
    palette: &Palette,
    opts: &GenerateOptions,
    matcher: Result<M, BeadError>,
    space: S,
) -> (r: Option<Result<GenerateResult, BeadError>>)
    requires
        target_failure(opts.width, opts.height) is None ==> 3 * (opts.width as int) * (opts.height as int) <= alloc_limit(),
        target_failure(opts.width, opts.height) is None ==> opts.width as int * opts.height as int <= u32::MAX,
        opts.max_colors is Some ==> (matcher matches Ok(m) ==> forall|t: [u8; 3], c: u16|
            call_ensures(M::find_best_match, (&m, t), c) ==> (c as int) < palette.colors@.len()),
    ensures
        r is None <==> !grid_fits(image_bytes@, opts.width, opts.height),
        r matches Some(g) ==> is_generation(image_bytes@, palette, opts, matcher, space, g),
{
    let w = opts.width;
    let h = opts.height;
    if w > 0 && h > 0 {
        match decode_image(image_bytes) {
            Ok(img) => {
                let (cw, ch) = crop_dims(img.width, img.height, w, h);
                if img.width > 0 && img.height > 0 && cw > 0 && ch > 0 {
                    proof {
                        assert(grid_ok(image_bytes@, w, h));
                        assert(cw == grid_crop_width(image_bytes@, w, h));
                        assert(16 * (cw as int) * (h as int) <= 16 * 0xffff_ffff_ffff_ffff * 0xffff_ffff)
                            by (nonlinear_arith)
                            requires cw <= 0xffff_ffff_ffff_ffff, h <= 0xffff_ffff;
                    }
                    if 16 * (cw as u128) * (h as u128) > isize::MAX as u128 {
                        return None;
                    }
                }
            },
            Err(_) => {},
        }
    }
    Some(generate_pattern(image_bytes, palette, opts, matcher, space))
}

} // verus!
