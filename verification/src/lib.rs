//! Beadsmith engine: turns an image and a bead palette into a bead pattern,
//! its per-color statistics, a copyable summary and two rendered PNGs.
//! Pure data in, pure data out: no filesystem, no UI.

pub mod canvas;
pub mod cleanup;
pub mod error;
pub mod geom;
pub mod gerstner;
pub mod image;
pub mod matcher;
pub mod models;
pub mod palette;
pub mod pipeline;
pub mod quantizer;
pub mod renderer;
pub mod statistics;
pub mod text;

pub use cleanup::despeckle;
pub use error::BeadError;
pub use image::{crop_center, decode_image, image_to_grid, resize_image, FilterType, ResizeOptions, RgbImage};
pub use matcher::{match_pattern, ColorMatcher, MatcherKind, RgbMatcher};
pub use models::{BeadPattern, ColorStat, PixelGrid};
pub use palette::{palette_from_raw, parse_hex, validate_palette, Palette, PaletteColor, RawColor, RawPalette};
pub use pipeline::{build_result, finish_pattern, generate_pattern, GenerateOptions, GenerateResult, GeneratorKind};
pub use quantizer::{BeadReducer, GreedyReducer, MergeTarget, RgbSnapshot};
pub use renderer::{render_grid, render_preview, BeadShape, RenderOptions};
pub use statistics::{count_colors, generate_summary, total_beads};
