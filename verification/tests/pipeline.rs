use bead_core::image::image_to_grid;
use bead_core::matcher::{match_pattern, RgbMatcher};
use bead_core::pipeline::{finish_pattern, generate_pattern, generate_pattern_checked, GenerateOptions, GeneratorKind};
use bead_core::quantizer::RgbSnapshot;
use bead_core::renderer::{render_grid, render_preview};
use bead_core::statistics::{count_colors, generate_summary};
use bead_core::{despeckle, BeadError, BeadPattern, GenerateResult, MatcherKind, Palette, PaletteColor};

fn palette_from(brand: &str, colors: &[(&str, &str, [u8; 3])]) -> Palette {
    Palette {
        brand: brand.to_string(),
        colors: colors
            .iter()
            .map(|(code, name, rgb)| PaletteColor {
                code: code.to_string(),
                name: name.to_string(),
                rgb: *rgb,
            })
            .collect(),
    }
}

fn demo_palette() -> Palette {
    palette_from(
        "Test",
        &[
            ("R", "Red", [255, 0, 0]),
            ("G", "Green", [0, 255, 0]),
            ("B", "Blue", [0, 0, 255]),
            ("K", "Black", [0, 0, 0]),
            ("W", "White", [255, 255, 255]),
        ],
    )
}

fn demo_png(w: u32, h: u32) -> Vec<u8> {
    let img = ::image::RgbImage::from_fn(w, h, |x, y| {
        ::image::Rgb([(x % 256) as u8, (y % 256) as u8, ((x + y) % 256) as u8])
    });
    let mut buf = std::io::Cursor::new(Vec::new());
    ::image::DynamicImage::ImageRgb8(img)
        .write_to(&mut buf, ::image::ImageFormat::Png)
        .expect("encoding the test PNG must succeed");
    buf.into_inner()
}

fn decode(bytes: &[u8]) -> ::image::RgbImage {
    ::image::load_from_memory(bytes).expect("rendered PNG must decode").to_rgb8()
}

fn demo_opts(width: u32, height: u32) -> GenerateOptions {
    GenerateOptions {
        width,
        height,
        matcher: MatcherKind::Rgb,
        ..Default::default()
    }
}

fn generate(bytes: &[u8], palette: &Palette, opts: &GenerateOptions) -> Result<GenerateResult, BeadError> {
    generate_pattern(bytes, palette, opts, RgbMatcher::new(palette), RgbSnapshot::new(palette))
}

#[test]
fn generate_options_default() {
    let o = GenerateOptions::default();
    assert_eq!((o.width, o.height), (0, 0));
    assert_eq!(o.matcher, MatcherKind::Oklab);
    assert_eq!(o.generator, GeneratorKind::Staged);
    assert_eq!(o.max_colors, None);
    assert_eq!(o.despeckle, None);
    assert_eq!(o.render.cell_size, 10);
}

#[test]
fn generate_pattern_chains_faithfully() {
    let palette = demo_palette();
    let (w, h) = (16u32, 20u32);
    let bytes = demo_png(32, 40);
    let opts = demo_opts(w, h);

    let result = generate(&bytes, &palette, &opts).expect("generate must succeed");
    assert_eq!(result.pattern.width, w);
    assert_eq!(result.pattern.height, h);
    assert_eq!(result.pattern.cells.len() as u32, w * h);
    assert_eq!(result.brand, palette.brand);

    let grid = image_to_grid(&bytes, w, h, &opts.resize).expect("grid");
    let m = RgbMatcher::new(&palette).expect("matcher");
    let expected_pattern = match_pattern(&grid, &m);
    let expected_stats = count_colors(&expected_pattern, &palette);
    let expected_summary = generate_summary(&expected_pattern, &palette);
    let expected_preview = render_preview(&expected_pattern, &palette, &opts.render).expect("preview");
    let expected_grid_png = render_grid(&expected_pattern, &palette, &opts.render).expect("grid png");

    assert_eq!(result.pattern, expected_pattern);
    assert_eq!(result.stats, expected_stats);
    assert_eq!(result.summary, expected_summary);
    assert_eq!(result.preview_png, expected_preview);
    assert_eq!(result.grid_png, expected_grid_png);

    assert!(!result.preview_png.is_empty());
    assert!(!result.grid_png.is_empty());
    let preview_img = decode(&result.preview_png);
    let grid_img = decode(&result.grid_png);
    assert_eq!(
        (preview_img.width(), preview_img.height()),
        (w * opts.render.cell_size, h * opts.render.cell_size)
    );
    assert!(grid_img.width() >= preview_img.width());
    assert!(grid_img.height() >= preview_img.height());
}

#[test]
fn single_palette_invariant() {
    let palette = demo_palette();
    let (w, h) = (12u32, 12u32);
    let bytes = demo_png(24, 24);
    let opts = demo_opts(w, h);

    let result = generate(&bytes, &palette, &opts).expect("generate must succeed");
    let preview = decode(&result.preview_png);
    let cell = opts.render.cell_size;

    for stat in &result.stats {
        let index = palette
            .colors
            .iter()
            .position(|c| c.code == stat.code)
            .expect("every stat code must exist in the palette");
        assert_eq!(palette.colors[index].name, stat.name);
        let expected_rgb = palette.colors[index].rgb;
        let cell_pos = result
            .pattern
            .cells
            .iter()
            .position(|&c| c as usize == index)
            .expect("a used color's index must appear in cells");
        let cx = (cell_pos as u32) % w;
        let cy = (cell_pos as u32) / w;
        let px = preview.get_pixel(cx * cell + cell / 2, cy * cell + cell / 2).0;
        assert_eq!(px, expected_rgb, "cell ({cx},{cy}) renders {px:?}");
    }
}

#[test]
fn pipeline_errors_passthrough() {
    let palette = demo_palette();

    let err = generate(b"not an image", &palette, &demo_opts(8, 8)).expect_err("garbage must fail");
    assert!(matches!(err, BeadError::ImageDecode(_)), "expected ImageDecode, got {err:?}");

    let bytes = demo_png(16, 16);
    let err = generate(&bytes, &palette, &demo_opts(0, 8)).expect_err("width 0");
    match err {
        BeadError::InvalidImage { reason } => assert!(reason.contains("target width"), "got: {reason:?}"),
        other => panic!("expected InvalidImage, got {other:?}"),
    }

    let err = generate(&bytes, &palette, &demo_opts(8, 0)).expect_err("height 0");
    match err {
        BeadError::InvalidImage { reason } => assert!(reason.contains("target height"), "got: {reason:?}"),
        other => panic!("expected InvalidImage, got {other:?}"),
    }

    let empty_palette = Palette {
        brand: "Empty".to_string(),
        colors: vec![],
    };
    let err = generate(&bytes, &empty_palette, &demo_opts(8, 8)).expect_err("empty palette must be rejected");
    assert!(matches!(err, BeadError::InvalidPalette { .. }), "expected InvalidPalette, got {err:?}");

    // Image errors come before palette errors.
    let err = generate(b"not an image", &empty_palette, &demo_opts(8, 8)).expect_err("garbage");
    assert!(matches!(err, BeadError::ImageDecode(_)), "expected ImageDecode, got {err:?}");
}

#[test]
fn pipeline_deterministic() {
    let palette = demo_palette();
    let (w, h) = (14u32, 18u32);
    let bytes = demo_png(28, 36);
    let opts = demo_opts(w, h);

    let first = generate(&bytes, &palette, &opts).expect("first run");
    let second = generate(&bytes, &palette, &opts).expect("second run");

    assert_eq!(first.pattern, second.pattern);
    assert_eq!(first.stats, second.stats);
    assert_eq!(first.summary, second.summary);
    assert_eq!(first.brand, second.brand);
    assert_eq!(first.preview_png, second.preview_png, "preview PNG must be byte-equal");
    assert_eq!(first.grid_png, second.grid_png, "grid PNG must be byte-equal");
}

#[test]
fn pipeline_max_colors_limits_colors() {
    let palette = demo_palette();
    let bytes = demo_png(32, 40);
    let mut opts = demo_opts(16, 20);
    let plain = generate(&bytes, &palette, &opts).expect("plain run");
    opts.max_colors = Some(2);
    let reduced = generate(&bytes, &palette, &opts).expect("reduced run");
    let mut used = reduced.pattern.cells.clone();
    used.sort_unstable();
    used.dedup();
    assert!(used.len() <= 2);
    assert!(used.iter().all(|c| plain.pattern.cells.contains(c)));
    assert_eq!(reduced.stats, count_colors(&reduced.pattern, &palette));

    opts.max_colors = Some(0);
    let err = generate(&bytes, &palette, &opts).expect_err("max_colors 0 must be rejected");
    match err {
        BeadError::InvalidImage { reason } => assert!(reason.contains("max_colors")),
        other => panic!("expected InvalidImage, got {other:?}"),
    }
}

#[test]
fn finish_pattern_stages() {
    let palette = palette_from("P", &[("A", "Aa", [0, 0, 0]), ("B", "Bb", [9, 9, 9])]);
    let pattern = BeadPattern {
        width: 3,
        height: 3,
        cells: vec![0, 0, 0, 0, 1, 0, 0, 0, 0],
    };
    let mut opts = demo_opts(3, 3);
    opts.render.cell_size = 5;

    let kept = finish_pattern(pattern.clone(), &palette, &opts, RgbSnapshot::new(&palette)).expect("plain");
    assert_eq!(kept.pattern, pattern);

    opts.despeckle = Some(0);
    let noop = finish_pattern(pattern.clone(), &palette, &opts, RgbSnapshot::new(&palette)).expect("noop");
    assert_eq!(noop.pattern, pattern);
    assert_eq!(noop.preview_png, kept.preview_png);

    opts.despeckle = Some(1);
    let cleaned = finish_pattern(pattern.clone(), &palette, &opts, RgbSnapshot::new(&palette)).expect("clean");
    assert_eq!(cleaned.pattern, despeckle(&pattern, 1));
    assert_eq!(cleaned.pattern.cells, vec![0; 9]);
    assert_eq!(cleaned.summary, "Bead Pattern Summary\nSize: 3 x 3\nTotal Beads: 9\nPalette: P\n\nA Aa: 9\n");
}

#[test]
fn checked_generation_runs_within_limits() {
    let palette = demo_palette();
    let bytes = demo_png(32, 40);
    let opts = demo_opts(16, 20);
    let checked = generate_pattern_checked(&bytes, &palette, &opts, RgbMatcher::new(&palette), RgbSnapshot::new(&palette))
        .expect("a small target fits")
        .expect("generate must succeed");
    let direct = generate(&bytes, &palette, &opts).expect("generate must succeed");
    assert_eq!(checked.pattern, direct.pattern);
    assert_eq!(checked.preview_png, direct.preview_png);

    let zero = demo_opts(0, 20);
    let r = generate_pattern_checked(&bytes, &palette, &zero, RgbMatcher::new(&palette), RgbSnapshot::new(&palette))
        .expect("a zero target is refused by the library, not by the limit");
    assert!(matches!(r, Err(BeadError::InvalidImage { .. })));
}
