use bead_core::renderer::{render_grid, render_preview, BeadShape, RenderOptions};
use bead_core::{BeadError, BeadPattern, Palette, PaletteColor};

const MISSING: [u8; 3] = [255, 0, 255];
const THIN: [u8; 3] = [200, 200, 200];
const BOLD: [u8; 3] = [120, 120, 120];
const TEXT: [u8; 3] = [0, 0, 0];

/// The 3x5 digit font the grid labels use, one row per entry, high bit left.
const DIGITS_3X5: [[u8; 5]; 10] = [
    [0b111, 0b101, 0b101, 0b101, 0b111],
    [0b010, 0b110, 0b010, 0b010, 0b111],
    [0b111, 0b001, 0b111, 0b100, 0b111],
    [0b111, 0b001, 0b111, 0b001, 0b111],
    [0b101, 0b101, 0b111, 0b001, 0b001],
    [0b111, 0b100, 0b111, 0b001, 0b111],
    [0b111, 0b100, 0b111, 0b101, 0b111],
    [0b111, 0b001, 0b010, 0b100, 0b100],
    [0b111, 0b101, 0b111, 0b101, 0b111],
    [0b111, 0b101, 0b111, 0b001, 0b111],
];

/// Width of a `digits`-digit label at `scale`: 3 columns plus a 1-column gap
/// per digit, without the trailing gap.
fn num_w(digits: u32, scale: u32) -> u32 {
    digits * 4 * scale - scale
}

/// Build a palette whose color `i` has rgb `rgbs[i]` (code/name synthesized).
fn palette_with(rgbs: &[[u8; 3]]) -> Palette {
    Palette {
        brand: "Test".to_string(),
        colors: rgbs
            .iter()
            .enumerate()
            .map(|(i, &rgb)| PaletteColor {
                code: format!("C{i:02}"),
                name: format!("Color {i}"),
                rgb,
            })
            .collect(),
    }
}

/// Decode PNG bytes back to an RgbImage for pixel assertions.
fn decode(bytes: &[u8]) -> ::image::RgbImage {
    ::image::load_from_memory(bytes)
        .expect("rendered PNG must decode")
        .to_rgb8()
}

fn px(img: &::image::RgbImage, x: u32, y: u32) -> [u8; 3] {
    img.get_pixel(x, y).0
}

#[test]
fn preview_size_and_per_cell_color() {
    let w = 3u32;
    let h = 2u32;
    let c = 4u32;
    let rgbs = [[10, 20, 30], [40, 50, 60], [70, 80, 90], [100, 110, 120]];
    let palette = palette_with(&rgbs);
    let cells: Vec<u16> = vec![0, 1, 2, 3, 0, 1];
    let grid = BeadPattern {
        width: w,
        height: h,
        cells: cells.clone(),
    };
    let opts = RenderOptions {
        cell_size: c,
        shape: BeadShape::Square,
    };

    let bytes = render_preview(&grid, &palette, &opts).expect("render_preview ok");
    let img = decode(&bytes);

    assert_eq!(img.width(), w * c);
    assert_eq!(img.height(), h * c);

    for y in 0..h {
        for x in 0..w {
            let idx = cells[(y * w + x) as usize] as usize;
            let expected = rgbs[idx];
            for &(dx, dy) in &[
                (0u32, 0u32),
                (c - 1, 0),
                (0, c - 1),
                (c - 1, c - 1),
                (c / 2, c / 2),
            ] {
                assert_eq!(
                    px(&img, x * c + dx, y * c + dy),
                    expected,
                    "preview cell ({x},{y}) offset ({dx},{dy})"
                );
            }
        }
    }

    assert_eq!(px(&img, 0, 0), rgbs[cells[0] as usize]);
    assert_eq!(
        px(&img, w * c - 1, 0),
        rgbs[cells[(w - 1) as usize] as usize]
    );
    assert_eq!(
        px(&img, 0, h * c - 1),
        rgbs[cells[((h - 1) * w) as usize] as usize]
    );
    assert_eq!(
        px(&img, w * c - 1, h * c - 1),
        rgbs[cells[((h - 1) * w + (w - 1)) as usize] as usize]
    );
}

#[test]
fn grid_geometry_exact() {
    let w = 13u32;
    let h = 13u32;
    let cell = 10u32;
    let scale = 2u32;
    let pad = 2u32;
    let margin_left = 18u32;
    let margin_top = 14u32;
    let out_w = 148u32;
    let out_h = 144u32;

    let rgbs = [[12u8, 34, 56], [200, 10, 10]];
    let palette = palette_with(&rgbs);
    let cells: Vec<u16> = vec![0u16; (w * h) as usize];
    let grid = BeadPattern {
        width: w,
        height: h,
        cells,
    };
    let opts = RenderOptions {
        cell_size: cell,
        shape: BeadShape::Square,
    };

    let bytes = render_grid(&grid, &palette, &opts).expect("render_grid ok");
    let img = decode(&bytes);

    assert_eq!(img.width(), out_w, "out_w");
    assert_eq!(img.height(), out_h, "out_h");

    let vy = margin_top + 5;
    for bx in 1u32..=9 {
        let x = margin_left + bx * cell;
        assert_eq!(
            px(&img, x, vy),
            THIN,
            "vertical boundary {bx} must be THIN at x={x}"
        );
    }
    let x10 = margin_left + 10 * cell;
    assert_eq!(
        px(&img, x10, vy),
        BOLD,
        "10th vertical boundary must be BOLD"
    );

    let hx = margin_left + 5;
    for by in 1u32..=9 {
        let y = margin_top + by * cell;
        assert_eq!(
            px(&img, hx, y),
            THIN,
            "horizontal boundary {by} must be THIN at y={y}"
        );
    }
    let y10 = margin_top + 10 * cell;
    assert_eq!(
        px(&img, hx, y10),
        BOLD,
        "10th horizontal boundary must be BOLD"
    );

    assert_eq!(
        px(&img, margin_left + 10 * cell, margin_top + cell),
        BOLD,
        "bold vertical must win over thin horizontal at their crossing"
    );
    assert_eq!(
        px(&img, margin_left + cell, margin_top + 10 * cell),
        BOLD,
        "bold horizontal must win over thin vertical at their crossing"
    );
    assert_eq!(
        px(&img, margin_left + 10 * cell, margin_top + 10 * cell),
        BOLD,
        "bold × bold crossing must be BOLD"
    );

    let label_right = margin_left + 10 * cell;
    let label_w = num_w(2, scale);
    let label_x0 = label_right - label_w;
    let label_y0 = pad;

    assert_eq!(label_x0, 104, "label left anchor");
    assert!(
        label_right <= out_w,
        "label right edge must not exceed out_w"
    );

    assert_glyphs(&img, label_x0, label_y0, &[1, 0], scale);

    let second_digit_x0 = label_x0 + (3 * scale + scale);
    assert_eq!(
        px(&img, second_digit_x0, label_y0),
        TEXT,
        "second digit must be '0' (top-left set), proving label is '10' not '11'"
    );

    let narrow = BeadPattern {
        width: 5,
        height: 13,
        cells: vec![0u16; 5 * 13],
    };
    let nbytes = render_grid(&narrow, &palette, &opts).expect("narrow grid ok");
    let nimg = decode(&nbytes);
    assert_eq!(nimg.width(), 18 + 5 * 10, "narrow out_w");
    assert_eq!(nimg.height(), 13 * 10, "narrow out_h (margin_top==0)");
}

/// Assert the exact glyph pixels for a sequence of digits drawn at top-left
/// `(x0, y0)` with integer `scale`, using the font `DIGITS_3X5`. Every
/// pixel inside each glyph's 3x5 (scaled) box must be TEXT where the bitmap
/// bit is set and must NOT be TEXT where it is clear (proving the exact digit
/// and alignment).
fn assert_glyphs(img: &::image::RgbImage, x0: u32, y0: u32, digits: &[usize], scale: u32) {
    let mut cursor_x = x0;
    for &d in digits {
        let glyph = &DIGITS_3X5[d];
        for (row, bits) in glyph.iter().enumerate() {
            for col in 0..3u32 {
                let set = (bits >> (2 - col)) & 1 == 1;
                let base_x = cursor_x + col * scale;
                let base_y = y0 + row as u32 * scale;
                for sy in 0..scale {
                    for sx in 0..scale {
                        let p = px(img, base_x + sx, base_y + sy);
                        if set {
                            assert_eq!(
                                p,
                                TEXT,
                                "glyph digit {d} row {row} col {col} ({},{}) must be TEXT",
                                base_x + sx,
                                base_y + sy
                            );
                        } else {
                            assert_ne!(
                                p,
                                TEXT,
                                "glyph digit {d} row {row} col {col} ({},{}) must NOT be TEXT",
                                base_x + sx,
                                base_y + sy
                            );
                        }
                    }
                }
            }
        }
        cursor_x += 3 * scale + scale;
    }
}

#[test]
fn grid_multidigit_label_fits_margin() {
    let w = 13u32;
    let h = 105u32;
    let cell = 5u32;
    let scale = 1u32;
    let pad = 1u32;
    let margin_left = 13u32;
    let margin_top = 7u32;

    let palette = palette_with(&[[1u8, 2, 3]]);
    let grid = BeadPattern {
        width: w,
        height: h,
        cells: vec![0u16; (w * h) as usize],
    };
    let opts = RenderOptions {
        cell_size: cell,
        shape: BeadShape::Square,
    };

    let bytes = render_grid(&grid, &palette, &opts).expect("render_grid ok");
    let img = decode(&bytes);

    let label_right = margin_left - pad;
    let label_w = num_w(3, scale);
    let label_x0 = label_right - label_w;
    let label_y0 = margin_top + (100 - 1) * cell;

    assert!(
        label_x0 + label_w <= margin_left,
        "label '100' right edge must stay within margin_left"
    );
    assert!(
        label_y0 + 5 * scale <= img.height(),
        "label '100' must fit vertically"
    );

    assert_glyphs(&img, label_x0, label_y0, &[1, 0, 0], scale);
}

#[test]
fn grid_non_step_multiple_dims_no_panic() {
    let w = 13u32;
    let h = 17u32;
    let cell = 5u32;
    let palette = palette_with(&[[9u8, 9, 9]]);
    let grid = BeadPattern {
        width: w,
        height: h,
        cells: vec![0u16; (w * h) as usize],
    };
    let opts = RenderOptions {
        cell_size: cell,
        shape: BeadShape::Square,
    };

    let bytes = render_grid(&grid, &palette, &opts).expect("render_grid ok (no panic)");
    let img = decode(&bytes);
    assert_eq!(img.width(), 9 + 13 * 5, "out_w");
    assert_eq!(img.height(), 7 + 17 * 5, "out_h");
}

#[test]
fn render_options_default() {
    let opts = RenderOptions::default();
    assert_eq!(opts.cell_size, 10);
    assert_eq!(opts.shape, BeadShape::Square);
}

#[test]
fn invalid_input_sentinel_not_panic() {
    let cell = 5u32;
    let opts = RenderOptions {
        cell_size: cell,
        shape: BeadShape::Square,
    };

    let palette_small = palette_with(&[[10u8, 20, 30]]);
    let grid_oob = BeadPattern {
        width: 2,
        height: 1,
        cells: vec![0, 5],
    };
    for which in ["preview", "grid"] {
        let bytes = if which == "preview" {
            render_preview(&grid_oob, &palette_small, &opts)
        } else {
            render_grid(&grid_oob, &palette_small, &opts)
        }
        .unwrap_or_else(|e| panic!("{which} must not error on oob index: {e:?}"));
        let img = decode(&bytes);
        let (ox, oy) = (cell + cell / 2, cell / 2);
        assert_eq!(
            px(&img, ox, oy),
            MISSING,
            "{which}: out-of-range cell must be MISSING sentinel"
        );
    }

    let palette_ok = palette_with(&[[10u8, 20, 30]]);
    let grid_short = BeadPattern {
        width: 2,
        height: 1,
        cells: vec![0],
    };
    for which in ["preview", "grid"] {
        let bytes = if which == "preview" {
            render_preview(&grid_short, &palette_ok, &opts)
        } else {
            render_grid(&grid_short, &palette_ok, &opts)
        }
        .unwrap_or_else(|e| panic!("{which} must not error on short cells: {e:?}"));
        let img = decode(&bytes);
        let (ox, oy) = (cell + cell / 2, cell / 2);
        assert_eq!(
            px(&img, ox, oy),
            MISSING,
            "{which}: missing cell (short cells) must be MISSING sentinel"
        );
        assert_eq!(
            px(&img, cell / 2, cell / 2),
            [10, 20, 30],
            "{which}: present cell must be its palette color"
        );
    }

    let palette_empty = Palette {
        brand: "Empty".to_string(),
        colors: vec![],
    };
    let grid_any = BeadPattern {
        width: 2,
        height: 2,
        cells: vec![0, 0, 0, 0],
    };
    for which in ["preview", "grid"] {
        let bytes = if which == "preview" {
            render_preview(&grid_any, &palette_empty, &opts)
        } else {
            render_grid(&grid_any, &palette_empty, &opts)
        }
        .unwrap_or_else(|e| panic!("{which} must not error on empty palette: {e:?}"));
        let img = decode(&bytes);
        for y in 0..2u32 {
            for x in 0..2u32 {
                assert_eq!(
                    px(&img, x * cell + cell / 2, y * cell + cell / 2),
                    MISSING,
                    "{which}: empty-palette cell ({x},{y}) must be MISSING"
                );
            }
        }
    }
}

#[test]
fn degenerate_and_oversize_returns_err_not_panic() {
    let palette = palette_with(&[[1u8, 2, 3]]);

    let zero_w = BeadPattern {
        width: 0,
        height: 4,
        cells: vec![],
    };
    let zero_h = BeadPattern {
        width: 4,
        height: 0,
        cells: vec![],
    };
    let normal = BeadPattern {
        width: 4,
        height: 4,
        cells: vec![0u16; 16],
    };
    let ok_opts = RenderOptions {
        cell_size: 5,
        shape: BeadShape::Square,
    };
    let zero_cell = RenderOptions {
        cell_size: 0,
        shape: BeadShape::Square,
    };

    for (g, o, label) in [
        (&zero_w, &ok_opts, "width==0"),
        (&zero_h, &ok_opts, "height==0"),
        (&normal, &zero_cell, "cell_size==0"),
    ] {
        assert!(
            matches!(
                render_preview(g, &palette, o),
                Err(BeadError::InvalidImage { .. })
            ),
            "preview {label} must be Err(InvalidImage)"
        );
        assert!(
            matches!(
                render_grid(g, &palette, o),
                Err(BeadError::InvalidImage { .. })
            ),
            "grid {label} must be Err(InvalidImage)"
        );
    }

    for cs in 1u32..=4 {
        let opts = RenderOptions {
            cell_size: cs,
            shape: BeadShape::Square,
        };
        assert!(
            matches!(
                render_grid(&normal, &palette, &opts),
                Err(BeadError::InvalidImage { .. })
            ),
            "grid cell_size={cs} must be Err(InvalidImage)"
        );
        assert!(
            render_preview(&normal, &palette, &opts).is_ok(),
            "preview cell_size={cs} must be Ok"
        );
    }

    let huge1 = BeadPattern {
        width: u32::MAX,
        height: u32::MAX,
        cells: vec![],
    };
    assert!(
        matches!(
            render_preview(
                &huge1,
                &palette,
                &RenderOptions {
                    cell_size: 1,
                    shape: BeadShape::Square
                }
            ),
            Err(BeadError::InvalidImage { .. })
        ),
        "(i) preview u32::MAX x u32::MAX, cell 1 must be Err"
    );

    let huge2 = BeadPattern {
        width: 250_000_000,
        height: 250_000_000,
        cells: vec![],
    };
    let opts10 = RenderOptions {
        cell_size: 10,
        shape: BeadShape::Square,
    };
    assert!(
        matches!(
            render_preview(&huge2, &palette, &opts10),
            Err(BeadError::InvalidImage { .. })
        ),
        "(ii) preview 250M x 250M, cell 10 must be Err"
    );
    assert!(
        matches!(
            render_grid(&huge2, &palette, &opts10),
            Err(BeadError::InvalidImage { .. })
        ),
        "(ii) grid 250M x 250M, cell 10 must be Err"
    );

    let grid10 = BeadPattern {
        width: 10,
        height: 10,
        cells: vec![],
    };
    let huge_cell = RenderOptions {
        cell_size: 2_386_092_945,
        shape: BeadShape::Square,
    };
    assert!(
        matches!(
            render_grid(&grid10, &palette, &huge_cell),
            Err(BeadError::InvalidImage { .. })
        ),
        "(iii) grid margin-corner must be Err (margin computed in u128)"
    );

    let max_grid = BeadPattern {
        width: u32::MAX,
        height: u32::MAX,
        cells: vec![],
    };
    let max_cell = RenderOptions {
        cell_size: u32::MAX,
        shape: BeadShape::Square,
    };
    assert!(
        matches!(
            render_preview(&max_grid, &palette, &max_cell),
            Err(BeadError::InvalidImage { .. })
        ),
        "(iv) preview u32::MAX cubed must be Err (ordering: reject out before bytes)"
    );
    assert!(
        matches!(
            render_grid(&max_grid, &palette, &max_cell),
            Err(BeadError::InvalidImage { .. })
        ),
        "(iv) grid u32::MAX cubed must be Err (ordering: reject out before bytes)"
    );
}

#[test]
fn render_only_from_cells() {
    let cell = 5u32;
    let opts = RenderOptions {
        cell_size: cell,
        shape: BeadShape::Square,
    };
    let cells: Vec<u16> = vec![0, 1, 0, 1];
    let grid = BeadPattern {
        width: 2,
        height: 2,
        cells,
    };

    let pal_a = palette_with(&[[10u8, 20, 30], [40, 50, 60]]);
    let pal_b = palette_with(&[[200u8, 100, 0], [0, 150, 250]]);

    for which in ["preview", "grid"] {
        let bytes_a = if which == "preview" {
            render_preview(&grid, &pal_a, &opts)
        } else {
            render_grid(&grid, &pal_a, &opts)
        }
        .expect("ok");
        let bytes_b = if which == "preview" {
            render_preview(&grid, &pal_b, &opts)
        } else {
            render_grid(&grid, &pal_b, &opts)
        }
        .expect("ok");

        assert_ne!(
            bytes_a, bytes_b,
            "{which}: different palettes must produce different pixels"
        );

        let img_a = decode(&bytes_a);
        let img_b = decode(&bytes_b);
        assert_eq!(
            px(&img_a, cell / 2, cell / 2),
            [10, 20, 30],
            "{which} A cell0"
        );
        assert_eq!(
            px(&img_b, cell / 2, cell / 2),
            [200, 100, 0],
            "{which} B cell0"
        );
    }
}

#[test]
fn render_is_deterministic() {
    let cell = 6u32;
    let opts = RenderOptions {
        cell_size: cell,
        shape: BeadShape::Square,
    };
    let rgbs = [[11u8, 22, 33], [44, 55, 66], [77, 88, 99]];
    let palette = palette_with(&rgbs);
    let cells: Vec<u16> = vec![0, 1, 2, 4, 0, 1];
    let grid = BeadPattern {
        width: 3,
        height: 2,
        cells: cells.clone(),
    };

    let p1 = render_preview(&grid, &palette, &opts).expect("ok");
    let p2 = render_preview(&grid, &palette, &opts).expect("ok");
    assert_eq!(p1, p2, "render_preview must be byte-deterministic");

    let g1 = render_grid(&grid, &palette, &opts).expect("ok");
    let g2 = render_grid(&grid, &palette, &opts).expect("ok");
    assert_eq!(g1, g2, "render_grid must be byte-deterministic");

    let img = decode(&p1);
    for y in 0..2u32 {
        for x in 0..3u32 {
            let idx = cells[(y * 3 + x) as usize] as usize;
            let expected = rgbs.get(idx).copied().unwrap_or(MISSING);
            assert_eq!(
                px(&img, x * cell + cell / 2, y * cell + cell / 2),
                expected,
                "deterministic preview cell ({x},{y})"
            );
        }
    }
}
