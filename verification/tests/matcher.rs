use bead_core::matcher::{match_pattern, ColorMatcher, MatcherKind, RgbMatcher};
use bead_core::{BeadError, Palette, PaletteColor, PixelGrid};

fn palette_from(colors: &[(&str, [u8; 3])]) -> Palette {
    Palette {
        brand: "Test".to_string(),
        colors: colors
            .iter()
            .map(|(code, rgb)| PaletteColor {
                code: code.to_string(),
                name: code.to_string(),
                rgb: *rgb,
            })
            .collect(),
    }
}

#[test]
fn exact_hit_maps_to_zero_distance() {
    let palette = palette_from(&[("A", [10, 20, 30]), ("B", [200, 100, 50]), ("C", [0, 0, 0])]);
    let matcher = RgbMatcher::new(&palette).expect("valid palette");

    assert_eq!(matcher.find_best_match([10, 20, 30]), 0);
    assert_eq!(matcher.find_best_match([200, 100, 50]), 1);
    assert_eq!(matcher.find_best_match([0, 0, 0]), 2);
}

#[test]
fn off_palette_maps_to_nearest() {
    let palette = palette_from(&[("BLACK", [0, 0, 0]), ("GRAY", [100, 100, 100])]);
    let matcher = RgbMatcher::new(&palette).expect("valid palette");

    assert_eq!(matcher.find_best_match([10, 10, 10]), 0);
    assert_eq!(matcher.find_best_match([90, 90, 90]), 1);
}

#[test]
fn distance_guards_widening_and_accumulator() {
    let palette = palette_from(&[("WHITE", [255, 255, 255]), ("BLACK", [0, 0, 0])]);
    let matcher = RgbMatcher::new(&palette).expect("valid palette");
    assert_eq!(matcher.find_best_match([0, 0, 0]), 1);

    let palette2 = palette_from(&[("W255", [255, 255, 255]), ("W254", [254, 254, 254])]);
    let matcher2 = RgbMatcher::new(&palette2).expect("valid palette");
    assert_eq!(matcher2.find_best_match([0, 0, 0]), 1);

    let palette3 = palette_from(&[("D148", [148, 148, 148]), ("D147", [147, 147, 147])]);
    let matcher3 = RgbMatcher::new(&palette3).expect("valid palette");
    assert_eq!(matcher3.find_best_match([0, 0, 0]), 1);
}

#[test]
fn tie_break_returns_lowest_index() {
    let palette = palette_from(&[("LO", [0, 0, 0]), ("HI", [20, 0, 0])]);
    let matcher = RgbMatcher::new(&palette).expect("valid palette");

    assert_eq!(matcher.find_best_match([10, 0, 0]), 0);
    assert_eq!(matcher.find_best_match([10, 0, 0]), 0);
    assert_eq!(matcher.find_best_match([10, 0, 0]), 0);
}

#[test]
fn exact_hit_duplicate_rgb_returns_lowest_index() {
    let palette = palette_from(&[("DUP_A", [42, 42, 42]), ("DUP_B", [42, 42, 42])]);
    let matcher = RgbMatcher::new(&palette).expect("valid palette");
    assert_eq!(matcher.find_best_match([42, 42, 42]), 0);
}

#[test]
fn match_pattern_shape_and_rowmajor() {
    let palette = palette_from(&[("BLACK", [0, 0, 0]), ("WHITE", [255, 255, 255])]);
    let matcher = RgbMatcher::new(&palette).expect("valid palette");

    let grid = PixelGrid {
        width: 2,
        height: 2,
        pixels: vec![[0, 0, 0], [255, 255, 255], [10, 10, 10], [240, 240, 240]],
    };
    let pattern = match_pattern(&grid, &matcher);

    assert_eq!(pattern.width, 2);
    assert_eq!(pattern.height, 2);
    assert_eq!(pattern.cells.len(), 4);
    assert_eq!(pattern.cells[0], matcher.find_best_match(grid.pixels[0]));
    assert_eq!(pattern.cells[3], matcher.find_best_match(grid.pixels[3]));
    assert_eq!(pattern.cells, vec![0, 1, 0, 1]);

    let empty = PixelGrid {
        width: 0,
        height: 5,
        pixels: vec![],
    };
    let empty_pattern = match_pattern(&empty, &matcher);
    assert_eq!(empty_pattern.width, 0);
    assert_eq!(empty_pattern.height, 5);
    assert_eq!(empty_pattern.cells.len(), 0);
}

#[test]
fn match_pattern_is_deterministic() {
    let palette = palette_from(&[
        ("BLACK", [0, 0, 0]),
        ("WHITE", [255, 255, 255]),
        ("MID", [128, 128, 128]),
    ]);
    let matcher = RgbMatcher::new(&palette).expect("valid palette");

    let grid = PixelGrid {
        width: 3,
        height: 2,
        pixels: vec![
            [0, 0, 0],
            [255, 255, 255],
            [128, 128, 128],
            [10, 10, 10],
            [200, 200, 200],
            [64, 64, 64],
        ],
    };

    let first = match_pattern(&grid, &matcher);
    let second = match_pattern(&grid, &matcher);
    assert_eq!(first, second);
    assert_eq!(first.cells, vec![0, 1, 2, 0, 1, 0]);
    assert_eq!(first.width, 3);
    assert_eq!(first.height, 2);
}

#[test]
fn empty_palette_rejected() {
    let palette = Palette {
        brand: "Empty".to_string(),
        colors: vec![],
    };
    let err = RgbMatcher::new(&palette).expect_err("empty palette must be rejected");
    match err {
        BeadError::InvalidPalette { reason } => {
            assert!(reason.contains("no colors"), "reason must mention no colors, got: {reason:?}");
        }
        other => panic!("expected InvalidPalette, got {other:?}"),
    }
}

#[test]
fn oversized_palette_rejected() {
    let make = |n: usize| Palette {
        brand: "Big".to_string(),
        colors: (0..n)
            .map(|i| PaletteColor {
                code: i.to_string(),
                name: i.to_string(),
                rgb: [0, 0, 0],
            })
            .collect(),
    };

    let err = RgbMatcher::new(&make(65537)).expect_err("65537 colors must be rejected");
    match err {
        BeadError::InvalidPalette { reason } => {
            assert!(reason.contains("more than"), "reason must mention more than, got: {reason:?}");
        }
        other => panic!("expected InvalidPalette, got {other:?}"),
    }

    assert!(RgbMatcher::new(&make(65536)).is_ok(), "65536 colors must be accepted");
}

#[test]
fn single_color_palette_ok() {
    let palette = palette_from(&[("ONLY", [123, 45, 67])]);
    let matcher = RgbMatcher::new(&palette).expect("valid palette");

    assert_eq!(matcher.find_best_match([0, 0, 0]), 0);
    assert_eq!(matcher.find_best_match([255, 255, 255]), 0);
    assert_eq!(matcher.find_best_match([123, 45, 67]), 0);
}

#[test]
fn matcher_kind_default_is_oklab() {
    assert_eq!(MatcherKind::default(), MatcherKind::Oklab);
}
