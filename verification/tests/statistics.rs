use bead_core::matcher::{match_pattern, RgbMatcher};
use bead_core::statistics::{count_colors, generate_summary, total_beads};
use bead_core::{BeadPattern, ColorStat, Palette, PaletteColor, PixelGrid};

fn palette_from(colors: &[(&str, &str, [u8; 3])]) -> Palette {
    Palette {
        brand: "Test".to_string(),
        colors: colors
            .iter()
            .map(|(code, name, rgb)| PaletteColor {
                code: code.to_string(),
                name: name.to_string(),
                rgb: *rgb,
            })
            .collect(),
    }
}

fn stat(code: &str, name: &str, count: u32) -> ColorStat {
    ColorStat {
        code: code.to_string(),
        name: name.to_string(),
        count,
    }
}

#[test]
fn count_colors_counts_used_only() {
    let palette = palette_from(&[
        ("R", "Red", [255, 0, 0]),
        ("G", "Green", [0, 255, 0]),
        ("B", "Blue", [0, 0, 255]),
    ]);
    let grid = BeadPattern {
        width: 2,
        height: 2,
        cells: vec![0, 0, 2, 0],
    };

    let stats = count_colors(&grid, &palette);
    assert_eq!(stats.len(), 2);
    assert_eq!(stats[0], stat("R", "Red", 3));
    assert_eq!(stats[1], stat("B", "Blue", 1));
    assert!(!stats.iter().any(|s| s.code == "G"));
}

#[test]
fn sort_count_desc_tiebreak_lowest_index() {
    let palette = palette_from(&[
        ("A", "Aa", [1, 0, 0]),
        ("B", "Bb", [2, 0, 0]),
        ("C", "Cc", [3, 0, 0]),
        ("D", "Dd", [4, 0, 0]),
    ]);
    let grid = BeadPattern {
        width: 7,
        height: 1,
        cells: vec![0, 1, 2, 2, 2, 3, 3],
    };

    let stats = count_colors(&grid, &palette);
    assert_eq!(stats.len(), 4);
    assert_eq!(stats[0].code, "C");
    assert_eq!(stats[1].code, "D");
    assert_eq!(stats[2].code, "A");
    assert_eq!(stats[3].code, "B");
    assert_eq!(stats[2].count, 1);
    assert_eq!(stats[3].count, 1);
    for w in stats.windows(2) {
        assert!(w[0].count >= w[1].count);
    }
    let again = count_colors(&grid, &palette);
    assert_eq!(stats, again);
}

#[test]
fn total_beads_cross_check() {
    let palette = palette_from(&[("A", "Aa", [1, 0, 0]), ("B", "Bb", [2, 0, 0]), ("C", "Cc", [3, 0, 0])]);
    let grid = BeadPattern {
        width: 3,
        height: 2,
        cells: vec![0, 1, 2, 0, 1, 0],
    };

    let total = total_beads(&grid);
    let sum: u32 = count_colors(&grid, &palette).iter().map(|s| s.count).sum();
    let wh = grid.width * grid.height;

    assert_eq!(total, grid.cells.len() as u32);
    assert_eq!(total, wh);
    assert_eq!(total, sum);
    assert_eq!(grid.cells.len() as u32, 6);
}

#[test]
fn summary_exact_format() {
    let palette = palette_from(&[("S01", "Black", [0, 0, 0]), ("S02", "White", [255, 255, 255])]);
    let grid = BeadPattern {
        width: 5,
        height: 1,
        cells: vec![0, 0, 0, 1, 1],
    };

    let summary = generate_summary(&grid, &palette);
    let expected = "Bead Pattern Summary\n\
                    Size: 5 x 1\n\
                    Total Beads: 5\n\
                    Palette: Test\n\
                    \n\
                    S01 Black: 3\n\
                    S02 White: 2\n";
    assert_eq!(summary, expected);
    assert!(summary.contains(&format!("Palette: {}\n", palette.brand)));
    assert!(summary.contains(&format!("Total Beads: {}\n", total_beads(&grid))));
}

#[test]
fn summary_empty_grid() {
    let palette = palette_from(&[("S01", "Black", [0, 0, 0])]);

    let grid_a = BeadPattern {
        width: 0,
        height: 5,
        cells: vec![],
    };
    assert_eq!(count_colors(&grid_a, &palette), vec![]);
    assert_eq!(total_beads(&grid_a), 0);
    assert_eq!(
        generate_summary(&grid_a, &palette),
        "Bead Pattern Summary\nSize: 0 x 5\nTotal Beads: 0\nPalette: Test\n\n"
    );

    let grid_b = BeadPattern {
        width: 5,
        height: 0,
        cells: vec![],
    };
    assert_eq!(count_colors(&grid_b, &palette), vec![]);
    assert_eq!(total_beads(&grid_b), 0);
    assert_eq!(
        generate_summary(&grid_b, &palette),
        "Bead Pattern Summary\nSize: 5 x 0\nTotal Beads: 0\nPalette: Test\n\n"
    );
}

#[test]
fn smaller_palette_skips_not_panic() {
    let grid = BeadPattern {
        width: 4,
        height: 1,
        cells: vec![0, 1, 2, 0],
    };
    let smaller = palette_from(&[("A", "Aa", [1, 0, 0]), ("B", "Bb", [2, 0, 0])]);

    let stats = count_colors(&grid, &smaller);
    let sum: u32 = stats.iter().map(|s| s.count).sum();
    let total = total_beads(&grid);

    assert_eq!(sum, 3);
    assert_eq!(total, 4);
    assert!(sum < total, "sum of counts must be below the total when indices overflow");
    assert_eq!(stats.len(), 2);

    let _ = generate_summary(&grid, &smaller);

    let empty_palette = Palette {
        brand: "Empty".to_string(),
        colors: vec![],
    };
    assert_eq!(count_colors(&grid, &empty_palette), vec![]);
    assert_eq!(total_beads(&grid), 4);
    let _ = generate_summary(&grid, &empty_palette);
}

#[test]
fn duplicate_rgb_counts_by_index() {
    let palette = palette_from(&[("A", "Aa", [42, 42, 42]), ("B", "Bb", [42, 42, 42])]);

    let matcher = RgbMatcher::new(&palette).expect("valid palette");
    let px_grid = PixelGrid {
        width: 3,
        height: 1,
        pixels: vec![[42, 42, 42], [42, 42, 42], [42, 42, 42]],
    };
    let pattern = match_pattern(&px_grid, &matcher);
    assert_eq!(pattern.cells, vec![0, 0, 0]);
    let stats_a = count_colors(&pattern, &palette);
    assert_eq!(stats_a.len(), 1);
    assert_eq!(stats_a[0].code, "A");
    assert_eq!(stats_a[0].count, 3);
    assert!(!stats_a.iter().any(|s| s.code == "B"));

    let hand = BeadPattern {
        width: 3,
        height: 1,
        cells: vec![0, 1, 0],
    };
    let stats_b = count_colors(&hand, &palette);
    assert_eq!(stats_b.len(), 2, "must be two independent stats, not merged");
    assert_eq!(stats_b[0].code, "A");
    assert_eq!(stats_b[0].count, 2);
    assert_eq!(stats_b[1].code, "B");
    assert_eq!(stats_b[1].count, 1);
}

#[test]
fn non_ascii_name_byte_faithful() {
    let palette = palette_from(&[("C1", "碧蓝", [0, 0, 255]), ("C2", "Café", [120, 80, 40])]);
    let grid = BeadPattern {
        width: 3,
        height: 1,
        cells: vec![0, 0, 1],
    };

    let summary = generate_summary(&grid, &palette);
    assert!(summary.contains("C1 碧蓝: 2"));
    assert!(summary.contains("C2 Café: 1"));
    assert!(summary.contains("碧蓝"));
    assert!(summary.contains("Café"));
}

#[test]
fn statistics_is_deterministic() {
    let palette = palette_from(&[
        ("A", "Alpha", [1, 0, 0]),
        ("B", "Beta", [2, 0, 0]),
        ("C", "Gamma", [3, 0, 0]),
    ]);
    let grid = BeadPattern {
        width: 5,
        height: 1,
        cells: vec![0, 0, 0, 1, 2],
    };

    let s1 = count_colors(&grid, &palette);
    let s2 = count_colors(&grid, &palette);
    assert_eq!(s1, s2);
    assert_eq!(generate_summary(&grid, &palette), generate_summary(&grid, &palette));

    assert_eq!(s1, vec![stat("A", "Alpha", 3), stat("B", "Beta", 1), stat("C", "Gamma", 1)]);
    assert_eq!(
        generate_summary(&grid, &palette),
        "Bead Pattern Summary\n\
         Size: 5 x 1\n\
         Total Beads: 5\n\
         Palette: Test\n\
         \n\
         A Alpha: 3\n\
         B Beta: 1\n\
         C Gamma: 1\n"
    );
}

#[test]
fn summary_multi_digit_counts() {
    // Counts and sizes above 9 are written in full decimal.
    let palette = palette_from(&[("X", "Ex", [0, 0, 0])]);
    let grid = BeadPattern {
        width: 12,
        height: 1,
        cells: vec![0; 12],
    };
    assert_eq!(
        generate_summary(&grid, &palette),
        "Bead Pattern Summary\nSize: 12 x 1\nTotal Beads: 12\nPalette: Test\n\nX Ex: 12\n"
    );
}
