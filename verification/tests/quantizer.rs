use bead_core::matcher::{ColorMatcher, MatcherKind, RgbMatcher};
use bead_core::quantizer::{BeadReducer, GreedyReducer, RgbSnapshot};
use bead_core::{BeadError, BeadPattern, Palette, PaletteColor};

fn palette_from(colors: &[(&str, [u8; 3])]) -> Palette {
    Palette {
        brand: "Test".to_string(),
        colors: colors
            .iter()
            .map(|(code, rgb)| PaletteColor {
                code: code.to_string(),
                name: code.to_string(),
                rgb: *rgb,
            })
            .collect(),
    }
}

fn distinct(cells: &[u16]) -> Vec<u16> {
    let mut v = cells.to_vec();
    v.sort_unstable();
    v.dedup();
    v
}

fn rgb_reducer(pal: &Palette, max_colors: u32) -> Result<GreedyReducer<RgbSnapshot>, BeadError> {
    GreedyReducer::new(pal, RgbSnapshot::new(pal), max_colors)
}

#[test]
fn new_validation_order_max_colors_before_palette() {
    let good = palette_from(&[("A", [0, 0, 0]), ("B", [255, 255, 255])]);
    let empty = Palette {
        brand: "E".to_string(),
        colors: vec![],
    };

    for pal in [&good, &empty] {
        let err = rgb_reducer(pal, 0).expect_err("max_colors == 0 must be rejected");
        match err {
            BeadError::InvalidImage { reason } => assert!(
                reason.contains("max_colors"),
                "reason must mention max_colors, got: {reason:?}"
            ),
            other => panic!("expected InvalidImage, got {other:?}"),
        }
    }

    assert!(rgb_reducer(&good, 1).is_ok());
    assert!(rgb_reducer(&good, 24).is_ok());

    match rgb_reducer(&empty, 4) {
        Err(BeadError::InvalidPalette { reason }) => assert!(
            reason.contains("no colors"),
            "reason must mention no colors, got: {reason:?}"
        ),
        other => panic!("expected InvalidPalette, got {other:?}"),
    }
}

#[test]
fn shape_preserved_and_empty_no_op() {
    let pal = palette_from(&[("A", [0, 0, 0]), ("B", [255, 255, 255]), ("C", [10, 20, 30])]);
    let reducer = rgb_reducer(&pal, 1).expect("valid");

    let pattern = BeadPattern {
        width: 3,
        height: 2,
        cells: vec![0, 1, 2, 0, 1, 2],
    };
    assert!(reducer.accepts_pattern(&pattern));
    let out = reducer.reduce(&pattern);
    assert_eq!(out.width, 3);
    assert_eq!(out.height, 2);
    assert_eq!(out.cells.len(), 6);

    let empty = BeadPattern {
        width: 0,
        height: 4,
        cells: vec![],
    };
    let out_empty = reducer.reduce(&empty);
    assert_eq!(out_empty.width, 0);
    assert_eq!(out_empty.height, 4);
    assert_eq!(out_empty.cells, Vec::<u16>::new());
}

#[test]
fn no_op_upper_bound_and_single() {
    let pal = palette_from(&[
        ("A", [0, 0, 0]),
        ("B", [80, 80, 80]),
        ("C", [160, 160, 160]),
        ("D", [240, 240, 240]),
    ]);
    let pattern = BeadPattern {
        width: 3,
        height: 2,
        cells: vec![0, 1, 3, 0, 1, 3],
    };

    for mc in [3u32, 4, 100] {
        let r = rgb_reducer(&pal, mc).expect("valid");
        let out = r.reduce(&pattern);
        assert_eq!(out.cells, pattern.cells, "max_colors={mc} must be a no-op");
    }

    for mc in [1u32, 2] {
        let r = rgb_reducer(&pal, mc).expect("valid");
        let out = r.reduce(&pattern);
        assert!(
            distinct(&out.cells).len() <= mc as usize,
            "max_colors={mc} expects distinct <= {mc}, got {}",
            distinct(&out.cells).len()
        );
    }

    let r1 = rgb_reducer(&pal, 1).expect("valid");
    let out1 = r1.reduce(&pattern);
    assert_eq!(distinct(&out1.cells).len(), 1, "max_colors==1 -> single bead");
}

#[test]
fn all_same_color_no_op() {
    let pal = palette_from(&[("A", [0, 0, 0]), ("B", [255, 255, 255])]);
    let pattern = BeadPattern {
        width: 2,
        height: 2,
        cells: vec![1, 1, 1, 1],
    };
    let r = rgb_reducer(&pal, 1).expect("valid");
    assert_eq!(r.reduce(&pattern).cells, vec![1, 1, 1, 1]);
}

#[test]
fn output_indices_subset_of_input() {
    let pal = palette_from(&[
        ("A", [0, 0, 0]),
        ("B", [8, 0, 0]),
        ("C", [255, 0, 0]),
        ("D", [247, 0, 0]),
    ]);
    let pattern = BeadPattern {
        width: 7,
        height: 1,
        cells: vec![0, 0, 0, 1, 2, 2, 3],
    };
    let input_used = distinct(&pattern.cells);
    let r = rgb_reducer(&pal, 2).expect("valid");
    let out = r.reduce(&pattern);
    for &c in &out.cells {
        assert!(
            input_used.contains(&c),
            "output index {c} not present in input {input_used:?}"
        );
        assert!((c as usize) < pal.colors.len(), "index {c} out of palette");
    }
}

#[test]
fn rgb_golden_and_determinism() {
    let pal1 = palette_from(&[
        ("c0", [0, 0, 0]),
        ("c1", [8, 0, 0]),
        ("c2", [255, 0, 0]),
        ("c3", [247, 0, 0]),
    ]);
    let p1 = BeadPattern {
        width: 7,
        height: 1,
        cells: vec![0, 0, 0, 1, 2, 2, 3],
    };
    let r1 = rgb_reducer(&pal1, 2).expect("valid");
    let out1 = r1.reduce(&p1);
    assert_eq!(out1.cells, vec![0, 0, 0, 0, 2, 2, 2]);
    assert_eq!(out1.width, 7);
    assert_eq!(out1.height, 1);
    assert_eq!(r1.reduce(&p1).cells, out1.cells);

    let pal2 = palette_from(&[("c0", [0, 0, 0]), ("c1", [10, 0, 0]), ("c2", [20, 0, 0])]);
    let p2 = BeadPattern {
        width: 5,
        height: 1,
        cells: vec![0, 0, 2, 2, 1],
    };
    let r2 = rgb_reducer(&pal2, 2).expect("valid");
    let out2 = r2.reduce(&p2);
    assert_eq!(out2.cells, vec![0, 0, 2, 2, 0]);
    assert_eq!(r2.reduce(&p2).cells, out2.cells);
}

#[test]
fn reduce_nearest_equals_match_nearest() {
    let colors: [(&str, [u8; 3]); 5] = [
        ("k0", [0, 0, 0]),
        ("k1", [60, 60, 60]),
        ("k2", [120, 120, 120]),
        ("k3", [200, 30, 30]),
        ("sac", [90, 88, 92]),
    ];
    let pal = palette_from(&colors);
    let pattern = BeadPattern {
        width: 3,
        height: 3,
        cells: vec![0, 0, 1, 1, 2, 2, 3, 3, 4],
    };
    let sub = palette_from(&colors[0..4]);
    let sac_rgb = colors[4].1;

    let r = rgb_reducer(&pal, 4).expect("valid");
    let out = r.reduce(&pattern);
    let reducer_target = out.cells[8];
    assert!(reducer_target < 4, "target must be a retained color");
    let sub_target = RgbMatcher::new(&sub).unwrap().find_best_match(sac_rgb);
    assert_eq!(reducer_target, sub_target);
}

#[test]
fn reducer_chains_merges_through_representatives() {
    // Usages: 0 → 1, 1 → 2, 2 → 3, 3 → 4. With max_colors 2, color 0 (least
    // used) merges into its nearest, 1, which then has 3 uses like color 2;
    // the tie sacrifices the larger index, 2, which merges into 1 (nearer
    // than 3). Colors 0, 1 and 2 all end up as 1.
    let pal = palette_from(&[
        ("a", [0, 0, 0]),
        ("b", [10, 0, 0]),
        ("c", [30, 0, 0]),
        ("d", [200, 0, 0]),
    ]);
    let pattern = BeadPattern {
        width: 10,
        height: 1,
        cells: vec![0, 1, 1, 2, 2, 2, 3, 3, 3, 3],
    };
    let r = rgb_reducer(&pal, 2).expect("valid");
    let out = r.reduce(&pattern);
    assert_eq!(out.cells, vec![1, 1, 1, 1, 1, 1, 3, 3, 3, 3]);
}

#[test]
fn accepts_pattern_checks_indices() {
    let pal = palette_from(&[("a", [0, 0, 0]), ("b", [9, 9, 9])]);
    let r = rgb_reducer(&pal, 1).expect("valid");
    let ok = BeadPattern {
        width: 2,
        height: 1,
        cells: vec![0, 1],
    };
    let bad = BeadPattern {
        width: 2,
        height: 1,
        cells: vec![0, 2],
    };
    assert!(r.accepts_pattern(&ok));
    assert!(!r.accepts_pattern(&bad));
    let _ = MatcherKind::Rgb;
}
