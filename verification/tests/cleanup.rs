use bead_core::cleanup::despeckle;
use bead_core::BeadPattern;

/// Swap a pattern's axes; 4-connectivity and neighbor colors are preserved.
fn transpose(p: &BeadPattern) -> BeadPattern {
    let w = p.width as usize;
    let h = p.height as usize;
    let mut cells = vec![0u16; p.cells.len()];
    for y in 0..h {
        for x in 0..w {
            cells[x * h + y] = p.cells[y * w + x];
        }
    }
    BeadPattern {
        width: p.height,
        height: p.width,
        cells,
    }
}

#[test]
fn single_speckle_merges_into_background() {
    let pattern = BeadPattern {
        width: 3,
        height: 3,
        cells: vec![0, 0, 0, 0, 1, 0, 0, 0, 0],
    };
    let out = despeckle(&pattern, 1);
    assert_eq!(out.width, 3);
    assert_eq!(out.height, 3);
    assert_eq!(out.cells, vec![0, 0, 0, 0, 0, 0, 0, 0, 0]);
    assert!(out.cells.iter().all(|&c| pattern.cells.contains(&c)));
}

#[test]
fn component_above_threshold_is_kept() {
    let pattern = BeadPattern {
        width: 3,
        height: 3,
        cells: vec![1, 1, 0, 0, 0, 0, 0, 0, 0],
    };
    let out = despeckle(&pattern, 1);
    assert_eq!(out.cells, pattern.cells);
}

#[test]
fn tie_resolves_to_lowest_index() {
    let pattern = BeadPattern {
        width: 3,
        height: 3,
        cells: vec![1, 1, 2, 1, 0, 2, 1, 2, 2],
    };
    let out = despeckle(&pattern, 1);
    assert_eq!(out.cells, vec![1, 1, 2, 1, 1, 2, 1, 2, 2]);
    assert_eq!(despeckle(&pattern, 1).cells, out.cells);
}

#[test]
fn single_color_image_unchanged() {
    let pattern = BeadPattern {
        width: 2,
        height: 2,
        cells: vec![5, 5, 5, 5],
    };
    assert_eq!(despeckle(&pattern, 100).cells, pattern.cells);
}

#[test]
fn empty_pattern_returned_verbatim() {
    let pattern = BeadPattern {
        width: 0,
        height: 0,
        cells: vec![],
    };
    let out = despeckle(&pattern, 1);
    assert_eq!(out.width, 0);
    assert_eq!(out.height, 0);
    assert!(out.cells.is_empty());
}

#[test]
fn malformed_shape_returned_verbatim() {
    let zero_width = BeadPattern {
        width: 0,
        height: 3,
        cells: vec![0, 1, 2],
    };
    assert_eq!(despeckle(&zero_width, 1).cells, zero_width.cells);
    let mismatched = BeadPattern {
        width: 4,
        height: 4,
        cells: vec![0, 1, 0],
    };
    assert_eq!(despeckle(&mismatched, 1).cells, mismatched.cells);
}

#[test]
fn min_region_zero_is_noop() {
    let pattern = BeadPattern {
        width: 3,
        height: 3,
        cells: vec![0, 0, 0, 0, 1, 0, 0, 0, 0],
    };
    assert_eq!(despeckle(&pattern, 0).cells, pattern.cells);
}

#[test]
fn adjacent_speckles_snapshot_order_independent() {
    let pattern = BeadPattern {
        width: 4,
        height: 3,
        cells: vec![
            0, 0, 0, 0, //
            0, 1, 2, 0, //
            0, 0, 0, 0,
        ],
    };
    let row_major = despeckle(&pattern, 1);
    assert_eq!(row_major.cells, vec![0, 0, 0, 0, 0, 0, 0, 0, 0, 0, 0, 0]);

    let col_major = transpose(&despeckle(&transpose(&pattern), 1));
    assert_eq!(col_major.cells, row_major.cells);
    assert_eq!(col_major.width, row_major.width);
    assert_eq!(col_major.height, row_major.height);
}

#[test]
fn golden_bit_exact_integer() {
    let pattern = BeadPattern {
        width: 4,
        height: 4,
        cells: vec![
            0, 0, 0, 0, //
            0, 1, 1, 0, //
            0, 1, 2, 0, //
            0, 0, 0, 0,
        ],
    };
    let out = despeckle(&pattern, 1);
    assert_eq!(
        out.cells,
        vec![
            0, 0, 0, 0, //
            0, 1, 1, 0, //
            0, 1, 0, 0, //
            0, 0, 0, 0,
        ]
    );
    assert_eq!(despeckle(&pattern, 1).cells, out.cells);
}

#[test]
fn despeckle_merges_whole_region_by_edge_votes() {
    // A 2-cell region of color 3 in a 4×3 grid. Its boundary edges: the left
    // cell touches 1 (left), 0 (up), 0 (down); the right cell touches 2
    // (right), 0 (up), 2 (down). Votes: 0 → 3, 2 → 2, 1 → 1: color 0 wins and
    // both cells of the region take it.
    let pattern = BeadPattern {
        width: 4,
        height: 3,
        cells: vec![
            0, 0, 0, 0, //
            1, 3, 3, 2, //
            0, 0, 2, 2,
        ],
    };
    let out = despeckle(&pattern, 2);
    assert_eq!(out.cells[5], 0);
    assert_eq!(out.cells[6], 0);
    // With a threshold of 1 the 2-cell region stays; the single 1 at the left
    // edge (neighbors 0, 3, 0) merges into 0.
    let out1 = despeckle(&pattern, 1);
    assert_eq!(out1.cells[4], 0);
    assert_eq!(out1.cells[5], 3);
    assert_eq!(out1.cells[6], 3);
}

#[test]
fn despeckle_keeps_colors_from_the_border() {
    // Every remapped cell takes a color that touches its region: the first 4
    // sees only 7, the 7 sees two 4s, the second 4 ties 7 against 9 and takes
    // the lower index; the 2-cell run of 9 is above the threshold.
    let pattern = BeadPattern {
        width: 5,
        height: 1,
        cells: vec![4, 7, 4, 9, 9],
    };
    let out = despeckle(&pattern, 1);
    assert_eq!(out.cells, vec![7, 4, 7, 9, 9]);
}
