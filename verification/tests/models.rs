use bead_core::BeadPattern;

#[test]
fn cell_at_rowmajor_and_oob() {
    let pattern = BeadPattern {
        width: 3,
        height: 2,
        cells: vec![10, 11, 12, 20, 21, 22],
    };

    assert_eq!(pattern.cell_at(0, 0), Some(10));
    assert_eq!(pattern.cell_at(2, 0), Some(12));
    assert_eq!(pattern.cell_at(0, 1), Some(20));
    assert_eq!(pattern.cell_at(2, 1), Some(22));

    assert_eq!(pattern.cell_at(3, 0), None);
    assert_eq!(pattern.cell_at(0, 2), None);
    assert_eq!(pattern.cell_at(3, 2), None);
}

#[test]
fn cell_at_short_cells_is_none() {
    // A malformed pattern with fewer cells than width * height has no cell at
    // the missing positions.
    let pattern = BeadPattern {
        width: 2,
        height: 2,
        cells: vec![1, 2, 3],
    };
    assert_eq!(pattern.cell_at(0, 1), Some(3));
    assert_eq!(pattern.cell_at(1, 1), None);
}
