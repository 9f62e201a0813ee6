use ablations::stats::{color_mode, count_unique, count_val, grid_column};

#[test]
fn count_val_counts_equal_cells() {
    assert_eq!(count_val(&[1, 2, 1, 1, -1], 1), 3);
    assert_eq!(count_val(&[1, 2], 7), 0);
    assert_eq!(count_val(&[-1, -1], -1), 2);
}

#[test]
fn count_unique_counts_colours_only() {
    assert_eq!(count_unique(&[3, 3, 0, 9]), 3);
    assert_eq!(count_unique(&[12, -1]), 0);
    assert_eq!(count_unique(&[]), 0);
}

#[test]
fn color_mode_prefers_lowest_on_ties() {
    assert_eq!(color_mode(&[4, 2, 4, 2, 7]), 2);
    assert_eq!(color_mode(&[5, 5, 1]), 5);
    assert_eq!(color_mode(&[]), 0);
    assert_eq!(color_mode(&[11, 11]), 0);
}

#[test]
fn grid_column_reads_top_to_bottom() {
    let g = [1, 2, 3, 4, 5, 6];
    assert_eq!(grid_column(&g, 2, 3, 1), vec![2, 5]);
    assert_eq!(grid_column(&g, 3, 2, 0), vec![1, 3, 5]);
}
