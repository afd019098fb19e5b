use fluosubtraction_rust::grid::{array_get_tthslice, column_counts, grid_from_axes, select_by_mask};

#[test]
fn tthslice_takes_one_column() {
    // 3 chi rows, 4 tth columns.
    let data: Vec<f64> = (0..12).map(f64::from).collect();
    assert_eq!(array_get_tthslice(&data, 3, 4, 1), vec![1.0, 5.0, 9.0]);
    assert_eq!(array_get_tthslice(&data, 3, 4, 3), vec![3.0, 7.0, 11.0]);
}

#[test]
fn tthslice_of_no_rows_is_empty() {
    let data: Vec<f64> = Vec::new();
    assert!(array_get_tthslice(&data, 0, 5, 2).is_empty());
}

fn polarization(tth: f64, chi: f64, pfactor: f64) -> f64 {
    let tthr = tth * std::f64::consts::PI / 180.;
    let chir = chi * std::f64::consts::PI / 180.;
    0.5 * (1. + tthr.cos().powi(2) - pfactor * (2. * chir).cos() * (1. - tthr.cos().powi(2)))
}

#[test]
fn polcake_layout() {
    let tthrange: Vec<f64> = (1..60).map(f64::from).collect();
    let chirange: Vec<f64> = (0..359).map(f64::from).collect();
    let grid = grid_from_axes(&tthrange, &chirange, |t, c| polarization(t, c, 0.85));
    assert_eq!(grid.len(), 59 * 359);
    assert_eq!(grid[0], polarization(1.0, 0.0, 0.85));
    assert_eq!(grid[10 * 59 + 20], polarization(21.0, 10.0, 0.85));
    assert_eq!(grid[358 * 59 + 58], polarization(59.0, 358.0, 0.85));
}

#[test]
fn axes_grid_rows_follow_chi() {
    let tth = vec![1u32, 2, 3];
    let chi = vec![10u32, 20];
    let grid = grid_from_axes(&tth, &chi, |t, c| c + t);
    assert_eq!(grid, vec![11, 12, 13, 21, 22, 23]);
}

#[test]
fn column_of_axes_grid_is_f_along_chi() {
    let tth = vec![1u32, 2, 3];
    let chi = vec![10u32, 20, 30];
    let grid = grid_from_axes(&tth, &chi, |t, c| c * 100 + t);
    assert_eq!(array_get_tthslice(&grid, 3, 3, 2), vec![1003, 2003, 3003]);
}

#[test]
fn select_keeps_masked_cells_in_order() {
    let cake = vec![3.0, -1.0, 0.0, 7.5];
    let pol = vec![0.9, 0.8, 0.7, 0.6];
    let mask: Vec<bool> = cake.iter().map(|c| *c > 0.).collect();
    assert_eq!(select_by_mask(&mask, &cake), vec![3.0, 7.5]);
    assert_eq!(select_by_mask(&mask, &pol), vec![0.9, 0.6]);
}

#[test]
fn select_with_all_false_is_empty() {
    assert!(select_by_mask(&vec![false, false], &vec![1, 2]).is_empty());
}

#[test]
fn column_counts_of_a_grid() {
    // 3 rows, 2 columns.
    let mask = vec![true, false, true, true, false, true];
    assert_eq!(column_counts(&mask, 3, 2), vec![2, 2]);
    let mask = vec![false, false, true, false];
    assert_eq!(column_counts(&mask, 2, 2), vec![1, 0]);
}

#[test]
fn column_counts_add_up_to_true_cells() {
    let mask = vec![true, false, true, true, true, false, false, false, true, true, true, false];
    let counts = column_counts(&mask, 4, 3);
    assert_eq!(counts.iter().sum::<usize>(), mask.iter().filter(|b| **b).count());
}
