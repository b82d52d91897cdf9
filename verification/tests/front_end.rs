use lenia_3::frontend::{
    centered_resized_copy, clamp_world_side, food_drop_positions, food_refresh_due,
    mutated_kernel_size, mutated_num_peaks, random_food_sources, resize_target, ColorScale,
};
use lenia_3::grid::Grid;

#[test]
fn color_scale_labels() {
    assert_eq!(ColorScale::Grayscale.as_str(), "GRAYSCALE");
    assert_eq!(ColorScale::Viridis.as_str(), "VIRIDIS");
    assert_eq!(ColorScale::Plasma.as_str(), "PLASMA");
    assert_eq!(ColorScale::Inferno.as_str(), "INFERNO");
    assert_eq!(ColorScale::Ocean.as_str(), "OCEAN");
}

#[test]
fn world_sides_are_clamped() {
    assert_eq!(clamp_world_side(0), 32);
    assert_eq!(clamp_world_side(256), 256);
    assert_eq!(clamp_world_side(5000), 1024);
    assert_eq!(resize_target(256, 256, 256, 256), None);
    assert_eq!(resize_target(32, 1024, 1, 9999), None);
    assert_eq!(resize_target(256, 256, 100, 2000), Some((100, 1024)));
}

#[test]
fn resizing_keeps_the_middle_and_round_trips() {
    let mut rows = Vec::new();
    for r in 0..40usize {
        rows.push((0..50usize).map(|c| (r * 100 + c) as f64).collect::<Vec<f64>>());
    }
    let world = Grid::from_rows(50, rows.clone()).expect("rectangular");
    let bigger = centered_resized_copy(&world, 64, 70, 0.0);
    assert_eq!(bigger.nrows(), 64);
    assert_eq!(bigger.ncols(), 70);
    assert_eq!(bigger.get(12, 10), 0.0);
    assert_eq!(bigger.get(0, 0), 0.0);
    let back = bigger.centered_copy(40, 50, 0.0);
    assert_eq!(back.into_rows(), rows);
    let smaller = centered_resized_copy(&world, 10, 10, -1.0);
    assert_eq!(smaller.nrows(), 32);
    assert_eq!(smaller.ncols(), 32);
    assert_eq!(smaller.get(0, 0), (4 * 100 + 9) as f64);
}

#[test]
fn from_rows_rejects_ragged_rows() {
    assert!(Grid::from_rows(2, vec![vec![1u8, 2], vec![3]]).is_none());
    let g = Grid::from_rows(3, Vec::<Vec<u8>>::new()).expect("empty");
    assert_eq!(g.nrows(), 0);
    assert_eq!(g.ncols(), 3);
}

#[test]
fn explorer_moves_stay_in_range() {
    assert_eq!(mutated_kernel_size(21, None), 21);
    assert_eq!(mutated_kernel_size(20, None), 21);
    assert_eq!(mutated_kernel_size(21, Some(true)), 23);
    assert_eq!(mutated_kernel_size(21, Some(false)), 19);
    assert_eq!(mutated_kernel_size(3, Some(false)), 3);
    assert_eq!(mutated_kernel_size(98, Some(true)), 99);
    assert_eq!(mutated_kernel_size(200, Some(false)), 99);
    assert_eq!(mutated_kernel_size(usize::MAX, Some(true)), 3);
    assert_eq!(mutated_num_peaks(2, None), 2);
    assert_eq!(mutated_num_peaks(1, Some(false)), 1);
    assert_eq!(mutated_num_peaks(8, Some(true)), 8);
    assert_eq!(mutated_num_peaks(3, Some(true)), 4);
    assert_eq!(mutated_num_peaks(0, Some(true)), 1);
    assert_eq!(mutated_num_peaks(usize::MAX, Some(true)), 1);
}

#[test]
fn food_refresh_follows_the_period() {
    assert!(food_refresh_due(true, 10, 10));
    assert!(food_refresh_due(true, 10, 0));
    assert!(!food_refresh_due(true, 10, 11));
    assert!(!food_refresh_due(false, 10, 10));
    assert!(!food_refresh_due(true, 0, 10));
    for step in 0..30usize {
        assert_eq!(food_refresh_due(true, 7, step), food_refresh_due(true, 7, step + 7));
    }
}

#[test]
fn food_sources_lie_in_the_world() {
    let p = random_food_sources(50, 7, 3);
    assert_eq!(p.len(), 50);
    assert!(p.iter().all(|&(col, row)| col < 3 && row < 7));
    assert!(random_food_sources(0, 0, 0).is_empty());
}

#[test]
fn food_drop_positions_by_setting() {
    let mut stored = vec![(1, 2), (3, 4)];
    assert!(food_drop_positions(false, false, 2, &mut stored, 10, 10).is_empty());
    assert_eq!(stored, vec![(1, 2), (3, 4)]);
    assert_eq!(food_drop_positions(true, false, 2, &mut stored, 10, 10), vec![(1, 2), (3, 4)]);
    let fresh = food_drop_positions(true, true, 5, &mut stored, 4, 6);
    assert_eq!(fresh.len(), 5);
    assert!(fresh.iter().all(|&(col, row)| col < 6 && row < 4));
    assert_eq!(stored, vec![(1, 2), (3, 4)]);
    let regenerated = food_drop_positions(true, false, 3, &mut stored, 4, 6);
    assert_eq!(regenerated.len(), 3);
    assert_eq!(regenerated, stored);
    assert!(stored.iter().all(|&(col, row)| col < 6 && row < 4));
}
