use lidar_guard::voxel::{check_proximity, compare, pcd_2_voxel_map, pcds_2_voxel_maps, PointCell, Voxel, VoxelMap};

fn hit(row: usize, col: usize) -> PointCell {
    PointCell { row, col, inside: true }
}

#[test]
fn voxel_map_new_is_empty() {
    let map = VoxelMap::new(2, 3);
    assert_eq!(map.rows(), 2);
    assert_eq!(map.cols(), 3);
    assert_eq!(map.get(1, 2), Voxel::Empty);
}

#[test]
fn voxel_map_set_changes_one_cell() {
    let mut map = VoxelMap::new(2, 2);
    map.set(1, 0, Voxel::Dense);
    assert_eq!(map.get(1, 0), Voxel::Dense);
    assert_eq!(map.get(0, 0), Voxel::Empty);
}

#[test]
fn voxel_turns_dense_after_limit_plus_one_hits() {
    let points = vec![hit(0, 0), hit(0, 0), hit(0, 0), hit(1, 1), hit(1, 1), hit(0, 1)];
    let map = pcd_2_voxel_map(2, 2, &points, 1);
    assert_eq!(map.get(0, 0), Voxel::Dense);
    assert_eq!(map.get(1, 1), Voxel::Occupied);
    assert_eq!(map.get(0, 1), Voxel::Occupied);
    assert_eq!(map.get(1, 0), Voxel::Empty);
}

#[test]
fn points_outside_are_ignored_even_off_grid() {
    let points = vec![PointCell { row: 99, col: 99, inside: false }, hit(0, 0)];
    let map = pcd_2_voxel_map(1, 1, &points, 0);
    assert_eq!(map.get(0, 0), Voxel::Occupied);
}

#[test]
fn negative_limit_dense_on_first_hit() {
    let map = pcd_2_voxel_map(2, 1, &[hit(0, 0), PointCell { row: 1, col: 0, inside: false }], -1);
    assert_eq!(map.get(0, 0), Voxel::Dense);
    assert_eq!(map.get(1, 0), Voxel::Empty);
}

#[test]
fn set_then_get_reads_back() {
    let mut map = VoxelMap::new(3, 4);
    map.set(2, 3, Voxel::Occupied);
    map.set(0, 1, Voxel::Dense);
    assert_eq!(map.get(2, 3), Voxel::Occupied);
    assert_eq!(map.get(0, 1), Voxel::Dense);
    assert_eq!(map.get(1, 1), Voxel::Empty);
}

#[test]
fn wider_window_and_more_maps_keep_a_hit() {
    let maps = vec![dense_at(20, 20, &[(12, 12)]), VoxelMap::new(20, 20)];
    assert!(check_proximity(&maps, &[0], 10, 10, 3));
    assert!(check_proximity(&maps, &[1, 0], 10, 10, 5));
}

#[test]
fn zero_limit_dense_on_second_hit() {
    let map = pcd_2_voxel_map(1, 1, &[hit(0, 0), hit(0, 0)], 0);
    assert_eq!(map.get(0, 0), Voxel::Dense);
}

#[test]
fn more_points_never_empty_a_voxel() {
    let few = vec![hit(0, 0)];
    let mut many = few.clone();
    many.push(hit(0, 0));
    many.push(hit(0, 0));
    let rank = |v: Voxel| match v { Voxel::Empty => 0, Voxel::Occupied => 1, Voxel::Dense => 2 };
    let a = pcd_2_voxel_map(1, 1, &few, 0);
    let b = pcd_2_voxel_map(1, 1, &many, 0);
    assert!(rank(a.get(0, 0)) <= rank(b.get(0, 0)));
}

#[test]
fn several_scans_use_their_own_limits() {
    let scans = vec![vec![hit(0, 0), hit(0, 0)], vec![hit(0, 0), hit(0, 0)]];
    let maps = pcds_2_voxel_maps(1, 1, &scans, &[0, 5]);
    assert_eq!(maps[0].get(0, 0), Voxel::Dense);
    assert_eq!(maps[1].get(0, 0), Voxel::Occupied);
}

fn dense_at(rows: usize, cols: usize, cells: &[(usize, usize)]) -> VoxelMap {
    let mut map = VoxelMap::new(rows, cols);
    for &(r, c) in cells {
        map.set(r, c, Voxel::Dense);
    }
    map
}

#[test]
fn proximity_window_is_half_open_and_skips_row_zero() {
    let maps = vec![dense_at(20, 20, &[(0, 5)]), dense_at(20, 20, &[(10, 15)]), dense_at(20, 20, &[(14, 10)])];
    assert!(!check_proximity(&maps, &[0], 2, 5, 5));
    assert!(!check_proximity(&maps, &[1], 10, 10, 5));
    assert!(check_proximity(&maps, &[2], 10, 10, 5));
    assert!(check_proximity(&maps, &[0, 1, 2], 10, 10, 5));
    assert!(!check_proximity(&maps, &[], 10, 10, 5));
    assert!(!check_proximity(&maps, &[2], 10, 10, 0));
}

fn coverage(rows: usize, cols: usize, value: bool) -> Vec<Vec<bool>> {
    vec![vec![value; cols]; rows]
}

#[test]
fn compare_flags_unexplained_dense_voxel() {
    let maps = vec![dense_at(12, 12, &[(6, 6)]), VoxelMap::new(12, 12)];
    let cov = vec![coverage(12, 12, true), coverage(12, 12, true)];
    assert_eq!(compare(&maps, &cov), vec![(6, 6)]);
}

#[test]
fn compare_ignores_dense_voxel_seen_by_other_scan() {
    let maps = vec![dense_at(12, 12, &[(6, 6)]), dense_at(12, 12, &[(7, 8)])];
    let cov = vec![coverage(12, 12, true), coverage(12, 12, true)];
    assert_eq!(compare(&maps, &cov), Vec::<(usize, usize)>::new());
}

#[test]
fn compare_needs_a_covering_scan() {
    let maps = vec![dense_at(12, 12, &[(6, 6)]), VoxelMap::new(12, 12)];
    let cov = vec![coverage(12, 12, true), coverage(12, 12, false)];
    assert_eq!(compare(&maps, &cov), Vec::<(usize, usize)>::new());
}

#[test]
fn compare_lists_in_visiting_order() {
    let maps = vec![dense_at(12, 12, &[(2, 3), (1, 9)]), dense_at(12, 12, &[(11, 0)])];
    let cov = vec![coverage(12, 12, true), coverage(12, 12, true)];
    assert_eq!(compare(&maps, &cov), vec![(1, 9), (2, 3), (11, 0)]);
}
