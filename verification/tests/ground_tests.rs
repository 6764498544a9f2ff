use lidar_guard::ground::{count_inliers, filter_pcd_ground, rows_at, sample_3_points, sample_ids, BestFit};

#[test]
fn count_inliers_counts_set_flags() {
    assert_eq!(count_inliers(&[true, false, true, true]), 3);
    assert_eq!(count_inliers(&[]), 0);
}

#[test]
fn filter_keeps_non_ground_and_pads() {
    let points = [[1, 1, 1], [2, 2, 2], [3, 3, 3], [4, 4, 4]];
    let inliers = [true, false, true, true];
    let n = count_inliers(&inliers);
    let kept = filter_pcd_ground(&points, &inliers, n, [0, 0, 0]);
    assert_eq!(kept, vec![[2, 2, 2], [0, 0, 0], [0, 0, 0]]);
}

#[test]
fn filter_with_equal_counts_has_no_padding() {
    let kept = filter_pcd_ground(&[10, 20], &[false, true], 1, 0);
    assert_eq!(kept, vec![10]);
}

#[test]
fn best_fit_keeps_first_maximum() {
    let mut best = BestFit::new();
    let counts = [0, 3, 5, 5, 2, -1];
    let mut improved = Vec::new();
    for (epoch, &c) in counts.iter().enumerate() {
        improved.push(best.offer(epoch, c));
    }
    assert_eq!(best.epoch, Some(2));
    assert_eq!(best.max_inliers, 5);
    assert_eq!(improved, vec![false, true, true, false, false, false]);
}

#[test]
fn best_fit_without_positive_count_keeps_none() {
    let mut best = BestFit::new();
    assert!(!best.offer(0, 0));
    assert!(!best.offer(1, -4));
    assert_eq!(best.epoch, None);
    assert_eq!(best.max_inliers, 0);
}

#[test]
fn sample_ids_in_range() {
    let ids = sample_ids(50, 3, 7);
    assert_eq!(ids.len(), 50);
    assert!(ids.iter().all(|&i| (3..7).contains(&i)));
    assert!(sample_ids(0, 5, 5).is_empty());
    assert!(sample_ids(-3, 5, 5).is_empty());
}

#[test]
fn sample_3_points_draws_from_scan() {
    let points = [[1.0f32, 2.0, 3.0], [4.0, 5.0, 6.0], [7.0, 8.0, 9.0]];
    let (sample, ids) = sample_3_points(&points);
    assert_eq!(ids.len(), 3);
    for r in 0..3 {
        assert!(ids[r] < points.len());
        assert_eq!(sample[r], points[ids[r]]);
    }
    assert_eq!(sample_3_points(&[[7, 8, 9]]).0, [[7, 8, 9]; 3]);
}

#[test]
fn rows_at_takes_each_index_in_turn() {
    let points = [[1, 1, 1], [2, 2, 2], [3, 3, 3]];
    assert_eq!(rows_at(&points, &[2, 0, 2]), [[3, 3, 3], [1, 1, 1], [3, 3, 3]]);
}

#[test]
fn filter_accepts_longer_flag_column() {
    let kept = filter_pcd_ground(&[10, 20], &[false, true, false, false], 1, 0);
    assert_eq!(kept, vec![10]);
}

#[test]
fn every_point_is_ground_or_kept() {
    let flags = [true, false, false, true, true, true];
    let points = [1, 2, 3, 4, 5, 6];
    let ground = count_inliers(&flags);
    let kept = filter_pcd_ground(&points, &flags, ground, 0);
    let non_zero = kept.iter().filter(|&&p| p != 0).count();
    assert_eq!(ground as usize + non_zero, points.len());
    assert_eq!(kept, vec![2, 3, 0, 0]);
}
