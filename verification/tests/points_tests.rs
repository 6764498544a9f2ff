use lidar_guard::points::{fill_pose, flatten_points, group_rows, parse_points, point_fields, unflatten_points, write_pairs};

fn strings(fields: &[Vec<u8>]) -> Vec<String> {
    fields.iter().map(|f| String::from_utf8(f.clone()).unwrap()).collect()
}

#[test]
fn point_fields_reads_up_to_three_tokens() {
    assert_eq!(strings(&point_fields(b"1.5 -2 3e1")), vec!["1.5", "-2", "3e1"]);
    assert_eq!(strings(&point_fields(b"1 2 3 4 5")), vec!["1", "2", "3"]);
}

#[test]
fn point_fields_stops_at_empty_token() {
    assert_eq!(strings(&point_fields(b"1  2 3")), vec!["1"]);
    assert_eq!(strings(&point_fields(b"")), Vec::<String>::new());
    assert_eq!(strings(&point_fields(b" 1 2")), Vec::<String>::new());
}

#[test]
fn parse_points_keeps_every_piece() {
    let points = parse_points(b"1 2 3\n4 5 6\n", b"\n");
    assert_eq!(points.len(), 3);
    assert_eq!(strings(&points[0]), vec!["1", "2", "3"]);
    assert_eq!(strings(&points[1]), vec!["4", "5", "6"]);
    assert!(points[2].is_empty());
}

#[test]
fn parse_points_remote_separator() {
    let points = parse_points(b"1 2 3ZZ4 5", b"ZZ");
    assert_eq!(points.len(), 2);
    assert_eq!(strings(&points[1]), vec!["4", "5"]);
}

#[test]
fn flatten_points_pads_to_capacity() {
    let flat = flatten_points(&[[1, 2, 3], [4, 5, 6]], 0, 9);
    assert_eq!(flat, vec![1, 2, 3, 4, 5, 6, 0, 0, 0]);
}

#[test]
fn unflatten_inverts_flatten() {
    let points = [[1.0f32, 2.0, 3.0], [4.0, 5.0, 6.0]];
    let flat = flatten_points(&points, 0.0, 12);
    assert_eq!(unflatten_points(&flat, 2), points.to_vec());
}

#[test]
fn fill_pose_pads_with_zero() {
    assert_eq!(fill_pose(&[1, 2, 3], 0), [1, 2, 3, 0, 0, 0]);
    assert_eq!(fill_pose(&[1, 2, 3, 4, 5, 6], 0), [1, 2, 3, 4, 5, 6]);
}

#[test]
fn write_pairs_keeps_the_rest() {
    let mut out = vec![2.0f32; 7];
    write_pairs(&[[1.0, -1.0], [0.5, 0.25]], &mut out);
    assert_eq!(out, vec![1.0, -1.0, 0.5, 0.25, 2.0, 2.0, 2.0]);
}

#[test]
fn group_rows_drops_incomplete_row() {
    assert_eq!(group_rows(&[1, 2, 3, 4, 5], 2), vec![vec![1, 2], vec![3, 4]]);
    assert_eq!(group_rows(&[1, 2, 3], 4), Vec::<Vec<i32>>::new());
}
