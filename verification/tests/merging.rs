use patchsplit::merge::remove_centroids;
use patchsplit::point::Point;

fn coords(v: &[Point]) -> Vec<(i64, i64)> {
    let mut out: Vec<(i64, i64)> = v.iter().map(|p| (p.get_x(), p.get_y())).collect();
    out.sort();
    out
}

#[test]
fn threshold_zero_distinct_points_survive_unchanged() {
    let input = vec![Point::new(0, 0), Point::new(10, 0), Point::new(0, 10), Point::new(-7, 3)];
    let expected = coords(&input);
    let merged = remove_centroids(input, 0);
    assert_eq!(coords(&merged), expected);
}

#[test]
fn close_points_collapse_into_centroid() {
    let input = vec![Point::new(0, 0), Point::new(4, 0), Point::new(100, 100)];
    let merged = remove_centroids(input, 5);
    assert_eq!(coords(&merged), vec![(2, 0), (100, 100)]);
}

#[test]
fn merge_never_grows_and_stays_in_bounding_box() {
    let input = vec![
        Point::new(-10, -10),
        Point::new(-9, -10),
        Point::new(10, 10),
        Point::new(9, 10),
        Point::new(0, 0),
    ];
    let merged = remove_centroids(input, 3);
    assert!(merged.len() <= 5);
    assert!(!merged.is_empty());
    for p in merged.iter() {
        assert!(-10 <= p.get_x() && p.get_x() <= 10);
        assert!(-10 <= p.get_y() && p.get_y() <= 10);
    }
}

#[test]
fn merge_empty_input_is_empty() {
    let merged = remove_centroids(Vec::new(), 4);
    assert!(merged.is_empty());
}

#[test]
fn single_point_survives_any_threshold() {
    let merged = remove_centroids(vec![Point::new(5, -3)], 1000);
    assert_eq!(coords(&merged), vec![(5, -3)]);
}

#[test]
fn boundary_distance_is_included() {
    // Two points exactly at the threshold distance merge (boundary kept).
    let input = vec![Point::new(0, 0), Point::new(5, 0)];
    let merged = remove_centroids(input, 5);
    assert_eq!(coords(&merged), vec![(2, 0)]);
}

#[test]
fn negative_mean_truncates_toward_zero() {
    let input = vec![Point::new(-3, 0), Point::new(0, 0)];
    let merged = remove_centroids(input, 5);
    assert_eq!(coords(&merged), vec![(-1, 0)]);
}

#[test]
fn duplicate_points_merge_even_at_threshold_zero() {
    let input = vec![Point::new(2, 2), Point::new(2, 2), Point::new(8, 8)];
    let merged = remove_centroids(input, 0);
    assert_eq!(coords(&merged), vec![(2, 2), (8, 8)]);
}

#[test]
fn far_pivot_stays_single_while_the_close_pair_merges() {
    let input = vec![Point::new(0, 0), Point::new(20, 0), Point::new(22, 0)];
    let merged = remove_centroids(input, 4);
    assert_eq!(coords(&merged), vec![(0, 0), (21, 0)]);
}
