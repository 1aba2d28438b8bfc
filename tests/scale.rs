use coreset::distance::Metric;
use coreset::scale::{get_neighborhood_size, isqrt, pair_distances, scale_estimation, two_smallest};

fn line(n: u32) -> Vec<Vec<u32>> {
    (0..n).map(|i| vec![i * 3]).collect()
}

#[test]
fn isqrt_values() {
    assert_eq!(isqrt(0), 0);
    assert_eq!(isqrt(10), 3);
    assert_eq!(isqrt(16), 4);
    assert_eq!(isqrt(70000), 264);
}

#[test]
fn pair_sample_holds_distances_of_distinct_points() {
    let data = line(20);
    let d = scale_estimation(200, &data, Metric::L1);
    assert!(!d.is_empty());
    assert!(d.len() <= 200);
    for x in &d {
        assert!(*x > 0 && *x % 3 == 0 && *x <= 57);
    }
    // the sample is bounded by n * n
    assert!(scale_estimation(1000, &line(3), Metric::L1).len() <= 9);
    assert!(scale_estimation(10, &Vec::new(), Metric::L1).is_empty());
}

#[test]
fn pair_sample_is_reproducible() {
    let data = line(50);
    assert_eq!(scale_estimation(100, &data, Metric::L1), scale_estimation(100, &data, Metric::L1));
}

#[test]
fn neighbourhood_radii_are_ordered_distances() {
    let data = line(30);
    let r = get_neighborhood_size(0, &data, Metric::L1);
    // ceil(sqrt(30)) anchors
    assert_eq!(r.len(), 6);
    for (first, second) in &r {
        assert!(first <= second);
        assert!(*first > 0 && *first % 3 == 0);
    }
}

#[test]
fn neighbourhood_of_three_points() {
    // ceil(sqrt(3)) = 2 anchors, each with both other points drawn
    let r = get_neighborhood_size(0, &line(3), Metric::L1);
    assert_eq!(r.len(), 2);
    for pair in &r {
        assert!(*pair == (3, 6) || *pair == (3, 3));
    }
}

#[test]
fn two_smallest_values() {
    assert_eq!(two_smallest(&vec![5, 1, 4, 1, 9]), (1, 1));
    assert_eq!(two_smallest(&vec![7, 3]), (3, 7));
    assert_eq!(two_smallest(&vec![8, 6, 2, 4]), (2, 4));
}

#[test]
fn pair_distances_skip_equal_indices() {
    let data = line(4);
    assert_eq!(pair_distances(&data, &vec![(0, 1), (2, 2), (3, 0), (1, 3)], Metric::L1), vec![3, 9, 6]);
}
