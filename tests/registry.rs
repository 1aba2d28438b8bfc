use coreset::distance::Metric;
use coreset::facility::{Facilities, Facility, RegistryError};

fn registry(metric: Metric, centers: &[Vec<u32>]) -> Facilities {
    let dim = centers.first().map(|c| c.len()).unwrap_or(0);
    let facilities: Vec<Facility> = centers
        .iter()
        .enumerate()
        .map(|(i, c)| Facility::new(i, c))
        .collect();
    Facilities::from_facilities(metric, dim, facilities).unwrap()
}

#[test]
fn l1_and_linf_distances() {
    let a = vec![1u32, 5, 10];
    let b = vec![4u32, 2, 10];
    assert_eq!(Metric::L1.eval(&a, &b), 6);
    assert_eq!(Metric::LInf.eval(&a, &b), 3);
    assert_eq!(Metric::L1.eval(&a, &a), 0);
    assert_eq!(Metric::L1.eval(&vec![u32::MAX], &vec![0]), u32::MAX as u64);
    assert_eq!(Metric::L2.eval(&vec![0, 0], &vec![3, 4]), 5);
    assert_eq!(Metric::L2.eval(&vec![0, 0], &vec![1, 1]), 1);
    assert_eq!(Metric::L2.eval(&vec![10, 0, 7], &vec![0, 10, 7]), 14);
    assert_eq!(Metric::L2.eval(&vec![u32::MAX, u32::MAX], &vec![0, 0]), 6074000998);
}

#[test]
fn nearest_on_empty_registry_fails() {
    let r = Facilities::new(4, Metric::L1, 2);
    assert_eq!(r.get_nearest_facility(&vec![0, 0]), Err(RegistryError::EmptyRegistry));
}

#[test]
fn nearest_is_at_least_distance_and_first_on_ties() {
    let r = registry(Metric::L1, &[vec![0, 0], vec![10, 0], vec![4, 0], vec![6, 0]]);
    // 5 is at distance 1 of both 4 and 6: the lower rank wins
    assert_eq!(r.get_nearest_facility(&vec![5, 0]), Ok((2, 1)));
    let p = vec![9, 3];
    let (rank, d) = r.get_nearest_facility(&p).unwrap();
    assert_eq!((rank, d), (1, 4));
    for i in 0..r.len() {
        let f = r.get_facility(i).unwrap();
        assert!(d <= Metric::L1.eval(f.get_position(), &p));
    }
}

#[test]
fn match_point_within_dmax() {
    let r = registry(Metric::L1, &[vec![0, 0], vec![10, 0]]);
    assert!(r.match_point(&vec![3, 0], 3));
    assert!(!r.match_point(&vec![3, 0], 2));
    assert!(r.match_point(&vec![10, 2], 2));
}

#[test]
fn dispatch_conserves_weight_and_cost() {
    let mut r = registry(Metric::L1, &[vec![0, 0], vec![100, 0]]);
    let data = vec![vec![1, 0], vec![2, 1], vec![98, 0], vec![100, 0], vec![0, 0]];
    let weights = vec![3u64, 1, 2, 5, 4];
    let cost = r.dispatch_data(&data, Some(&weights));
    let f0 = r.get_cloned_facility(0).unwrap();
    let f1 = r.get_cloned_facility(1).unwrap();
    assert_eq!(f0.get_weight(), 3 + 1 + 4);
    assert_eq!(f1.get_weight(), 2 + 5);
    assert_eq!(f0.get_cost(), 3 * 1 + 1 * 3);
    assert_eq!(f1.get_cost(), 2 * 2);
    assert_eq!(r.get_weight(), 15);
    assert_eq!(cost, f0.get_cost() + f1.get_cost());
    assert_eq!(cost, 10);
}

#[test]
fn dispatch_resets_previous_counts() {
    let mut r = registry(Metric::L1, &[vec![0], vec![10]]);
    let data = vec![vec![1], vec![9]];
    let first = r.dispatch_data(&data, None);
    let second = r.dispatch_data(&data, None);
    assert_eq!(first, 2);
    assert_eq!(second, 2);
    assert_eq!(r.get_weight(), 2);
}

#[test]
fn dispatch_labels_counts_labels_per_facility() {
    let mut r = registry(Metric::L1, &[vec![0], vec![100]]);
    let data = vec![vec![1], vec![2], vec![99], vec![3], vec![101]];
    let labels = vec![7u32, 7, 8, 9, 8];
    let (cost, dist) = r.dispatch_labels(&data, &labels, None);
    assert_eq!(cost, 1 + 2 + 1 + 3 + 1);
    assert_eq!(dist.len(), 2);
    assert_eq!(dist[0].get(&7), Some(&2));
    assert_eq!(dist[0].get(&9), Some(&1));
    assert_eq!(dist[0].get(&8), None);
    assert_eq!(dist[1].get(&8), Some(&2));
    assert_eq!(dist[1].len(), 1);
}

#[test]
fn rebuilt_registry_dispatches_identically() {
    let mut r = registry(Metric::LInf, &[vec![0, 0], vec![50, 50], vec![0, 60]]);
    let data = vec![vec![1, 2], vec![48, 52], vec![3, 55], vec![30, 30], vec![0, 0]];
    let weights = vec![1u64, 2, 3, 4, 5];
    let cost = r.dispatch_data(&data, Some(&weights));
    // save as plain parts, read back, dispatch again
    let parts: Vec<(usize, Vec<u32>, u64, u128)> = (0..r.len())
        .map(|i| {
            let f = r.get_cloned_facility(i).unwrap();
            (f.get_dataid(), f.get_position().clone(), f.get_weight(), f.get_cost())
        })
        .collect();
    let facilities: Vec<Facility> = parts
        .iter()
        .map(|(id, c, w, k)| Facility::from_parts(*id, c, *w, *k))
        .collect();
    let mut back = Facilities::from_facilities(r.get_distance(), r.get_dim(), facilities).unwrap();
    let cost_back = back.dispatch_data(&data, Some(&weights));
    assert_eq!(cost, cost_back);
    for i in 0..r.len() {
        let a = r.get_cloned_facility(i).unwrap();
        let b = back.get_cloned_facility(i).unwrap();
        assert_eq!(a.get_weight(), b.get_weight());
        assert_eq!(a.get_cost(), b.get_cost());
        assert_eq!(a.get_dataid(), b.get_dataid());
    }
}

#[test]
fn from_facilities_rejects_wrong_dimension() {
    let facilities = vec![Facility::new(0, &vec![1, 2]), Facility::new(1, &vec![1])];
    assert!(Facilities::from_facilities(Metric::L1, 2, facilities).is_none());
}

#[test]
fn weighted_views_and_cross_distances() {
    let mut r = registry(Metric::L1, &[vec![0], vec![10], vec![30]]);
    r.dispatch_data(&vec![vec![1], vec![11], vec![12], vec![29]], None);
    let wd = r.into_weighted_data();
    assert_eq!(wd, vec![(1, vec![0]), (2, vec![10]), (1, vec![30])]);
    let (w, d) = r.get_weights_and_data();
    assert_eq!(w, vec![1, 2, 1]);
    assert_eq!(d, vec![vec![0], vec![10], vec![30]]);
    let wp = r.get_weighted_points();
    assert_eq!(wp[1], (2, vec![10], 1));
    assert_eq!(r.cross_distances(), vec![10, 30, 10, 20, 30, 20]);
    assert_eq!(registry(Metric::L1, &[vec![3]]).cross_distances(), Vec::<u64>::new());
}
