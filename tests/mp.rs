use coreset::bmor::Ratio;
use coreset::distance::Metric;
use coreset::mp::MettuPlaxton;

const ALPHA: Ratio = Ratio { num: 3, den: 4 };

#[test]
fn alpha_separation_on_a_line() {
    let points = vec![vec![0u32], vec![100], vec![200], vec![1000]];
    let mp = MettuPlaxton::new(points.clone(), Metric::L1, 100);
    let radii: Vec<u64> = (0..4).map(|i| mp.radius_of(i)).collect();
    assert_eq!(radii, vec![100, 100, 100, 100]);
    let f = mp.construct_centers(ALPHA);
    assert_eq!(f.len(), 4);
    for a in 0..f.len() {
        for b in 0..f.len() {
            if a != b {
                let fa = f.get_facility(a).unwrap();
                let fb = f.get_facility(b).unwrap();
                let d = Metric::L1.eval(fa.get_position(), fb.get_position());
                let r = radii[fa.get_dataid()].min(radii[fb.get_dataid()]);
                assert!(d * 4 > 3 * r);
            }
        }
    }
}

#[test]
fn radius_grows_where_points_are_sparse() {
    let points = vec![vec![0u32], vec![1], vec![2], vec![50]];
    let mp = MettuPlaxton::new(points, Metric::L1, 10);
    // around 1: r + 2 (r - 1) >= 10 first holds at r = 4
    assert_eq!(mp.radius_of(1), 4);
    // around 50 only the point itself counts
    assert_eq!(mp.radius_of(3), 10);
    let f = mp.construct_centers(ALPHA);
    // 1 is opened first (least radius); 0 and 2 lie within 0.75 * 5 of it; 50 is opened
    assert_eq!(f.len(), 2);
    assert_eq!(f.get_facility(0).unwrap().get_dataid(), 1);
    assert_eq!(f.get_facility(1).unwrap().get_dataid(), 3);
}

#[test]
fn one_point_opens_one_facility() {
    let mp = MettuPlaxton::new(vec![vec![7u32, 7]], Metric::L1, 5);
    let f = mp.construct_centers(ALPHA);
    assert_eq!(f.len(), 1);
    assert_eq!(f.get_facility(0).unwrap().get_position(), &vec![7, 7]);
}

#[test]
fn identical_points_open_one_facility_at_zero_cost() {
    let points: Vec<Vec<u32>> = (0..20).map(|_| vec![5u32, 5]).collect();
    let mp = MettuPlaxton::new(points, Metric::LInf, 100);
    assert_eq!(mp.radius_of(0), 5);
    let mut f = mp.construct_centers(Ratio { num: 1, den: 1 });
    assert_eq!(f.len(), 1);
    assert_eq!(mp.compute_distances(&mut f), 0);
    assert_eq!(f.get_facility(0).unwrap().get_weight(), 20);
}

#[test]
fn empty_input_gives_empty_registry() {
    let mp = MettuPlaxton::new(Vec::new(), Metric::L1, 5);
    assert_eq!(mp.construct_centers(ALPHA).len(), 0);
}

#[test]
fn two_clusters_give_two_facilities() {
    let mut points = Vec::new();
    for i in 0..50u32 {
        points.push(vec![1000 + i % 5, 1000 + i / 10]);
        points.push(vec![90_000 + i % 5, 1000 + i / 10]);
    }
    let mp = MettuPlaxton::new(points, Metric::L1, 2000);
    let mut f = mp.construct_centers(ALPHA);
    assert_eq!(f.len(), 2);
    let cost = mp.compute_distances(&mut f);
    assert_eq!(f.get_weight(), 100);
    assert_eq!(f.get_facility(0).unwrap().get_weight(), 50);
    assert!(cost > 0);
}
