use coreset::bmor::{ilog2, scale_up, should_open, Bmor, BmorError, Ratio};
use coreset::distance::Metric;
use rand::{Rng, SeedableRng};
use rand_xoshiro::Xoshiro256PlusPlus;

const TWO: Ratio = Ratio { num: 2, den: 1 };

fn gaussian(rng: &mut Xoshiro256PlusPlus, center: f64, sigma: f64) -> u32 {
    // sum of twelve uniforms, centred: close to a standard normal
    let s: f64 = (0..12).map(|_| rng.gen::<f64>()).sum::<f64>() - 6.0;
    (center + sigma * s).round().max(0.0) as u32
}

#[test]
fn log2_and_scale_values() {
    assert_eq!(ilog2(1), 0);
    assert_eq!(ilog2(1000), 9);
    assert_eq!(ilog2(1024), 10);
    assert_eq!(ilog2(usize::MAX), 63);
    assert_eq!(scale_up(5, Ratio { num: 3, den: 2 }), Some(8));
    assert_eq!(scale_up(4, TWO), Some(8));
    assert_eq!(scale_up(7, Ratio { num: 1, den: 1 }), Some(7));
}

#[test]
fn opening_draw_compares_with_the_scale() {
    // u / 2^64 < w * d * oneplogn / li
    assert!(should_open(1 << 63, 1, 1, 1, 1));
    assert!(!should_open(1 << 63, 1, 1, 1, 2));
    assert!(should_open((1 << 63) - 1, 1, 1, 1, 2));
    assert!(!should_open(0, 5, 0, 10, 1));
    assert!(should_open(u64::MAX, 1, 3, 2, 5));
    assert!(!should_open(u64::MAX, 1, 3, 2, 7));
}

#[test]
fn parameters_are_checked() {
    let bad = Ratio { num: 1, den: 2 };
    assert_eq!(Bmor::new(0, 10, TWO, TWO, Metric::L1, 2).err(), Some(BmorError::ParameterError));
    assert_eq!(Bmor::new(1, 0, TWO, TWO, Metric::L1, 2).err(), Some(BmorError::ParameterError));
    assert_eq!(Bmor::new(1, 10, bad, TWO, Metric::L1, 2).err(), Some(BmorError::ParameterError));
    assert_eq!(Bmor::new(1, 10, TWO, Ratio { num: 1, den: 0 }, Metric::L1, 2).err(), Some(BmorError::ParameterError));
    assert!(Bmor::new(1, 10, TWO, TWO, Metric::L1, 2).is_ok());
}

#[test]
fn one_point_gives_one_facility_with_full_weight() {
    let bmor = Bmor::new(1, 1, TWO, TWO, Metric::L1, 3).unwrap();
    let state = bmor.process_block(&vec![vec![4, 5, 6]]).unwrap();
    let f = state.get_facilities();
    assert_eq!(f.len(), 1);
    assert_eq!(f.get_facility(0).unwrap().get_weight(), 1);
    assert_eq!(f.get_facility(0).unwrap().get_dataid(), 0);
}

#[test]
fn identical_points_give_one_facility_at_zero_cost() {
    let data: Vec<Vec<u32>> = (0..100).map(|_| vec![3, 1, 4, 1]).collect();
    let bmor = Bmor::new(1, 100, TWO, TWO, Metric::L1, 4).unwrap();
    let state = bmor.process_block(&data).unwrap();
    assert_eq!(state.get_facilities().len(), 1);
    let f = state.get_facilities().get_cloned_facility(0).unwrap();
    assert_eq!(f.get_weight(), 100);
    assert_eq!(f.get_cost(), 0);
    assert_eq!(state.get_cost(), 0);
    assert_eq!(state.get_weight(), 100);
    assert_eq!(state.get_phase(), 0);
}

#[test]
fn facility_bound_formula() {
    let bmor = Bmor::new(2, 1000, TWO, TWO, Metric::L1, 1).unwrap();
    let state = bmor.process_block(&vec![vec![1]]).unwrap();
    // floor(2 * (1 + 9) * 2)
    assert_eq!(state.get_facility_bound(), 40);
    let bmor = Bmor::new(10, 10000, TWO, Ratio { num: 12, den: 10 }, Metric::L1, 1).unwrap();
    let state = bmor.process_block(&vec![vec![1]]).unwrap();
    // floor(1.2 * (1 + 13) * 10)
    assert_eq!(state.get_facility_bound(), 168);
    assert_eq!(state.get_phase_cost_bound(), 2);
}

#[test]
fn two_clusters_are_kept_apart() {
    let mut rng = Xoshiro256PlusPlus::seed_from_u64(7);
    let mut data = Vec::new();
    let mut labels = Vec::new();
    for i in 0..1000 {
        let cx = if i % 2 == 0 { 100_000.0 } else { 110_000.0 };
        data.push(vec![gaussian(&mut rng, cx, 100.0), gaussian(&mut rng, 100_000.0, 100.0)]);
        labels.push((i % 2) as u32);
    }
    let bmor = Bmor::new(2, 1000, TWO, TWO, Metric::L2, 2).unwrap();
    let state = bmor.process_block(&data).unwrap();
    assert_eq!(state.get_weight(), 1000);
    assert!(state.get_facilities().len() as u128 <= state.get_facility_bound());
    let mut registry = bmor.end_data(state, false);
    assert_eq!(registry.get_weight(), 1000);
    let (_cost, dist) = registry.dispatch_labels(&data, &labels, None);
    for h in &dist {
        assert!(h.len() <= 1, "a facility mixes the two clusters");
    }
    let total: u32 = dist.iter().flat_map(|h| h.values()).sum();
    assert_eq!(total, 1000);
}

#[test]
fn phase_restart_keeps_budgets() {
    let mut rng = Xoshiro256PlusPlus::seed_from_u64(11);
    let centers: Vec<(f64, f64)> = (0..50)
        .map(|_| (rng.gen_range(10_000.0..1_000_000.0), rng.gen_range(10_000.0..1_000_000.0)))
        .collect();
    let data: Vec<Vec<u32>> = (0..10_000)
        .map(|i| {
            let (x, y) = centers[i % 50];
            vec![gaussian(&mut rng, x, 500.0), gaussian(&mut rng, y, 500.0)]
        })
        .collect();
    let bmor = Bmor::new(10, 10_000, TWO, Ratio { num: 12, den: 10 }, Metric::L1, 2).unwrap();
    let state = bmor.process_block(&data).unwrap();
    assert!(state.get_phase() > 0);
    assert!(state.get_facilities().len() as u128 <= state.get_facility_bound());
    assert!(state.get_cost() <= state.get_phase_cost_bound());
    assert_eq!(state.get_weight(), 10_000);
    assert_eq!(state.get_facilities().get_weight(), 10_000);
}

#[test]
fn weighted_block_keeps_inserted_weight() {
    let bmor = Bmor::new(2, 100, TWO, TWO, Metric::L1, 1).unwrap();
    let mut state = bmor.process_block(&vec![vec![0]]).unwrap();
    let block = vec![(5u64, vec![10u32], 1usize), (7, vec![2000], 2), (1, vec![12], 3)];
    bmor.process_weighted_block(&mut state, &block).unwrap();
    assert_eq!(state.get_weight(), 1 + 5 + 7 + 1);
    assert_eq!(state.get_facilities().get_weight(), 14);
}

#[test]
fn scales_that_cannot_grow_fail() {
    let huge = Ratio { num: u32::MAX, den: 1 };
    let bmor = Bmor::new(1, 1, huge, Ratio { num: 1, den: 1 }, Metric::L1, 1).unwrap();
    let mut state = bmor.process_block(&vec![vec![0]]).unwrap();
    let block = vec![(1u64 << 62, vec![u32::MAX], 1usize), (1 << 62, vec![0], 2), (1 << 62, vec![u32::MAX], 3)];
    assert_eq!(bmor.process_weighted_block(&mut state, &block), Err(BmorError::ScaleOverflow));
}

#[test]
fn runs_are_reproducible() {
    let mut rng = Xoshiro256PlusPlus::seed_from_u64(3);
    let data: Vec<Vec<u32>> = (0..2000).map(|_| vec![rng.gen_range(0..100_000), rng.gen_range(0..100_000)]).collect();
    let bmor = Bmor::new(5, 2000, TWO, TWO, Metric::L1, 2).unwrap();
    let ids = |s: &coreset::bmor::BmorState| -> Vec<usize> {
        let f = s.get_facilities();
        (0..f.len()).map(|i| f.get_facility(i).unwrap().get_dataid()).collect()
    };
    let a = bmor.process_block(&data).unwrap();
    let b = bmor.process_block(&data).unwrap();
    assert_eq!(ids(&a), ids(&b));
    assert_eq!(a.get_phase(), b.get_phase());
}

#[test]
fn contraction_keeps_total_weight() {
    let data: Vec<Vec<u32>> = (0..300).map(|i| vec![(i % 30) * 1000 + (i / 30)]).collect();
    let bmor = Bmor::new(3, 300, TWO, TWO, Metric::L1, 1).unwrap();
    let state = bmor.process_block(&data).unwrap();
    let before = state.get_facilities().len();
    let registry = bmor.end_data(state, true);
    assert_eq!(registry.get_weight(), 300);
    assert!(registry.len() >= 1 && registry.len() <= before.max(1) * 2);
    let state = bmor.process_block(&data).unwrap();
    let plain = bmor.end_data(state, false);
    assert_eq!(plain.len(), before);
}

#[test]
fn process_data_keeps_caller_ids() {
    let bmor = Bmor::new(1, 8, TWO, TWO, Metric::L1, 1).unwrap();
    let data: Vec<Vec<u32>> = (0..5).map(|_| vec![42]).collect();
    let ids = vec![900, 901, 902, 903, 904];
    let state = bmor.process_data(&data, &ids).unwrap();
    let f = state.get_facilities();
    assert_eq!(f.len(), 1);
    assert_eq!(f.get_facility(0).unwrap().get_dataid(), 900);
    assert_eq!(state.get_nb_inserted(), 5);
    let (near, d) = state.get_nearest_center(&vec![40]).unwrap();
    assert_eq!(near.get_dataid(), 900);
    assert_eq!(d, 2);
    assert_eq!(state.get_li(), 1);
}

#[test]
fn restarts_raise_scales_and_reset_counts() {
    let data: Vec<Vec<u32>> = (0..200u32).map(|i| vec![i * 1000]).collect();
    let bmor = Bmor::new(1, 200, TWO, TWO, Metric::L1, 1).unwrap();
    let state = bmor.process_block(&data).unwrap();
    assert!(state.get_phase() > 0);
    // both scales doubled at each restart, from 1 and 2
    assert_eq!(state.get_li(), 1u64 << state.get_phase());
    assert_eq!(state.get_phase_cost_bound(), 2u128 << state.get_phase());
    assert!(state.get_nb_inserted() <= 200);
    let f = state.get_facilities();
    for a in 0..f.len() {
        let fa = f.get_facility(a).unwrap();
        assert_eq!(fa.get_position(), &data[fa.get_dataid()]);
        if a > 0 {
            assert!(f.get_facility(a - 1).unwrap().get_dataid() < fa.get_dataid());
        }
    }
}
