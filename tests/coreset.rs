use coreset::bmor::{BmorError, Ratio};
use coreset::coreset1::{point_probability, sample_point, Coreset1};
use coreset::distance::Metric;
use rand::{Rng, SeedableRng};
use rand_xoshiro::Xoshiro256PlusPlus;

const TWO: Ratio = Ratio { num: 2, den: 1 };
const UNIT: f64 = 4294967296.0;

#[test]
fn probability_mixes_cost_share_and_facility_share() {
    // 1000 * (10 / 1000) / 2 + 1000 / (4 * 50) / 2 = 7.5, in units of 2^-32
    assert_eq!(point_probability(1000, 10, 1000, 4, 50), 32212254720);
    assert_eq!(point_probability(1000, 10, 0, 4, 50), 10737418240);
    assert_eq!(point_probability(1000, 10, 1000, 0, 50), 21474836480);
    assert_eq!(point_probability(0, 10, 1000, 4, 50), 0);
}

#[test]
fn sampling_keeps_with_the_probability_and_weighs_its_inverse() {
    assert_eq!(sample_point(0, 0), None);
    assert_eq!(sample_point(u64::MAX, 32212254720), Some(572662306));
    assert_eq!(sample_point(1 << 63, 1 << 31), None);
    assert_eq!(sample_point((1 << 63) - 1, 1 << 31), Some(1 << 33));
}

#[test]
fn coreset_parameters_are_checked() {
    assert_eq!(Coreset1::new(0, 10, TWO, TWO, Metric::L1, 2).err(), Some(BmorError::ParameterError));
    assert!(Coreset1::new(2, 10, TWO, TWO, Metric::L1, 2).is_ok());
}

#[test]
fn coreset_of_nothing_is_empty() {
    let c = Coreset1::new(2, 10, TWO, TWO, Metric::L1, 2).unwrap();
    let cs = c.make_coreset(&Vec::new(), 100).unwrap();
    assert_eq!(cs.len(), 0);
    assert_eq!(cs.get_nb_points(), 0);
    assert_eq!(cs.get(0), None);
}

#[test]
fn coreset_weights_sum_to_about_the_number_of_points() {
    let mut rng = Xoshiro256PlusPlus::seed_from_u64(5);
    let centers: Vec<(u32, u32)> = (0..10).map(|_| (rng.gen_range(10_000..1_000_000), rng.gen_range(10_000..1_000_000))).collect();
    let data: Vec<Vec<u32>> = (0..10_000)
        .map(|i| {
            let (x, y) = centers[i % 10];
            vec![x + rng.gen_range(0..2000), y + rng.gen_range(0..2000)]
        })
        .collect();
    let c = Coreset1::new(10, 10_000, TWO, TWO, Metric::L1, 2).unwrap();
    let cs = c.make_coreset(&data, 1000).unwrap();
    assert_eq!(cs.get_nb_points(), 10_000);
    assert!(cs.len() > 500 && cs.len() < 1500, "sample size {}", cs.len());
    let mut total = 0.0;
    let mut last = None;
    for i in 0..cs.len() {
        let (id, w) = cs.get(i).unwrap();
        assert!(id < 10_000);
        if let Some(l) = last {
            assert!(id > l);
        }
        last = Some(id);
        total += w as f64 / UNIT;
    }
    assert!((total - 10_000.0).abs() < 2_500.0, "total weight {}", total);
}

#[test]
fn coreset_is_reproducible() {
    let data: Vec<Vec<u32>> = (0..500u32).map(|i| vec![(i % 7) * 10_000 + i, i % 13]).collect();
    let c = Coreset1::new(3, 500, TWO, TWO, Metric::LInf, 2).unwrap();
    let a = c.make_coreset(&data, 50).unwrap();
    let b = c.make_coreset(&data, 50).unwrap();
    assert_eq!(a.len(), b.len());
    for i in 0..a.len() {
        assert_eq!(a.get(i), b.get(i));
    }
}
