use linfa::fixed::SCALE;
use linfa::{Config, OnlineOptimizer, ScalingError, StandardScaler};

const ONE: i128 = SCALE as i128;

fn fitted(batch: &[i32], ddof: u64) -> (OnlineOptimizer, StandardScaler) {
    let mut optimizer = OnlineOptimizer::default();
    let scaler = optimizer.fit(&batch.to_vec(), Config { ddof }).unwrap();
    (optimizer, scaler)
}

#[test]
fn default_config_is_sample_deviation() {
    assert_eq!(Config::default().ddof, 1);
    assert_eq!(Config::default(), Config { ddof: 1 });
}

#[test]
fn default_optimizer_has_seen_nothing() {
    assert_eq!(OnlineOptimizer::default().n_samples, 0);
}

#[test]
fn fit_reads_out_mean_and_deviation() {
    let (optimizer, scaler) = fitted(&[2, 4, 4, 4, 5, 5, 7, 9], 1);
    assert_eq!(optimizer.n_samples, 8);
    assert_eq!(scaler.count(), 8);
    assert_eq!(scaler.ddof(), 1);
    // mean 5, variance 32 / 7
    assert_eq!(scaler.mean(), 5 * ONE);
    assert_eq!(scaler.standard_deviation(), 601818814743685);
    let deviation = scaler.standard_deviation() as f64 / SCALE as f64;
    assert!((deviation - (32.0f64 / 7.0).sqrt()).abs() < 1e-9);
    assert!((deviation - 2.13809).abs() < 1e-6);
}

#[test]
fn fit_with_population_variance() {
    let (_, scaler) = fitted(&[2, 4, 4, 4, 5, 5, 7, 9], 0);
    // variance 32 / 8 = 4
    assert_eq!(scaler.ddof(), 0);
    assert_eq!(scaler.mean(), 5 * ONE);
    assert_eq!(scaler.standard_deviation(), 2 * SCALE as u128);
}

#[test]
fn fit_with_a_large_correction() {
    // mean 6.5, squared deviations 5, variance 5 / (4 - 3)
    let (_, scaler) = fitted(&[5, 6, 7, 8], 3);
    assert_eq!(scaler.ddof(), 3);
    assert_eq!(scaler.mean(), 1829587348619264);
    assert_eq!(scaler.standard_deviation(), 629397181890196);
}

#[test]
fn fit_of_a_single_sample() {
    let (optimizer, scaler) = fitted(&[-7], 0);
    assert_eq!(optimizer.n_samples, 1);
    assert_eq!(scaler.count(), 1);
    assert_eq!(scaler.mean(), -7 * ONE);
    assert_eq!(scaler.standard_deviation(), 0);
}

#[test]
fn fit_rounds_a_negative_mean_toward_zero() {
    let (_, scaler) = fitted(&[-3, -4], 0);
    // mean -3.5, variance 1 / 4
    assert_eq!(scaler.mean(), -985162418487296);
    assert_eq!(scaler.standard_deviation(), 140737488355328);
    let (_, scaler) = fitted(&[-1, -1, 1], 0);
    // mean -1 / 3: -93824992236885.33 units
    assert_eq!(scaler.mean(), -93824992236885);
}

#[test]
fn fit_of_empty_batch_is_refused() {
    let mut optimizer = OnlineOptimizer::default();
    let outcome = optimizer.fit(&Vec::new(), Config::default());
    assert_eq!(outcome, Err(ScalingError::EmptyInput));
    assert_eq!(optimizer.n_samples, 0);
}

#[test]
fn refused_fit_keeps_an_earlier_count() {
    let (mut optimizer, _) = fitted(&[1, 2, 3], 1);
    assert_eq!(optimizer.n_samples, 3);
    assert_eq!(optimizer.fit(&Vec::new(), Config::default()), Err(ScalingError::EmptyInput));
    assert_eq!(optimizer.n_samples, 3);
    assert_eq!(optimizer.fit(&vec![7], Config::default()), Err(ScalingError::DegenerateScale));
    assert_eq!(optimizer.n_samples, 3);
}

#[test]
fn fit_needs_more_samples_than_ddof() {
    let mut optimizer = OnlineOptimizer::default();
    assert_eq!(optimizer.fit(&vec![5], Config { ddof: 1 }), Err(ScalingError::DegenerateScale));
    assert_eq!(
        optimizer.fit(&vec![5, 6, 7], Config { ddof: 3 }),
        Err(ScalingError::DegenerateScale)
    );
    assert_eq!(optimizer.n_samples, 0);
    assert!(optimizer.fit(&vec![5], Config { ddof: 0 }).is_ok());
    assert_eq!(optimizer.n_samples, 1);
    assert!(optimizer.fit(&vec![5, 6, 7, 8], Config { ddof: 3 }).is_ok());
    assert_eq!(optimizer.n_samples, 4);
}

#[test]
fn fit_starts_the_count_anew() {
    let (mut optimizer, first) = fitted(&[1, 2, 3, 4, 5], 1);
    assert_eq!(optimizer.n_samples, 5);
    let second = optimizer.fit(&vec![10, 20], Config::default()).unwrap();
    assert_eq!(optimizer.n_samples, 2);
    assert_eq!(second.count(), 2);
    assert_eq!(second.mean(), 15 * ONE);
    // the earlier standardizer is untouched
    assert_eq!(first.count(), 5);
    assert_eq!(first.mean(), 3 * ONE);
}

#[test]
fn update_with_empty_batch_changes_nothing() {
    let (mut optimizer, scaler) = fitted(&[2, 4, 4, 4, 5, 5, 7, 9], 1);
    let outcome = optimizer.update(&Vec::new(), scaler);
    assert_eq!(outcome, Ok(scaler));
    assert_eq!(optimizer.n_samples, 8);
}

#[test]
fn update_with_empty_batch_ignores_the_count() {
    // an empty batch is a no-op whatever standardizer is handed in
    let (_, scaler) = fitted(&[1, 2, 3], 1);
    let mut other = OnlineOptimizer { n_samples: 42 };
    assert_eq!(other.update(&Vec::new(), scaler), Ok(scaler));
    assert_eq!(other.n_samples, 42);
}

#[test]
fn update_needs_more_samples_than_ddof() {
    let (mut optimizer, scaler) = fitted(&[2, 4, 4, 4, 5, 5, 7, 9], 1);
    assert_eq!(optimizer.update(&vec![3], scaler), Err(ScalingError::DegenerateScale));
    assert_eq!(optimizer.n_samples, 8);
    let (mut optimizer, scaler) = fitted(&[2, 4, 4, 4, 5, 5, 7, 9], 0);
    let updated = optimizer.update(&vec![3], scaler).unwrap();
    assert_eq!(optimizer.n_samples, 9);
    assert_eq!(updated.count(), 9);
}

#[test]
fn update_reproduces_fit_of_joined_batches() {
    let (mut optimizer, current) = fitted(&[2, 4, 4, 4, 5, 5, 7, 9], 1);
    let updated = optimizer.update(&vec![1, 3], current).unwrap();
    assert_eq!(optimizer.n_samples, 10);
    let (_, whole) = fitted(&[2, 4, 4, 4, 5, 5, 7, 9, 1, 3], 1);
    assert_eq!(updated, whole);
    // mean 4.4, variance 48.4 / 9
    assert_eq!(updated.mean(), 1238489897526886);
    assert_eq!(updated.standard_deviation(), 652741489215583);
    assert!((updated.mean() as f64 / SCALE as f64 - 4.4).abs() < 1e-9);
    let deviation = updated.standard_deviation() as f64 / SCALE as f64;
    assert!((deviation - (48.4f64 / 9.0).sqrt()).abs() < 1e-9);
}

#[test]
fn update_follows_the_pooled_variance_formula() {
    // n1 = 2, mean 1, variance 2; batch [5, 9, 10]: mean 8, variance 7
    // mean: 1 + 7 * 3 / 5 = 5.2
    // variance: (2 * 1 + 7 * 2 + 49 * 2 * 3 / 5) / 4 = 74.8 / 4 = 18.7
    let (mut optimizer, current) = fitted(&[0, 2], 1);
    let updated = optimizer.update(&vec![5, 9, 10], current).unwrap();
    assert_eq!(updated.count(), 5);
    assert_eq!(updated.ddof(), 1);
    assert_eq!(updated.mean(), 1463669878895411);
    assert_eq!(updated.standard_deviation(), 1217196220424933);
    assert!((updated.mean() as f64 / SCALE as f64 - 5.2).abs() < 1e-9);
    let deviation = updated.standard_deviation() as f64 / SCALE as f64;
    assert!((deviation - 18.7f64.sqrt()).abs() < 1e-9);
}

#[test]
fn update_keeps_the_ddof_of_the_fit() {
    let (mut optimizer, current) = fitted(&[1, 5, 9], 0);
    let updated = optimizer.update(&vec![2, 2], current).unwrap();
    assert_eq!(updated.ddof(), 0);
    let (_, whole) = fitted(&[1, 5, 9, 2, 2], 0);
    assert_eq!(updated, whole);
}

#[test]
fn update_is_independent_of_the_split() {
    let batch = [7, -3, 12, 0, 5, 5, -8, 21];
    let (_, start) = fitted(&[2, 4, 4, 4, 5, 5, 7, 9], 1);
    let mut optimizer = OnlineOptimizer { n_samples: 8 };
    let at_once = optimizer.update(&batch.to_vec(), start).unwrap();
    assert_eq!(optimizer.n_samples, 16);
    for split in 2..=6 {
        let mut optimizer = OnlineOptimizer { n_samples: 8 };
        let head = optimizer.update(&batch[..split].to_vec(), start).unwrap();
        let both = optimizer.update(&batch[split..].to_vec(), head).unwrap();
        assert_eq!(both, at_once);
        assert_eq!(optimizer.n_samples, 16);
    }
}

#[test]
fn update_many_batches_matches_one_fit() {
    let mut all: Vec<i32> = Vec::new();
    let mut optimizer = OnlineOptimizer::default();
    let first: Vec<i32> = (0..20).map(|i| (i * 37) % 101 - 50).collect();
    all.extend(&first);
    let mut scaler = optimizer.fit(&first, Config::default()).unwrap();
    for round in 1..10 {
        let batch: Vec<i32> = (0..20).map(|i| (i * 53 + round * 17) % 211 - 100).collect();
        all.extend(&batch);
        scaler = optimizer.update(&batch, scaler).unwrap();
    }
    assert_eq!(optimizer.n_samples, 200);
    let mut fresh = OnlineOptimizer::default();
    assert_eq!(fresh.fit(&all, Config::default()), Ok(scaler));
}

#[test]
fn extreme_samples_are_summed_exactly() {
    let (_, scaler) = fitted(&[i32::MIN, i32::MAX], 1);
    // mean -1 / 2, variance (2^32 - 1)^2 / 2
    assert_eq!(scaler.mean(), -140737488355328);
    assert_eq!(scaler.standard_deviation(), 854839644801976350277632);
    assert_eq!(scaler.transform(&vec![i32::MIN, i32::MAX]), Ok(vec![-199032864766430, 199032864766430]));
}

#[test]
fn new_takes_valid_sums_only() {
    let (_, fitted_scaler) = fitted(&[2, 4, 4, 4, 5, 5, 7, 9], 1);
    // 8 samples, sum 40, sum of squares 232
    assert_eq!(StandardScaler::new(1, 8, 40, 232), Some(fitted_scaler));
    // not more samples than ddof
    assert_eq!(StandardScaler::new(8, 8, 40, 232), None);
    assert_eq!(StandardScaler::new(0, 0, 0, 0), None);
    // more samples than can be held
    assert_eq!(StandardScaler::new(1, 1 << 32, 0, 0), None);
    // a sum that 8 samples of 32 bits cannot have
    assert_eq!(StandardScaler::new(1, 8, 8 * (1 << 31) + 1, 1 << 70), None);
    assert_eq!(StandardScaler::new(1, 8, -8 * (1 << 31) - 1, 1 << 70), None);
    assert!(StandardScaler::new(1, 8, -8 * (1 << 31), 8 << 62).is_some());
    // a sum of squares that 8 samples of 32 bits cannot have
    assert_eq!(StandardScaler::new(1, 8, 0, (8 << 62) + 1), None);
    // a sum of squares too small for the sum: 8 * 199 < 40 * 40
    assert_eq!(StandardScaler::new(1, 8, 40, 199), None);
    assert!(StandardScaler::new(1, 8, 40, 200).is_some());
}

#[test]
fn new_standardizer_can_be_updated() {
    let current = StandardScaler::new(1, 8, 40, 232).unwrap();
    let mut optimizer = OnlineOptimizer { n_samples: 8 };
    let updated = optimizer.update(&vec![1, 3], current).unwrap();
    let (_, whole) = fitted(&[2, 4, 4, 4, 5, 5, 7, 9, 1, 3], 1);
    assert_eq!(updated, whole);
    assert_eq!(optimizer.n_samples, 10);
}
