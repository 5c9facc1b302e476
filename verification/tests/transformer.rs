use linfa::fixed::{integer_sqrt, SCALE};
use linfa::{Config, OnlineOptimizer, ScalingError, StandardScaler};

fn fitted(batch: &[i32], ddof: u64) -> StandardScaler {
    OnlineOptimizer::default().fit(&batch.to_vec(), Config { ddof }).unwrap()
}

fn mean_and_deviation(scores: &[i128], ddof: usize) -> (f64, f64) {
    let values: Vec<f64> = scores.iter().map(|&s| s as f64 / SCALE as f64).collect();
    let n = values.len() as f64;
    let mean = values.iter().sum::<f64>() / n;
    let spread = values.iter().map(|v| (v - mean) * (v - mean)).sum::<f64>();
    (mean, (spread / (n - ddof as f64)).sqrt())
}

#[test]
fn scale_is_two_to_the_forty_eighth() {
    assert_eq!(SCALE, 1 << 48);
}

#[test]
fn transform_gives_whole_scores() {
    // mean 1, variance 1
    let scaler = fitted(&[0, 2], 0);
    assert_eq!(scaler.standard_deviation(), SCALE as u128);
    let scores = scaler.transform(&vec![0, 1, 2, 3, -1]).unwrap();
    let one = SCALE as i128;
    assert_eq!(scores, vec![-one, 0, one, 2 * one, -2 * one]);
}

#[test]
fn transform_rounds_toward_zero() {
    // mean 1, variance 2
    let scaler = fitted(&[0, 2], 1);
    assert_eq!(scaler.standard_deviation(), 398065729532860);
    // SCALE / sqrt(2) = 199032864766430.13
    let scores = scaler.transform(&vec![0, 2, 3, -1]).unwrap();
    assert_eq!(
        scores,
        vec![-199032864766430, 199032864766430, 398065729532860, -398065729532860]
    );
}

#[test]
fn transform_of_fitted_batch() {
    let batch = vec![2, 4, 4, 4, 5, 5, 7, 9];
    let scaler = fitted(&batch, 1);
    let scores = scaler.transform(&batch).unwrap();
    assert_eq!(
        scores,
        vec![
            -394943597175543,
            -131647865725181,
            -131647865725181,
            -131647865725181,
            0,
            0,
            263295731450362,
            526591462900724
        ]
    );
    let (mean, deviation) = mean_and_deviation(&scores, 1);
    assert!(mean.abs() <= 1e-9);
    assert!((deviation - 1.0).abs() <= 1e-9);
    let squares: f64 = scores.iter().map(|&s| (s as f64 / SCALE as f64).powi(2)).sum();
    assert!((squares / 7.0 - 1.0).abs() <= 1e-9);
    let expected = [-1.403122, -0.467707, -0.467707, -0.467707, 0.0, 0.0, 0.935414, 1.870829];
    for (score, value) in scores.iter().zip(expected) {
        assert!((*score as f64 / SCALE as f64 - value).abs() < 1e-6);
    }
}

#[test]
fn transform_round_trip_is_centered_and_scaled() {
    for ddof in 0..3u64 {
        let batch: Vec<i32> = (0..50).map(|i| (i * i * 31 + i * 7) % 1009 - 400).collect();
        let scaler = fitted(&batch, ddof);
        let scores = scaler.transform(&batch).unwrap();
        assert_eq!(scores.len(), batch.len());
        let (mean, deviation) = mean_and_deviation(&scores, ddof as usize);
        assert!(mean.abs() <= 1e-9);
        assert!((deviation - 1.0).abs() <= 1e-9);
    }
}

#[test]
fn transform_agrees_with_the_definition() {
    let batch: Vec<i32> = (0..200).map(|i| (i * i * 17 + i * 3) % 2003 - 1000).collect();
    for ddof in 0..2u64 {
        let scaler = fitted(&batch, ddof);
        let n = batch.len() as f64;
        let mean = batch.iter().map(|&x| x as f64).sum::<f64>() / n;
        let spread = batch.iter().map(|&x| (x as f64 - mean).powi(2)).sum::<f64>();
        let deviation = (spread / (n - ddof as f64)).sqrt();
        assert!((scaler.mean() as f64 / SCALE as f64 - mean).abs() <= 1e-9 * mean.abs());
        let read = scaler.standard_deviation() as f64 / SCALE as f64;
        assert!((read - deviation).abs() <= 1e-9 * deviation);
        let others = vec![-5000, -1, 0, 1, 37, 123456, i32::MAX, i32::MIN];
        let scores = scaler.transform(&others).unwrap();
        for (score, x) in scores.iter().zip(others) {
            let exact = (x as f64 - mean) / deviation;
            assert!((*score as f64 / SCALE as f64 - exact).abs() <= 1e-9 * (1.0 + exact.abs()));
        }
    }
}

#[test]
fn transform_of_other_values() {
    let scaler = fitted(&[1, 2, 4], 1);
    assert_eq!(scaler.mean(), 656774945658197);
    assert_eq!(scaler.standard_deviation(), 429960129004171);
    assert_eq!(
        scaler.transform(&vec![1, 2, 4]),
        Ok(vec![-245691502288097, -61422875572024, 307114377860122])
    );
    assert_eq!(scaler.transform(&Vec::new()), Ok(Vec::new()));
}

#[test]
fn transform_refuses_a_zero_deviation() {
    let scaler = fitted(&[5, 5, 5], 1);
    assert_eq!(scaler.standard_deviation(), 0);
    assert_eq!(scaler.transform(&vec![5, 6]), Err(ScalingError::DegenerateScale));
    assert_eq!(scaler.transform(&Vec::new()), Err(ScalingError::DegenerateScale));
    let single = fitted(&[9], 0);
    assert_eq!(single.transform(&vec![9]), Err(ScalingError::DegenerateScale));
}

#[test]
fn transform_with_a_small_deviation() {
    // one sample of 1 among 10000 of 0: mean 1 / 10001, deviation 0.0099995
    let mut batch = vec![0; 10001];
    batch[0] = 1;
    let scaler = fitted(&batch, 1);
    assert_eq!(scaler.mean(), 28144683202);
    assert_eq!(scaler.standard_deviation(), 2814609040172);
    let scores = scaler.transform(&batch).unwrap();
    assert_eq!(scores[0], 28146090401726367);
    assert_eq!(scores[1], -2814609040172);
    assert!((scores[0] as f64 / SCALE as f64 - 99.99500037496875).abs() < 1e-9);
    assert!((scores[1] as f64 / SCALE as f64 + 0.009999500037496877).abs() < 1e-9);
    let (mean, deviation) = mean_and_deviation(&scores, 1);
    assert!(mean.abs() <= 1e-9);
    assert!((deviation - 1.0).abs() <= 1e-9);
}

#[test]
fn transform_refuses_only_a_variance_of_zero() {
    // as many samples as can be held, all 0 but a single 1: the deviation
    // is 1.5e-5 and far below one unit of the samples, yet not zero
    let scaler = StandardScaler::new(0, u32::MAX as u64, 1, 1).unwrap();
    assert_eq!(scaler.mean(), 65536);
    assert_eq!(scaler.standard_deviation(), 4294967295);
    assert_eq!(scaler.transform(&vec![0, 1]), Ok(vec![-4294967297, 18446744069414584320]));
    // the same number of samples, all equal
    let flat = StandardScaler::new(0, u32::MAX as u64, 0, 0).unwrap();
    assert_eq!(flat.transform(&vec![0]), Err(ScalingError::DegenerateScale));
}

#[test]
fn transform_leaves_the_scaler_as_it_was() {
    let scaler = fitted(&[2, 4, 4, 4, 5, 5, 7, 9], 1);
    let before = scaler;
    let _ = scaler.transform(&vec![1, 2, 3]);
    assert_eq!(scaler, before);
}

#[test]
fn transform_after_update_uses_the_new_moments() {
    let mut optimizer = OnlineOptimizer::default();
    let first = optimizer.fit(&vec![0, 2], Config { ddof: 0 }).unwrap();
    let second = optimizer.update(&vec![4, 6], first).unwrap();
    // the earlier standardizer still stands for mean 1, variance 1
    assert_eq!(first.transform(&vec![3]), Ok(vec![2 * SCALE as i128]));
    // the later for mean 3, variance 5
    assert_eq!(second.mean(), 3 * SCALE as i128);
    assert_eq!(second.standard_deviation(), 629397181890196);
    assert_eq!(second.transform(&vec![3, 8]), Ok(vec![0, 629397181890196]));
}

#[test]
fn integer_sqrt_rounds_down() {
    assert_eq!(integer_sqrt(0), 0);
    assert_eq!(integer_sqrt(1), 1);
    assert_eq!(integer_sqrt(2), 1);
    assert_eq!(integer_sqrt(3), 1);
    assert_eq!(integer_sqrt(4), 2);
    assert_eq!(integer_sqrt(15), 3);
    assert_eq!(integer_sqrt(16), 4);
    assert_eq!(integer_sqrt(17), 4);
    assert_eq!(integer_sqrt(1 << 64), 1 << 32);
    assert_eq!(integer_sqrt((1 << 64) - 1), (1 << 32) - 1);
    assert_eq!(integer_sqrt(u128::MAX), u64::MAX);
}
