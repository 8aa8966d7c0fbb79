//! Normalization, Bayesian update, and the predict pipeline.

use bayes_filter::bayes::{normalize, predict, update, PredictError, UpdateError};
use bayes_filter::conv::ConvolutionError;
use bayes_filter::dist::Distribution;
use bayes_filter::translate::{PDMode, PredictionConfig};

fn dist(shape: Vec<usize>, num: Vec<u64>, den: u64) -> Distribution {
    Distribution::new(shape, num, den).unwrap()
}

#[test]
fn normalize_sums_to_one_exactly() {
    // [1, 2, 3, 4] / 7 normalizes to [1, 2, 3, 4] / 10: mass is exactly 1.
    let d = dist(vec![4], vec![1, 2, 3, 4], 7);
    let p = normalize(d).unwrap();
    assert_eq!(p.num, vec![1, 2, 3, 4]);
    assert_eq!(p.den, 10);
    let total: u64 = p.num.iter().copied().sum();
    assert_eq!(total, p.den);
    let float_sum: f32 = p.num.iter().map(|&n| n as f32 / p.den as f32).sum();
    assert!((float_sum - 1.0).abs() < 1e-6);
}

#[test]
fn normalize_rejects_zero_sum_distribution() {
    // All-zero belief: an error, never an ill-defined output.
    let d = dist(vec![4], vec![0, 0, 0, 0], 1);
    assert!(normalize(d).is_err());
}

#[test]
fn update_with_uniform_likelihood_returns_prior_unchanged() {
    // update([1,1,1,1], [0.1,0.2,0.3,0.4]) leaves the belief as it was.
    let likelihood = dist(vec![4], vec![1, 1, 1, 1], 1);
    let prior = dist(vec![4], vec![1, 2, 3, 4], 10);
    let posterior = update(likelihood, prior).unwrap();
    assert_eq!(posterior.num, vec![1, 2, 3, 4]);
    assert_eq!(posterior.den, 10);
    let values: Vec<f32> = posterior.num.iter().map(|&n| n as f32 / posterior.den as f32).collect();
    assert_eq!(values, vec![0.1, 0.2, 0.3, 0.4]);
}

#[test]
fn update_with_scaled_uniform_likelihood_equals_normalized_prior() {
    // A constant likelihood of any scale carries no information: the
    // posterior holds the same values as the normalized prior.
    let likelihood = dist(vec![4], vec![3, 3, 3, 3], 5);
    let prior = dist(vec![4], vec![1, 2, 3, 4], 10);
    let posterior = update(likelihood, prior).unwrap();
    assert_eq!(posterior.num, vec![3, 6, 9, 12]);
    assert_eq!(posterior.den, 30);
    let renormalized = normalize(dist(vec![4], vec![1, 2, 3, 4], 10)).unwrap();
    for i in 0..4 {
        // Equal rationals: cross-multiplied numerators agree.
        assert_eq!(
            posterior.num[i] * renormalized.den,
            renormalized.num[i] * posterior.den
        );
    }
}

#[test]
fn update_weighs_prior_by_likelihood() {
    // Likelihood [0.5, 0.25] against prior [0.5, 0.5]: posterior [2/3, 1/3].
    let likelihood = dist(vec![2], vec![2, 1], 4);
    let prior = dist(vec![2], vec![1, 1], 2);
    let posterior = update(likelihood, prior).unwrap();
    assert_eq!(posterior.num, vec![2, 1]);
    assert_eq!(posterior.den, 3);
}

#[test]
fn update_rejects_mismatched_shapes() {
    let likelihood = dist(vec![3], vec![1, 1, 1], 1);
    let prior = dist(vec![4], vec![1, 2, 3, 4], 10);
    match update(likelihood, prior) {
        Err(UpdateError::Dimension(_)) => {},
        _ => panic!("expected a dimension error"),
    }
}

#[test]
fn update_rejects_fully_excluding_evidence() {
    // The likelihood rules out every cell the prior allows.
    let likelihood = dist(vec![2], vec![0, 1], 1);
    let prior = dist(vec![2], vec![3, 0], 3);
    match update(likelihood, prior) {
        Err(UpdateError::Degenerate(_)) => {},
        _ => panic!("expected a degenerate-distribution error"),
    }
}

#[test]
fn predict_with_identity_kernel_returns_input() {
    // A single unit tap (7/7 == 1) and offset 0: the belief is unchanged.
    let d = dist(vec![4], vec![1, 2, 3, 4], 10);
    let kernel = dist(vec![1], vec![7], 7);
    let conf = PredictionConfig::default();
    let out = predict(d, kernel, conf).unwrap();
    assert_eq!(out.shape, vec![4]);
    assert_eq!(out.num, vec![7, 14, 21, 28]);
    assert_eq!(out.den, 70);
    let values: Vec<f32> = out.num.iter().map(|&n| n as f32 / out.den as f32).collect();
    assert_eq!(values, vec![0.1, 0.2, 0.3, 0.4]);
}

#[test]
fn predict_translates_then_diffuses() {
    // Wrap by 1, then convolve with the averaging kernel [1/2, 1/2].
    let d = dist(vec![4], vec![1, 2, 3, 4], 10);
    let kernel = dist(vec![2], vec![1, 1], 2);
    let conf = PredictionConfig { offset: 1, mode: PDMode::Wrap };
    let out = predict(d, kernel, conf).unwrap();
    // Translated numerators [4, 1, 2, 3]; windows sum pairwise.
    assert_eq!(out.shape, vec![3]);
    assert_eq!(out.num, vec![5, 3, 5]);
    assert_eq!(out.den, 20);
}

#[test]
fn predict_rejects_kernel_without_axes() {
    let d = dist(vec![4], vec![1, 2, 3, 4], 10);
    let kernel = dist(vec![], vec![1], 1);
    match predict(d, kernel, PredictionConfig::default()) {
        Err(PredictError::Convolution(ConvolutionError::BuildFailed)) => {},
        _ => panic!("expected a build failure"),
    }
}

#[test]
fn predict_rejects_kernel_with_empty_axis() {
    let d = dist(vec![4], vec![1, 2, 3, 4], 10);
    let kernel = dist(vec![0], vec![], 1);
    match predict(d, kernel, PredictionConfig::default()) {
        Err(PredictError::Convolution(ConvolutionError::BuildFailed)) => {},
        _ => panic!("expected a build failure"),
    }
}

#[test]
fn predict_rejects_offset_past_trailing_extent() {
    let d = dist(vec![4], vec![1, 2, 3, 4], 10);
    let kernel = dist(vec![1], vec![1], 1);
    let conf = PredictionConfig { offset: 4, mode: PDMode::Wrap };
    match predict(d, kernel, conf) {
        Err(PredictError::Dimension(_)) => {},
        _ => panic!("expected a dimension error"),
    }
}

#[test]
fn predict_rejects_oversized_kernel() {
    let d = dist(vec![4], vec![1, 2, 3, 4], 10);
    let kernel = dist(vec![5], vec![1, 1, 1, 1, 1], 5);
    match predict(d, kernel, PredictionConfig::default()) {
        Err(PredictError::Convolution(ConvolutionError::ComputeFailed)) => {},
        _ => panic!("expected a compute failure"),
    }
}

#[test]
fn predict_rejects_rank_mismatch() {
    let d = dist(vec![4], vec![1, 2, 3, 4], 10);
    let kernel = dist(vec![1, 1], vec![1], 1);
    match predict(d, kernel, PredictionConfig::default()) {
        Err(PredictError::Convolution(ConvolutionError::ComputeFailed)) => {},
        _ => panic!("expected a compute failure"),
    }
}

#[test]
fn predict_then_update_cycle() {
    // One full filter step: diffuse the belief, then fuse fresh evidence.
    let belief = dist(vec![3], vec![1, 2, 1], 4);
    let kernel = dist(vec![1], vec![1], 1);
    let conf = PredictionConfig::default();
    let prior = predict(belief, kernel, conf).unwrap();
    let likelihood = dist(vec![3], vec![0, 1, 0], 1);
    let posterior = update(likelihood, prior).unwrap();
    // Only the middle cell survives; normalization makes it the whole mass.
    assert_eq!(posterior.num, vec![0, 2, 0]);
    assert_eq!(posterior.den, 2);
}
