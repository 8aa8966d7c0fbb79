//! The convolution adapter and the distribution constructor.

use bayes_filter::conv::{build_plan, diffuse, ConvolutionError};
use bayes_filter::dist::Distribution;

fn dist(shape: Vec<usize>, num: Vec<u64>, den: u64) -> Distribution {
    Distribution::new(shape, num, den).unwrap()
}

#[test]
fn diffuse_averages_neighbouring_cells() {
    // [0.1, 0.2, 0.3, 0.4] against the kernel [1/2, 1/2]:
    // valid convolution, three windows, values [0.15, 0.25, 0.35].
    let d = dist(vec![4], vec![1, 2, 3, 4], 10);
    let kernel = dist(vec![2], vec![1, 1], 2);
    let out = diffuse(&d, kernel).unwrap();
    assert_eq!(out.shape, vec![3]);
    assert_eq!(out.num, vec![3, 5, 7]);
    assert_eq!(out.den, 20);
    let values: Vec<f32> = out.num.iter().map(|&n| n as f32 / out.den as f32).collect();
    assert_eq!(values, vec![0.15, 0.25, 0.35]);
}

#[test]
fn diffuse_two_dimensional_kernel() {
    // A 2x3 map against a 1x2 kernel: each output cell sums a horizontal pair.
    let d = dist(vec![2, 3], vec![1, 2, 3, 4, 5, 6], 1);
    let kernel = dist(vec![1, 2], vec![1, 1], 2);
    let out = diffuse(&d, kernel).unwrap();
    assert_eq!(out.shape, vec![2, 2]);
    assert_eq!(out.num, vec![3, 5, 9, 11]);
    assert_eq!(out.den, 2);
}

#[test]
fn diffuse_weighted_motion_kernel() {
    // Kernel [1/4, 3/4]: mass leans toward the right neighbour.
    let d = dist(vec![3], vec![4, 0, 4], 8);
    let kernel = dist(vec![2], vec![1, 3], 4);
    let out = diffuse(&d, kernel).unwrap();
    assert_eq!(out.shape, vec![2]);
    assert_eq!(out.num, vec![4, 12]);
    assert_eq!(out.den, 32);
}

#[test]
fn diffuse_rejects_bad_kernel_before_shape_check() {
    // A kernel with no axes fails the plan build even though the feature
    // map would not match either.
    let d = dist(vec![4], vec![1, 2, 3, 4], 10);
    let kernel = dist(vec![], vec![1], 1);
    assert!(matches!(diffuse(&d, kernel), Err(ConvolutionError::BuildFailed)));
}

#[test]
fn diffuse_rejects_oversized_kernel() {
    let d = dist(vec![2], vec![1, 2], 3);
    let kernel = dist(vec![3], vec![1, 1, 1], 3);
    assert!(matches!(diffuse(&d, kernel), Err(ConvolutionError::ComputeFailed)));
}

#[test]
fn build_plan_accepts_odd_kernel() {
    let kernel = dist(vec![3], vec![1, 2, 1], 4);
    assert!(build_plan(kernel).is_ok());
}

#[test]
fn distribution_new_checks_well_formedness() {
    // A zero denominator and a cell-count mismatch are both rejected.
    assert!(Distribution::new(vec![4], vec![1, 2, 3, 4], 0).is_err());
    assert!(Distribution::new(vec![4], vec![1, 2, 3], 10).is_err());
    assert!(Distribution::new(vec![2, 2], vec![1, 2, 3, 4], 10).is_ok());
    // A zero extent means an empty array.
    assert!(Distribution::new(vec![0, 5], vec![], 1).is_ok());
    assert!(Distribution::new(vec![0, 5], vec![1], 1).is_err());
}
