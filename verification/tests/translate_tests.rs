//! Boundary-aware translation: wrap and constant-fill scenarios.

use bayes_filter::dist::{Distribution, Mass};
use bayes_filter::translate::{translate, PDMode, PredictionConfig};

fn dist(shape: Vec<usize>, num: Vec<u64>, den: u64) -> Distribution {
    Distribution::new(shape, num, den).unwrap()
}

fn total(d: &Distribution) -> u64 {
    d.num.iter().copied().sum()
}

#[test]
fn wrap_translate_by_one() {
    // [0.1, 0.2, 0.3, 0.4] wrapped by 1 becomes [0.4, 0.1, 0.2, 0.3].
    let d = dist(vec![4], vec![1, 2, 3, 4], 10);
    let t = translate(d, 1, PDMode::Wrap).unwrap();
    assert_eq!(t.num, vec![4, 1, 2, 3]);
    assert_eq!(t.den, 10);
    assert_eq!(t.shape, vec![4]);
    let values: Vec<f32> = t.num.iter().map(|&n| n as f32 / t.den as f32).collect();
    assert_eq!(values, vec![0.4, 0.1, 0.2, 0.3]);
}

#[test]
fn constant_translate_by_one_zero_fill() {
    // [0.1, 0.2, 0.3, 0.4] shifted by 1 with cval = 0 becomes [0.0, 0.1, 0.2, 0.3].
    let d = dist(vec![4], vec![1, 2, 3, 4], 10);
    let mode = PDMode::Constant { cval: Mass { num: 0, den: 1 } };
    let t = translate(d, 1, mode).unwrap();
    assert_eq!(t.num, vec![0, 1, 2, 3]);
    assert_eq!(t.den, 10);
    let values: Vec<f32> = t.num.iter().map(|&n| n as f32 / t.den as f32).collect();
    assert_eq!(values, vec![0.0, 0.1, 0.2, 0.3]);
}

#[test]
fn constant_translate_fills_leading_columns_with_cval() {
    // cval = 1/2; after the shift the first two columns hold exactly 1/2.
    let d = dist(vec![4], vec![1, 2, 3, 4], 10);
    let mode = PDMode::Constant { cval: Mass { num: 1, den: 2 } };
    let t = translate(d, 2, mode).unwrap();
    // Denominators rescale: den = 10 * 2; filled cells num = 1 * 10.
    assert_eq!(t.den, 20);
    assert_eq!(t.num, vec![10, 10, 2, 4]);
    assert_eq!(t.num[0] as f32 / t.den as f32, 0.5);
    assert_eq!(t.num[1] as f32 / t.den as f32, 0.5);
}

#[test]
fn wrap_translate_conserves_mass_exactly() {
    let d = dist(vec![2, 3], vec![5, 0, 7, 1, 2, 9], 24);
    let before = total(&d);
    let t = translate(d, 2, PDMode::Wrap).unwrap();
    assert_eq!(total(&t), before);
    assert_eq!(t.den, 24);
}

#[test]
fn wrap_translate_rotates_each_row() {
    // Two rows of three: each row rotates right by one, rows stay in place.
    let d = dist(vec![2, 3], vec![1, 2, 3, 4, 5, 6], 21);
    let t = translate(d, 1, PDMode::Wrap).unwrap();
    assert_eq!(t.num, vec![3, 1, 2, 6, 4, 5]);
}

#[test]
fn wrap_translate_round_trip_restores_input() {
    // Translating by k and then by extent - k restores the distribution.
    let d = dist(vec![4], vec![1, 2, 3, 4], 10);
    let once = translate(d, 1, PDMode::Wrap).unwrap();
    let back = translate(once, 3, PDMode::Wrap).unwrap();
    assert_eq!(back.num, vec![1, 2, 3, 4]);
    assert_eq!(back.den, 10);
}

#[test]
fn translate_offset_zero_is_identity_in_both_modes() {
    let d = dist(vec![4], vec![1, 2, 3, 4], 10);
    let t = translate(d, 0, PDMode::Wrap).unwrap();
    assert_eq!(t.num, vec![1, 2, 3, 4]);
    let d2 = dist(vec![4], vec![1, 2, 3, 4], 10);
    let mode = PDMode::Constant { cval: Mass { num: 0, den: 1 } };
    let t2 = translate(d2, 0, mode).unwrap();
    assert_eq!(t2.num, vec![1, 2, 3, 4]);
    assert_eq!(t2.den, 10);
}

#[test]
fn translate_rejects_offset_at_or_past_extent() {
    let d = dist(vec![4], vec![1, 2, 3, 4], 10);
    assert!(translate(d, 4, PDMode::Wrap).is_err());
    let d2 = dist(vec![4], vec![1, 2, 3, 4], 10);
    assert!(translate(d2, 7, PDMode::Wrap).is_err());
    // A distribution with no axes has no trailing axis to translate along.
    let scalar = dist(vec![], vec![5], 5);
    assert!(translate(scalar, 0, PDMode::Wrap).is_err());
}

#[test]
fn default_prediction_config_is_wrap_at_zero() {
    let c = PredictionConfig::default();
    assert_eq!(c.offset, 0);
    assert!(matches!(c.mode, PDMode::Wrap));
}
