use ipfrs_tensorlogic::ensemble_learner::{bootstrap_indices, xorshift64, xorshift_usize, ElError, ElMethod};

#[test]
fn test_xorshift64_not_zero() {
    let mut state = 1u64;
    let v = xorshift64(&mut state);
    assert_ne!(v, 0);
}

#[test]
fn test_xorshift_usize_range() {
    let mut state = 42u64;
    for _ in 0..100 {
        let v = xorshift_usize(&mut state, 7);
        assert!(v < 7);
    }
}

#[test]
fn test_bootstrap_indices_length() {
    let mut rng = 1u64;
    let idxs = bootstrap_indices(&mut rng, 20, 10);
    assert_eq!(idxs.len(), 10);
}

#[test]
fn test_bootstrap_indices_in_range() {
    let mut rng = 1u64;
    let idxs = bootstrap_indices(&mut rng, 20, 15);
    for &i in &idxs {
        assert!(i < 20);
    }
}

#[test]
fn test_el_method_display() {
    assert_eq!(ElMethod::Bagging.to_string(), "Bagging");
    assert_eq!(ElMethod::AdaBoost.to_string(), "AdaBoost");
    assert_eq!(ElMethod::GradientBoosting.to_string(), "GradientBoosting");
    assert_eq!(ElMethod::RandomForest.to_string(), "RandomForest");
    assert_eq!(ElMethod::Stacking.to_string(), "Stacking");
}

#[test]
fn xorshift_first_step_value() {
    // 1 -> 1 ^ (1 << 13) = 0x2001; ^ (>> 7) = 0x2001 ^ 0x40 = 0x2041; ^ (<< 17).
    let mut state = 1u64;
    let v = xorshift64(&mut state);
    assert_eq!(v, 0x2041 ^ (0x2041u64 << 17));
    assert_eq!(state, v);
}

#[test]
fn bootstrap_matches_repeated_draws() {
    let mut a = 99u64;
    let idxs = bootstrap_indices(&mut a, 13, 6);
    let mut b = 99u64;
    let draws: Vec<usize> = (0..6).map(|_| xorshift_usize(&mut b, 13)).collect();
    assert_eq!(idxs, draws);
    assert_eq!(a, b);
    let mut c = 5u64;
    assert!(bootstrap_indices(&mut c, 0, 0).is_empty());
    assert_eq!(c, 5);
}

#[test]
fn usize_draw_is_step_mod_n() {
    let mut s = 7u64;
    let mut t = 7u64;
    let step = xorshift64(&mut t);
    let d = xorshift_usize(&mut s, 1000);
    assert_eq!(d, (step as usize) % 1000);
    assert_eq!(s, t);
}

#[test]
fn method_default_and_errors() {
    assert_eq!(ElMethod::default(), ElMethod::Bagging);
    let e = ElError::FeatureDimensionMismatch { expected: 3, got: 2 };
    assert_eq!(e, ElError::FeatureDimensionMismatch { expected: 3, got: 2 });
    assert_ne!(ElError::EmptyTrainingSet, ElError::NoTrainedModels);
}
