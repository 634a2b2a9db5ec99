use ipfrs_tensorlogic::early_stopping::{EpochVerdict, PatienceTracker, StopCriterion, StopDecision};

#[test]
fn tracker_starts_empty() {
    let t = PatienceTracker::new(3, 2);
    assert_eq!(t.patience, 3);
    assert_eq!(t.min_epochs, 2);
    assert_eq!(t.total_epochs, 0);
    assert_eq!(t.improvements, 0);
    assert_eq!(t.epochs_without_improvement, 0);
    assert!(!t.stopped);
    assert_eq!(t.stopped_at, None);
    assert_eq!(t.remaining_patience(), 3);
}

#[test]
fn stops_after_patience_exhausted() {
    // Loss 1.0 (improves on the initial best), then 1.1, 1.2, 1.3.
    let mut t = PatienceTracker::new(3, 0);
    assert_eq!(t.observe(0, true), EpochVerdict::Continue);
    assert_eq!(t.observe(1, false), EpochVerdict::Continue);
    assert_eq!(t.observe(2, false), EpochVerdict::Continue);
    assert_eq!(t.observe(3, false), EpochVerdict::Stop);
    assert!(t.stopped);
    assert_eq!(t.stopped_at, Some(3));
    assert_eq!(t.best_epoch, 0);
}

#[test]
fn improvement_resets_patience() {
    let mut t = PatienceTracker::new(3, 0);
    t.observe(0, true);
    t.observe(1, false);
    t.observe(2, false);
    assert_eq!(t.observe(3, true), EpochVerdict::Continue);
    assert_eq!(t.epochs_without_improvement, 0);
    assert_eq!(t.best_epoch, 3);
    assert_eq!(t.observe(4, false), EpochVerdict::Continue);
    assert_eq!(t.observe(5, false), EpochVerdict::Continue);
    assert_eq!(t.observe(6, false), EpochVerdict::Stop);
    assert_eq!(t.improvements, 2);
}

#[test]
fn never_stops_before_min_epochs() {
    let mut t = PatienceTracker::new(1, 5);
    for e in 0..4 {
        assert_eq!(t.observe(e, false), EpochVerdict::Continue);
    }
    assert_eq!(t.observe(4, false), EpochVerdict::Stop);
}

#[test]
fn stopped_tracker_answers_already_stopped() {
    let mut t = PatienceTracker::new(0, 0);
    assert_eq!(t.observe(0, false), EpochVerdict::Stop);
    let before = t;
    assert_eq!(t.observe(1, true), EpochVerdict::AlreadyStopped);
    assert_eq!(t, before);
}

#[test]
fn zero_patience_stops_even_on_improvement() {
    let mut t = PatienceTracker::new(0, 0);
    assert_eq!(t.observe(0, true), EpochVerdict::Stop);
}

#[test]
fn remaining_patience_saturates() {
    let mut t = PatienceTracker::new(2, 10);
    t.observe(0, false);
    assert_eq!(t.remaining_patience(), 1);
    t.observe(1, false);
    t.observe(2, false);
    assert_eq!(t.remaining_patience(), 0);
}

#[test]
fn reset_forgets_everything() {
    let mut t = PatienceTracker::new(1, 0);
    t.observe(0, false);
    assert!(t.stopped);
    t.reset();
    assert_eq!(t, PatienceTracker::new(1, 0));
}

#[test]
fn decisions_and_criteria_compare() {
    assert_eq!(StopDecision::Continue, StopDecision::Continue);
    assert_ne!(StopDecision::Stop("a".to_string()), StopDecision::Continue);
    assert_eq!(StopCriterion::MinMetric("f1".to_string()), StopCriterion::MinMetric("f1".to_string()));
}
