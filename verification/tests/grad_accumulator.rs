use ipfrs_tensorlogic::grad_accumulator::AccumulationWindow;

/// A contribution of `grad.len()` values to `name`, as the accumulator records it.
fn add(w: &mut AccumulationWindow, name: &str, grad: &[f64]) -> Result<(), String> {
    w.register(name, grad.len())
}

#[test]
fn test_new_accumulator_empty() {
    let w = AccumulationWindow::new(4);
    assert_eq!(w.buffer_count(), 0);
    assert_eq!(w.current_step(), 0);
    assert!(!w.is_ready());
}

#[test]
fn test_is_ready_empty() {
    let w = AccumulationWindow::new(2);
    assert!(!w.is_ready());
}

#[test]
fn test_is_ready_partial() {
    let mut w = AccumulationWindow::new(3);
    add(&mut w, "w", &[1.0]).ok();
    add(&mut w, "w", &[2.0]).ok();
    assert!(!w.is_ready());
}

#[test]
fn test_is_ready_exact() {
    let mut w = AccumulationWindow::new(2);
    add(&mut w, "w", &[1.0]).ok();
    add(&mut w, "w", &[2.0]).ok();
    assert!(w.is_ready());
}

#[test]
fn test_is_ready_multi_param_partial() {
    let mut w = AccumulationWindow::new(2);
    add(&mut w, "w", &[1.0]).ok();
    add(&mut w, "w", &[2.0]).ok();
    add(&mut w, "b", &[0.5]).ok();
    assert!(!w.is_ready());
}

#[test]
fn test_is_ready_multi_param_all_ready() {
    let mut w = AccumulationWindow::new(2);
    add(&mut w, "w", &[1.0]).ok();
    add(&mut w, "b", &[0.5]).ok();
    add(&mut w, "w", &[2.0]).ok();
    add(&mut w, "b", &[0.7]).ok();
    assert!(w.is_ready());
}

#[test]
fn test_step_returns_all_params() {
    let mut w = AccumulationWindow::new(1);
    add(&mut w, "w", &[1.0, 2.0]).ok();
    add(&mut w, "b", &[0.5]).ok();
    let tallies = w.close().expect("step");
    assert_eq!(tallies.len(), 2);
    assert!(tallies.iter().any(|t| t.name == "w"));
    assert!(tallies.iter().any(|t| t.name == "b"));
}

#[test]
fn test_step_clears_buffers() {
    let mut w = AccumulationWindow::new(1);
    add(&mut w, "w", &[1.0]).ok();
    w.close().ok();
    assert_eq!(w.buffer_count(), 0);
    assert_eq!(w.current_step(), 0);
}

#[test]
fn test_step_error_when_not_ready() {
    let mut w = AccumulationWindow::new(3);
    add(&mut w, "w", &[1.0]).ok();
    let err = w.close().expect_err("should fail");
    assert!(err.contains("not ready"));
}

#[test]
fn test_accumulate_size_mismatch() {
    let mut w = AccumulationWindow::new(2);
    add(&mut w, "w", &[1.0, 2.0]).ok();
    let err = add(&mut w, "w", &[1.0, 2.0, 3.0]).expect_err("should fail");
    assert!(err.contains("size mismatch"));
}

#[test]
fn test_accumulate_size_mismatch_shorter() {
    let mut w = AccumulationWindow::new(2);
    add(&mut w, "w", &[1.0, 2.0, 3.0]).ok();
    let err = add(&mut w, "w", &[1.0]).expect_err("should fail");
    assert!(err.contains("size mismatch"));
}

#[test]
fn test_reset_clears_buffers() {
    let mut w = AccumulationWindow::new(2);
    add(&mut w, "w", &[1.0]).ok();
    add(&mut w, "b", &[2.0]).ok();
    w.reset();
    assert_eq!(w.buffer_count(), 0);
    assert_eq!(w.current_step(), 0);
    assert!(!w.is_ready());
}

#[test]
fn test_reset_preserves_lifetime_stats() {
    let mut w = AccumulationWindow::new(1);
    add(&mut w, "w", &[1.0]).ok();
    w.close().ok();
    let accums_before = w.stats().total_accumulations;
    w.reset();
    assert_eq!(w.stats().total_accumulations, accums_before);
}

#[test]
fn test_get_buffer_missing() {
    let w = AccumulationWindow::new(2);
    assert!(w.steps_of("nonexistent").is_none());
}

#[test]
fn test_stats_initial() {
    let w = AccumulationWindow::new(4);
    let s = w.stats();
    assert_eq!(s.buffer_count, 0);
    assert_eq!(s.current_step, 0);
    assert_eq!(s.accumulation_steps, 4);
    assert_eq!(s.total_accumulations, 0);
    assert_eq!(s.total_clips, 0);
}

#[test]
fn test_stats_after_step() {
    let mut w = AccumulationWindow::new(1);
    add(&mut w, "w", &[1.0]).ok();
    w.close().ok();
    let s = w.stats();
    assert_eq!(s.total_accumulations, 1);
    assert_eq!(s.buffer_count, 0);
}

#[test]
fn test_stats_multiple_steps() {
    let mut w = AccumulationWindow::new(1);
    for _ in 0..5 {
        add(&mut w, "w", &[1.0]).ok();
        w.close().ok();
    }
    assert_eq!(w.stats().total_accumulations, 5);
}

#[test]
fn test_step_empty_accumulator() {
    let mut w = AccumulationWindow::new(1);
    assert!(w.close().is_err());
}

#[test]
fn test_buffer_count_empty() {
    let w = AccumulationWindow::new(1);
    assert_eq!(w.buffer_count(), 0);
}

#[test]
fn test_current_step_tracks_max() {
    let mut w = AccumulationWindow::new(3);
    add(&mut w, "w", &[1.0]).ok();
    assert_eq!(w.current_step(), 1);
    add(&mut w, "w", &[2.0]).ok();
    assert_eq!(w.current_step(), 2);
}

#[test]
fn test_reset_then_reuse() {
    let mut w = AccumulationWindow::new(1);
    add(&mut w, "w", &[1.0]).ok();
    w.close().ok();
    w.reset();
    add(&mut w, "w", &[1.0, 2.0, 3.0]).ok();
    let tallies = w.close().expect("step");
    assert_eq!(tallies[0].len, 3);
}

#[test]
fn mismatch_message_names_lengths() {
    let mut w = AccumulationWindow::new(2);
    add(&mut w, "layer.weight", &[1.0, 2.0]).ok();
    let err = add(&mut w, "layer.weight", &[1.0, 2.0, 3.0]).unwrap_err();
    assert_eq!(err, "gradient size mismatch for 'layer.weight': expected 2, got 3");
    assert_eq!(w.steps_of("layer.weight"), Some(1));
}

#[test]
fn current_step_is_largest_count_over_parameters() {
    let mut w = AccumulationWindow::new(5);
    add(&mut w, "a", &[1.0]).ok();
    add(&mut w, "a", &[1.0]).ok();
    add(&mut w, "a", &[1.0]).ok();
    add(&mut w, "b", &[1.0]).ok();
    assert_eq!(w.current_step(), 3);
    assert_eq!(w.steps_of("b"), Some(1));
    assert_eq!(w.buffer_count(), 2);
}

#[test]
fn clip_counter_survives_close() {
    let mut w = AccumulationWindow::new(1);
    add(&mut w, "w", &[1.0]).ok();
    w.note_clip();
    w.close().ok();
    assert_eq!(w.total_clips(), 1);
    assert_eq!(w.total_accumulations(), 1);
}
