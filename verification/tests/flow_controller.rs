use ipfrs_tensorlogic::flow_controller::{
    FlowItem, FlowLimits, FlowPriority, FlowState, FlowStats, TensorFlowController,
};

// The default limits: 256 items, 1 MiB per tick, throttled at 80 % fill
// (205 of 256 items).
fn default_limits() -> FlowLimits {
    FlowLimits {
        max_queue_size: 256,
        max_bytes_per_tick: 1_048_576,
        throttle_at: Some(205),
    }
}

fn limits(max_queue_size: usize, max_bytes_per_tick: u64, throttle_at: usize) -> FlowLimits {
    FlowLimits {
        max_queue_size,
        max_bytes_per_tick,
        throttle_at: Some(throttle_at),
    }
}

fn default_controller() -> TensorFlowController {
    TensorFlowController::new(default_limits())
}

fn make_item(item_id: u64, priority: FlowPriority, size_bytes: u64, tick: u64) -> FlowItem {
    FlowItem {
        item_id,
        tensor_id: item_id * 10,
        priority,
        size_bytes,
        enqueued_at_tick: tick,
    }
}

#[test]
fn test_new_starts_running() {
    let ctrl = default_controller();
    assert_eq!(ctrl.state(), FlowState::Running);
    assert_eq!(ctrl.queue_len(), 0);
}

#[test]
fn test_admit_running_succeeds() {
    let mut ctrl = default_controller();
    let admitted = ctrl.admit_item(make_item(1, FlowPriority::Normal, 100, 0));
    assert!(admitted);
    assert_eq!(ctrl.queue_len(), 1);
}

#[test]
fn test_admit_paused_drops() {
    let mut ctrl = default_controller();
    ctrl.pause();
    let admitted = ctrl.admit_item(make_item(1, FlowPriority::Normal, 100, 0));
    assert!(!admitted);
    assert_eq!(ctrl.stats().total_dropped, 1);
    assert_eq!(ctrl.queue_len(), 0);
}

#[test]
fn test_admit_draining_drops() {
    let mut ctrl = default_controller();
    ctrl.drain();
    let admitted = ctrl.admit_item(make_item(1, FlowPriority::Normal, 100, 0));
    assert!(!admitted);
    assert_eq!(ctrl.stats().total_dropped, 1);
    assert_eq!(ctrl.queue_len(), 0);
}

#[test]
fn test_admit_at_capacity_drops() {
    // 99 % of two items: throttled from two items on.
    let mut ctrl = TensorFlowController::new(limits(2, 1_048_576, 2));
    assert!(ctrl.admit_item(make_item(1, FlowPriority::Normal, 100, 0)));
    assert!(ctrl.admit_item(make_item(2, FlowPriority::Normal, 100, 1)));
    let admitted = ctrl.admit_item(make_item(3, FlowPriority::Normal, 100, 2));
    assert!(!admitted);
    assert_eq!(ctrl.stats().total_dropped, 1);
}

#[test]
fn test_backpressure_threshold_throttled() {
    // 80 % of ten items.
    let mut ctrl = TensorFlowController::new(limits(10, 1_048_576, 8));
    for i in 0..8 {
        ctrl.admit_item(make_item(i, FlowPriority::Normal, 100, i));
    }
    assert_eq!(ctrl.state(), FlowState::Throttled);
}

#[test]
fn test_below_threshold_stays_running() {
    let mut ctrl = TensorFlowController::new(limits(10, 1_048_576, 8));
    for i in 0..7 {
        ctrl.admit_item(make_item(i, FlowPriority::Normal, 100, i));
    }
    assert_eq!(ctrl.state(), FlowState::Running);
}

#[test]
fn test_process_tick_respects_byte_budget() {
    let mut ctrl = TensorFlowController::new(limits(256, 300, 205));
    ctrl.admit_item(make_item(1, FlowPriority::Normal, 100, 0));
    ctrl.admit_item(make_item(2, FlowPriority::Normal, 100, 1));
    ctrl.admit_item(make_item(3, FlowPriority::Normal, 100, 2));
    ctrl.admit_item(make_item(4, FlowPriority::Normal, 100, 3));
    let processed = ctrl.process_tick();
    assert_eq!(processed.len(), 3);
    assert_eq!(ctrl.queue_len(), 1);
}

#[test]
fn test_process_tick_paused_returns_empty() {
    let mut ctrl = default_controller();
    ctrl.admit_item(make_item(1, FlowPriority::Normal, 100, 0));
    ctrl.pause();
    let processed = ctrl.process_tick();
    assert!(processed.is_empty());
    assert_eq!(ctrl.queue_len(), 1);
}

#[test]
fn test_process_tick_priority_order() {
    let mut ctrl = TensorFlowController::new(limits(256, 200, 205));
    ctrl.admit_item(make_item(1, FlowPriority::Low, 100, 0));
    ctrl.admit_item(make_item(2, FlowPriority::Critical, 100, 1));
    let processed = ctrl.process_tick();
    assert_eq!(processed.len(), 2);
    assert_eq!(processed[0].priority, FlowPriority::Critical);
    assert_eq!(processed[1].priority, FlowPriority::Low);
}

#[test]
fn test_process_tick_fifo_within_priority() {
    let mut ctrl = TensorFlowController::new(limits(256, 300, 205));
    ctrl.admit_item(make_item(10, FlowPriority::Normal, 100, 5));
    ctrl.admit_item(make_item(20, FlowPriority::Normal, 100, 3));
    ctrl.admit_item(make_item(30, FlowPriority::Normal, 100, 7));
    let processed = ctrl.process_tick();
    assert_eq!(processed.len(), 3);
    assert_eq!(processed[0].enqueued_at_tick, 3);
    assert_eq!(processed[1].enqueued_at_tick, 5);
    assert_eq!(processed[2].enqueued_at_tick, 7);
}

#[test]
fn test_process_tick_updates_total_processed() {
    let mut ctrl = default_controller();
    ctrl.admit_item(make_item(1, FlowPriority::Normal, 100, 0));
    ctrl.admit_item(make_item(2, FlowPriority::Normal, 100, 1));
    ctrl.process_tick();
    assert_eq!(ctrl.stats().total_processed, 2);
}

#[test]
fn test_process_tick_updates_total_bytes() {
    let mut ctrl = default_controller();
    ctrl.admit_item(make_item(1, FlowPriority::Normal, 400, 0));
    ctrl.admit_item(make_item(2, FlowPriority::Normal, 600, 1));
    ctrl.process_tick();
    assert_eq!(ctrl.stats().total_bytes_processed, 1000);
}

#[test]
fn test_draining_empty_queue_becomes_paused() {
    let mut ctrl = default_controller();
    ctrl.admit_item(make_item(1, FlowPriority::Normal, 100, 0));
    ctrl.drain();
    assert_eq!(ctrl.state(), FlowState::Draining);
    ctrl.process_tick();
    assert_eq!(ctrl.state(), FlowState::Paused);
}

#[test]
fn test_pause_sets_paused() {
    let mut ctrl = default_controller();
    ctrl.pause();
    assert_eq!(ctrl.state(), FlowState::Paused);
}

#[test]
fn test_resume_from_paused_sets_running() {
    let mut ctrl = default_controller();
    ctrl.pause();
    ctrl.resume();
    assert_eq!(ctrl.state(), FlowState::Running);
}

#[test]
fn test_resume_from_paused_heavy_queue_sets_throttled() {
    // 50 % of ten items.
    let mut ctrl = TensorFlowController::new(limits(10, 1_048_576, 5));
    for i in 0..5 {
        ctrl.admit_item(make_item(i, FlowPriority::Normal, 100, i));
    }
    ctrl.pause();
    ctrl.resume();
    assert_eq!(ctrl.state(), FlowState::Throttled);
}

#[test]
fn test_drain_sets_draining() {
    let mut ctrl = default_controller();
    ctrl.drain();
    assert_eq!(ctrl.state(), FlowState::Draining);
}

#[test]
fn test_total_admitted_increments() {
    let mut ctrl = default_controller();
    ctrl.admit_item(make_item(1, FlowPriority::Normal, 100, 0));
    ctrl.admit_item(make_item(2, FlowPriority::Normal, 100, 1));
    ctrl.admit_item(make_item(3, FlowPriority::Normal, 100, 2));
    assert_eq!(ctrl.stats().total_admitted, 3);
}

#[test]
fn test_total_dropped_increments() {
    let mut ctrl = default_controller();
    ctrl.pause();
    ctrl.admit_item(make_item(1, FlowPriority::Normal, 100, 0));
    ctrl.admit_item(make_item(2, FlowPriority::Normal, 100, 1));
    assert_eq!(ctrl.stats().total_dropped, 2);
}

#[test]
fn test_queue_len_reflects_size() {
    let mut ctrl = default_controller();
    assert_eq!(ctrl.queue_len(), 0);
    ctrl.admit_item(make_item(1, FlowPriority::Normal, 100, 0));
    assert_eq!(ctrl.queue_len(), 1);
    ctrl.admit_item(make_item(2, FlowPriority::Normal, 100, 1));
    assert_eq!(ctrl.queue_len(), 2);
    ctrl.process_tick();
    assert_eq!(ctrl.queue_len(), 0);
}

#[test]
fn test_mixed_priority_ordering() {
    let mut ctrl = TensorFlowController::new(limits(256, 1_048_576, 205));
    ctrl.admit_item(make_item(1, FlowPriority::Low, 10, 0));
    ctrl.admit_item(make_item(2, FlowPriority::High, 10, 1));
    ctrl.admit_item(make_item(3, FlowPriority::Normal, 10, 2));
    ctrl.admit_item(make_item(4, FlowPriority::Critical, 10, 3));
    let processed = ctrl.process_tick();
    assert_eq!(processed[0].priority, FlowPriority::Critical);
    assert_eq!(processed[1].priority, FlowPriority::High);
    assert_eq!(processed[2].priority, FlowPriority::Normal);
    assert_eq!(processed[3].priority, FlowPriority::Low);
}

#[test]
fn test_draining_processes_existing_items() {
    let mut ctrl = default_controller();
    ctrl.admit_item(make_item(1, FlowPriority::Normal, 100, 0));
    ctrl.admit_item(make_item(2, FlowPriority::Normal, 100, 1));
    ctrl.drain();
    let processed = ctrl.process_tick();
    assert_eq!(processed.len(), 2);
    assert_eq!(ctrl.stats().total_processed, 2);
}

// ── further cases ────────────────────────────────────────────────────────────

#[test]
fn flow_stats_default_is_zero() {
    let s = FlowStats::default();
    assert_eq!(s.total_admitted, 0);
    assert_eq!(s.total_dropped, 0);
    assert_eq!(s.total_processed, 0);
    assert_eq!(s.total_bytes_processed, 0);
}

#[test]
fn oversized_front_item_blocks_the_tick() {
    // The front item does not fit: nothing behind it is taken either.
    let mut ctrl = TensorFlowController::new(limits(256, 150, 205));
    ctrl.admit_item(make_item(1, FlowPriority::High, 200, 0));
    ctrl.admit_item(make_item(2, FlowPriority::Low, 10, 1));
    let processed = ctrl.process_tick();
    assert!(processed.is_empty());
    assert_eq!(ctrl.queue_len(), 2);
    assert_eq!(ctrl.stats().total_processed, 0);
}

#[test]
fn items_exactly_filling_the_budget_are_taken() {
    let mut ctrl = TensorFlowController::new(limits(256, 250, 205));
    ctrl.admit_item(make_item(1, FlowPriority::Normal, 150, 0));
    ctrl.admit_item(make_item(2, FlowPriority::Normal, 100, 1));
    ctrl.admit_item(make_item(3, FlowPriority::Normal, 1, 2));
    let processed = ctrl.process_tick();
    assert_eq!(processed.len(), 2);
    assert_eq!(processed[0].item_id, 1);
    assert_eq!(processed[1].item_id, 2);
    assert_eq!(ctrl.stats().total_bytes_processed, 250);
}

#[test]
fn no_threshold_never_throttles() {
    let mut ctrl = TensorFlowController::new(FlowLimits {
        max_queue_size: 3,
        max_bytes_per_tick: 10,
        throttle_at: None,
    });
    for i in 0..3 {
        assert!(ctrl.admit_item(make_item(i, FlowPriority::Normal, 100, i)));
    }
    assert_eq!(ctrl.state(), FlowState::Running);
}

#[test]
fn tick_relieves_throttling() {
    let mut ctrl = TensorFlowController::new(limits(4, 1_048_576, 2));
    ctrl.admit_item(make_item(1, FlowPriority::Normal, 10, 0));
    ctrl.admit_item(make_item(2, FlowPriority::Normal, 10, 1));
    assert_eq!(ctrl.state(), FlowState::Throttled);
    ctrl.process_tick();
    assert_eq!(ctrl.state(), FlowState::Running);
}

#[test]
fn resume_outside_pause_changes_nothing() {
    let mut ctrl = default_controller();
    ctrl.drain();
    ctrl.resume();
    assert_eq!(ctrl.state(), FlowState::Draining);
}

#[test]
fn draining_with_leftover_follows_fill() {
    // A draining tick that leaves items behind returns to the fill state.
    let mut ctrl = TensorFlowController::new(limits(256, 100, 205));
    ctrl.admit_item(make_item(1, FlowPriority::Normal, 100, 0));
    ctrl.admit_item(make_item(2, FlowPriority::Normal, 100, 1));
    ctrl.drain();
    let processed = ctrl.process_tick();
    assert_eq!(processed.len(), 1);
    assert_eq!(ctrl.state(), FlowState::Running);
}

#[test]
fn equal_priority_and_tick_keeps_arrival_order() {
    let mut ctrl = default_controller();
    ctrl.admit_item(make_item(1, FlowPriority::Normal, 1, 4));
    ctrl.admit_item(make_item(2, FlowPriority::Normal, 1, 4));
    ctrl.admit_item(make_item(3, FlowPriority::Normal, 1, 4));
    let processed = ctrl.process_tick();
    let ids: Vec<u64> = processed.iter().map(|i| i.item_id).collect();
    assert_eq!(ids, vec![1, 2, 3]);
}
