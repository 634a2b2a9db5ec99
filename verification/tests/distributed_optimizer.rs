use ipfrs_tensorlogic::distributed_optimizer::{
    AggregationStrategy, DistributedOptimizer, GradientUpdate, OptimizerDistError, WorkerId,
};

fn wid(s: &str) -> WorkerId {
    WorkerId::new(s)
}

fn make_update(worker: &str, layer: &str, grads: Vec<f64>, step: u64) -> GradientUpdate<f64> {
    GradientUpdate {
        worker_id: wid(worker),
        layer_id: layer.to_string(),
        gradients: grads,
        step,
        timestamp: step * 1000,
    }
}

// Element-wise mean of the gradients, over the widest update.
fn mean(updates: &Vec<GradientUpdate<f64>>) -> Vec<f64> {
    let len = updates.iter().map(|u| u.gradients.len()).max().unwrap_or(0);
    if updates.is_empty() || len == 0 {
        return Vec::new();
    }
    let n = updates.len() as f64;
    let mut sums = vec![0.0_f64; len];
    for u in updates {
        for (i, g) in u.gradients.iter().enumerate() {
            sums[i] += g;
        }
    }
    sums.iter().map(|s| s / n).collect()
}

fn sync_optimizer() -> DistributedOptimizer<f64> {
    DistributedOptimizer::new(AggregationStrategy::Synchronous)
}

fn async_optimizer(threshold: u64) -> DistributedOptimizer<f64> {
    DistributedOptimizer::new(AggregationStrategy::Asynchronous { staleness_threshold: threshold })
}

fn fedavg_optimizer(rounds: u32) -> DistributedOptimizer<f64> {
    DistributedOptimizer::new(AggregationStrategy::FederatedAverage { rounds })
}

fn gossip_optimizer(fanout: usize) -> DistributedOptimizer<f64> {
    DistributedOptimizer::new(AggregationStrategy::GossipAverage { fanout })
}

#[test]
fn worker_id_equality() {
    assert_eq!(wid("a"), wid("a"));
    assert_ne!(wid("a"), wid("b"));
}

#[test]
fn worker_id_display() {
    assert_eq!(wid("worker-1").to_string(), "worker-1");
}

#[test]
fn worker_id_ordering() {
    let mut ids = vec![wid("c"), wid("a"), wid("b")];
    ids.sort();
    assert_eq!(ids, vec![wid("a"), wid("b"), wid("c")]);
}

#[test]
fn error_worker_not_found_display() {
    let e = OptimizerDistError::WorkerNotFound("bob".to_string());
    assert!(e.to_string().contains("bob"));
}

#[test]
fn error_stale_update_display() {
    let e = OptimizerDistError::StaleUpdate {
        worker: "w1".to_string(),
        step: 0,
        current: 5,
    };
    assert!(e.to_string().contains("w1"));
    assert!(e.to_string().contains('5'));
}

#[test]
fn error_dimension_mismatch_display() {
    let e = OptimizerDistError::DimensionMismatch {
        layer: "conv1".to_string(),
        expected: 4,
        got: 3,
    };
    assert!(e.to_string().contains("conv1"));
    assert!(e.to_string().contains('4'));
    assert!(e.to_string().contains('3'));
}

#[test]
fn error_messages_exact() {
    assert_eq!(
        OptimizerDistError::WorkerNotFound("bob".to_string()).to_string(),
        "worker not found: bob"
    );
    assert_eq!(
        OptimizerDistError::StaleUpdate { worker: "w1".to_string(), step: 0, current: 125 }.to_string(),
        "stale update from worker w1: update step 0, current step 125"
    );
    assert_eq!(
        OptimizerDistError::DimensionMismatch { layer: "fc".to_string(), expected: 10, got: 7 }
            .to_string(),
        "dimension mismatch for layer fc: expected 10, got 7"
    );
}

#[test]
fn worker_id_from_owned_string() {
    let w = WorkerId::new(String::from("node-7"));
    assert_eq!(w.0, "node-7");
}

#[test]
fn register_new_worker_returns_true() {
    let mut opt = sync_optimizer();
    assert!(opt.register_worker(wid("w1")));
}

#[test]
fn register_duplicate_returns_false() {
    let mut opt = sync_optimizer();
    opt.register_worker(wid("w1"));
    assert!(!opt.register_worker(wid("w1")));
}

#[test]
fn worker_count_after_registration() {
    let mut opt = sync_optimizer();
    opt.register_worker(wid("w1"));
    opt.register_worker(wid("w2"));
    assert_eq!(opt.worker_count(), 2);
}

#[test]
fn active_worker_count_initial() {
    let mut opt = sync_optimizer();
    opt.register_worker(wid("w1"));
    opt.register_worker(wid("w2"));
    assert_eq!(opt.active_worker_count(), 2);
}

#[test]
fn deregister_known_worker() {
    let mut opt = sync_optimizer();
    opt.register_worker(wid("w1"));
    assert!(opt.deregister_worker(&wid("w1")));
    assert_eq!(opt.active_worker_count(), 0);
}

#[test]
fn deregister_unknown_worker_returns_false() {
    let mut opt = sync_optimizer();
    assert!(!opt.deregister_worker(&wid("ghost")));
}

#[test]
fn deregister_does_not_remove_worker_from_map() {
    let mut opt = sync_optimizer();
    opt.register_worker(wid("w1"));
    opt.deregister_worker(&wid("w1"));
    assert_eq!(opt.worker_count(), 1);
    assert_eq!(opt.active_worker_count(), 0);
}

#[test]
fn submit_unknown_worker_errors() {
    let mut opt = sync_optimizer();
    let upd = make_update("ghost", "layer0", vec![1.0], 0);
    assert!(matches!(opt.submit_update(upd, 0), Err(OptimizerDistError::WorkerNotFound(_))));
}

#[test]
fn submit_update_increments_pending() {
    let mut opt = sync_optimizer();
    opt.register_worker(wid("w1"));
    opt.submit_update(make_update("w1", "layer0", vec![1.0], 0), 1000).expect("should succeed");
    assert_eq!(opt.pending_updates_for("layer0"), 1);
}

#[test]
fn submit_update_tracks_worker_state() {
    let mut opt = sync_optimizer();
    opt.register_worker(wid("w1"));
    opt.submit_update(make_update("w1", "layer0", vec![0.5], 2), 5000).expect("ok");
    let active = opt.active_workers();
    let w = active.iter().find(|w| w.worker_id == wid("w1")).expect("found");
    assert_eq!(w.latest_step, 2);
    assert_eq!(w.last_seen, 5000);
    assert_eq!(w.total_updates, 1);
}

#[test]
fn submit_dimension_mismatch_errors() {
    let mut opt = async_optimizer(10);
    opt.register_worker(wid("w1"));
    opt.register_worker(wid("w2"));
    opt.submit_update(make_update("w1", "layer0", vec![1.0, 2.0], 0), 0).expect("ok");
    let err = opt.submit_update(make_update("w2", "layer0", vec![1.0], 0), 0).unwrap_err();
    assert!(matches!(err, OptimizerDistError::DimensionMismatch { .. }));
}

#[test]
fn async_accepts_fresh_update() {
    let mut opt = async_optimizer(2);
    opt.register_worker(wid("w1"));
    opt.advance_step();
    opt.advance_step();
    // step 0 is 2 steps behind — exactly at threshold
    let res = opt.submit_update(make_update("w1", "l0", vec![1.0], 0), 100);
    assert!(res.is_ok());
}

#[test]
fn async_rejects_stale_update() {
    let mut opt = async_optimizer(1);
    opt.register_worker(wid("w1"));
    opt.advance_step();
    opt.advance_step();
    let res = opt.submit_update(make_update("w1", "l0", vec![1.0], 0), 100);
    assert!(matches!(res, Err(OptimizerDistError::StaleUpdate { .. })));
}

#[test]
fn async_increments_dropped_on_stale() {
    let mut opt = async_optimizer(0);
    opt.register_worker(wid("w1"));
    opt.advance_step();
    opt.submit_update(make_update("w1", "l0", vec![1.0], 0), 0).ok();
    assert_eq!(opt.dropped_updates, 1);
}

#[test]
fn sync_no_aggregate_until_all_workers_submit() {
    let mut opt = sync_optimizer();
    opt.register_worker(wid("w1"));
    opt.register_worker(wid("w2"));
    opt.submit_update(make_update("w1", "l0", vec![1.0, 2.0], 0), 0).expect("ok");
    assert!(opt.try_aggregate("l0", mean).is_none());
}

#[test]
fn sync_aggregates_when_all_workers_submit() {
    let mut opt = sync_optimizer();
    opt.register_worker(wid("w1"));
    opt.register_worker(wid("w2"));
    opt.submit_update(make_update("w1", "l0", vec![1.0, 2.0], 0), 0).expect("ok");
    opt.submit_update(make_update("w2", "l0", vec![3.0, 4.0], 0), 0).expect("ok");
    let agg = opt.try_aggregate("l0", mean).expect("should aggregate");
    assert_eq!(agg.contributing_workers, 2);
    assert!((agg.values[0] - 2.0).abs() < 1e-10);
    assert!((agg.values[1] - 3.0).abs() < 1e-10);
}

#[test]
fn sync_clears_pending_on_advance_step() {
    let mut opt = sync_optimizer();
    opt.register_worker(wid("w1"));
    opt.submit_update(make_update("w1", "l0", vec![1.0], 0), 0).expect("ok");
    opt.advance_step();
    assert_eq!(opt.pending_updates_for("l0"), 0);
}

#[test]
fn sync_ignores_inactive_workers_for_quorum() {
    let mut opt = sync_optimizer();
    opt.register_worker(wid("w1"));
    opt.register_worker(wid("w2"));
    opt.deregister_worker(&wid("w2"));
    opt.submit_update(make_update("w1", "l0", vec![1.0], 0), 0).expect("ok");
    assert!(opt.try_aggregate("l0", mean).is_some());
}

#[test]
fn fedavg_no_aggregate_below_rounds() {
    let mut opt = fedavg_optimizer(3);
    for i in 0..3 {
        opt.register_worker(wid(&format!("w{i}")));
    }
    for i in 0..2usize {
        opt.submit_update(make_update(&format!("w{i}"), "l0", vec![1.0], 0), 0).expect("ok");
    }
    assert!(opt.try_aggregate("l0", mean).is_none());
}

#[test]
fn fedavg_aggregates_at_rounds() {
    let mut opt = fedavg_optimizer(2);
    opt.register_worker(wid("w0"));
    opt.register_worker(wid("w1"));
    opt.submit_update(make_update("w0", "l0", vec![2.0], 0), 0).expect("ok");
    opt.submit_update(make_update("w1", "l0", vec![4.0], 0), 0).expect("ok");
    let agg = opt.try_aggregate("l0", mean).expect("should aggregate");
    assert_eq!(agg.contributing_workers, 2);
    assert!((agg.values[0] - 3.0).abs() < 1e-10);
}

#[test]
fn fedavg_pending_cleared_after_aggregate() {
    let mut opt = fedavg_optimizer(1);
    opt.register_worker(wid("w0"));
    opt.submit_update(make_update("w0", "l0", vec![5.0], 0), 0).expect("ok");
    opt.try_aggregate("l0", mean);
    assert_eq!(opt.pending_updates_for("l0"), 0);
}

#[test]
fn gossip_no_aggregate_below_fanout() {
    let mut opt = gossip_optimizer(3);
    opt.register_worker(wid("w0"));
    opt.register_worker(wid("w1"));
    opt.submit_update(make_update("w0", "l0", vec![1.0], 0), 0).expect("ok");
    opt.submit_update(make_update("w1", "l0", vec![2.0], 0), 0).expect("ok");
    assert!(opt.try_aggregate("l0", mean).is_none());
}

#[test]
fn gossip_aggregates_at_fanout() {
    let mut opt = gossip_optimizer(2);
    opt.register_worker(wid("w0"));
    opt.register_worker(wid("w1"));
    opt.submit_update(make_update("w0", "l0", vec![0.0], 0), 0).expect("ok");
    opt.submit_update(make_update("w1", "l0", vec![2.0], 0), 0).expect("ok");
    let agg = opt.try_aggregate("l0", mean).expect("should aggregate");
    assert!((agg.values[0] - 1.0).abs() < 1e-10);
}

#[test]
fn advance_step_increments_counter() {
    let mut opt = sync_optimizer();
    assert_eq!(opt.current_step, 0);
    opt.advance_step();
    assert_eq!(opt.current_step, 1);
    opt.advance_step();
    assert_eq!(opt.current_step, 2);
}

#[test]
fn advance_step_async_preserves_pending() {
    let mut opt = async_optimizer(5);
    opt.register_worker(wid("w1"));
    opt.submit_update(make_update("w1", "l0", vec![1.0], 0), 0).expect("ok");
    opt.advance_step();
    assert_eq!(opt.pending_updates_for("l0"), 1);
}

#[test]
fn evict_stale_workers_marks_inactive() {
    let mut opt = sync_optimizer();
    opt.register_worker(wid("w1"));
    opt.submit_update(make_update("w1", "l0", vec![1.0], 0), 100).expect("ok");
    let evicted = opt.evict_stale_workers(500, 1000);
    assert_eq!(evicted, 1);
    assert_eq!(opt.active_worker_count(), 0);
}

#[test]
fn evict_fresh_worker_not_evicted() {
    let mut opt = sync_optimizer();
    opt.register_worker(wid("w1"));
    opt.submit_update(make_update("w1", "l0", vec![1.0], 0), 900).expect("ok");
    let evicted = opt.evict_stale_workers(500, 1000);
    assert_eq!(evicted, 0);
    assert_eq!(opt.active_worker_count(), 1);
}

#[test]
fn evict_already_inactive_worker_not_counted() {
    let mut opt = sync_optimizer();
    opt.register_worker(wid("w1"));
    opt.deregister_worker(&wid("w1"));
    let evicted = opt.evict_stale_workers(0, 1000);
    assert_eq!(evicted, 0);
}

#[test]
fn stats_initial_state() {
    let opt = sync_optimizer();
    let s = opt.stats();
    assert_eq!(s.total_workers, 0);
    assert_eq!(s.active_workers, 0);
    assert_eq!(s.current_step, 0);
    assert_eq!(s.total_aggregations, 0);
    assert_eq!(s.dropped_updates, 0);
    assert_eq!(s.pending_layers, 0);
}

#[test]
fn stats_total_aggregations_increments() {
    let mut opt = fedavg_optimizer(1);
    opt.register_worker(wid("w0"));
    opt.submit_update(make_update("w0", "l0", vec![1.0], 0), 0).expect("ok");
    opt.try_aggregate("l0", mean);
    assert_eq!(opt.stats().total_aggregations, 1);
}

#[test]
fn stats_pending_layers_counts_unique_layers() {
    let mut opt = fedavg_optimizer(99);
    opt.register_worker(wid("w0"));
    opt.submit_update(make_update("w0", "l0", vec![1.0], 0), 0).expect("ok");
    opt.submit_update(make_update("w0", "l1", vec![2.0], 0), 0).expect("ok");
    assert_eq!(opt.stats().pending_layers, 2);
}

#[test]
fn last_aggregated_none_before_aggregation() {
    let opt = sync_optimizer();
    assert!(opt.last_aggregated("l0").is_none());
}

#[test]
fn last_aggregated_returns_result_after_aggregation() {
    let mut opt = fedavg_optimizer(1);
    opt.register_worker(wid("w0"));
    opt.submit_update(make_update("w0", "l0", vec![7.0], 0), 0).expect("ok");
    opt.try_aggregate("l0", mean);
    let agg = opt.last_aggregated("l0").expect("exists");
    assert!((agg.values[0] - 7.0).abs() < 1e-10);
}

#[test]
fn different_layers_aggregated_independently() {
    let mut opt = fedavg_optimizer(1);
    opt.register_worker(wid("w0"));
    opt.submit_update(make_update("w0", "l0", vec![1.0], 0), 0).expect("ok");
    opt.submit_update(make_update("w0", "l1", vec![2.0], 0), 0).expect("ok");
    let agg0 = opt.try_aggregate("l0", mean).expect("l0 aggregated");
    let agg1 = opt.try_aggregate("l1", mean).expect("l1 aggregated");
    assert!((agg0.values[0] - 1.0).abs() < 1e-10);
    assert!((agg1.values[0] - 2.0).abs() < 1e-10);
}

#[test]
fn active_workers_returns_only_active() {
    let mut opt = sync_optimizer();
    opt.register_worker(wid("w1"));
    opt.register_worker(wid("w2"));
    opt.deregister_worker(&wid("w1"));
    let active = opt.active_workers();
    assert_eq!(active.len(), 1);
    assert_eq!(active[0].worker_id, wid("w2"));
}

#[test]
fn async_aggregate_produces_mean() {
    let mut opt = async_optimizer(10);
    opt.register_worker(wid("w1"));
    opt.register_worker(wid("w2"));
    opt.submit_update(make_update("w1", "l0", vec![0.0, 2.0], 0), 0).expect("ok");
    opt.submit_update(make_update("w2", "l0", vec![4.0, 6.0], 0), 0).expect("ok");
    let agg = opt.try_aggregate("l0", mean).expect("aggregated");
    assert!((agg.values[0] - 2.0).abs() < 1e-10);
    assert!((agg.values[1] - 4.0).abs() < 1e-10);
}

#[test]
fn sync_with_no_active_workers_never_aggregates() {
    let mut opt = sync_optimizer();
    opt.register_worker(wid("w1"));
    opt.deregister_worker(&wid("w1"));
    opt.submit_update(make_update("w1", "l0", vec![1.0], 0), 0).expect("ok");
    assert!(opt.try_aggregate("l0", mean).is_none());
}

#[test]
fn multiple_advance_steps() {
    let mut opt = sync_optimizer();
    for _ in 0..10 {
        opt.advance_step();
    }
    assert_eq!(opt.current_step, 10);
}

#[test]
fn aggregated_step_matches_current_step() {
    let mut opt = fedavg_optimizer(1);
    opt.register_worker(wid("w0"));
    opt.advance_step();
    opt.advance_step();
    opt.submit_update(make_update("w0", "l0", vec![1.0], 2), 200).expect("ok");
    let agg = opt.try_aggregate("l0", mean).expect("aggregated");
    assert_eq!(agg.step, 2);
}

#[test]
fn cannot_re_register_after_deregister() {
    let mut opt = sync_optimizer();
    opt.register_worker(wid("w1"));
    opt.deregister_worker(&wid("w1"));
    assert!(!opt.register_worker(wid("w1")));
}

#[test]
fn gossip_aggregates_all_pending_above_fanout() {
    let mut opt = gossip_optimizer(2);
    opt.register_worker(wid("w0"));
    opt.register_worker(wid("w1"));
    opt.register_worker(wid("w2"));
    for i in 0..3usize {
        opt.submit_update(make_update(&format!("w{i}"), "l0", vec![3.0], 0), 0).expect("ok");
    }
    let agg = opt.try_aggregate("l0", mean).expect("aggregated");
    assert_eq!(agg.contributing_workers, 3);
}

#[test]
fn fedavg_total_aggregations_increments_across_rounds() {
    let mut opt = fedavg_optimizer(1);
    opt.register_worker(wid("w0"));
    for step in 0..5u64 {
        opt.submit_update(make_update("w0", "l0", vec![1.0], step), 0).expect("ok");
        opt.try_aggregate("l0", mean);
    }
    assert_eq!(opt.stats().total_aggregations, 5);
}

#[test]
fn evict_multiple_stale_workers() {
    let mut opt = sync_optimizer();
    for i in 0..4usize {
        opt.register_worker(wid(&format!("w{i}")));
        let ts = if i < 2 { 10 } else { 800 };
        opt.submit_update(make_update(&format!("w{i}"), "l0", vec![1.0], 0), ts).expect("ok");
    }
    let evicted = opt.evict_stale_workers(500, 1000);
    assert_eq!(evicted, 2);
    assert_eq!(opt.active_worker_count(), 2);
}

// ── further cases ────────────────────────────────────────────────────────────

#[test]
fn stale_error_carries_the_steps() {
    let mut opt = async_optimizer(1);
    opt.register_worker(wid("w1"));
    for _ in 0..5 {
        opt.advance_step();
    }
    let err = opt.submit_update(make_update("w1", "l0", vec![1.0], 2), 0).unwrap_err();
    assert_eq!(
        err,
        OptimizerDistError::StaleUpdate { worker: "w1".to_string(), step: 2, current: 5 }
    );
    assert_eq!(opt.pending_updates_for("l0"), 0);
}

#[test]
fn future_step_is_never_stale() {
    let mut opt = async_optimizer(0);
    opt.register_worker(wid("w1"));
    assert!(opt.submit_update(make_update("w1", "l0", vec![1.0], 9), 0).is_ok());
}

#[test]
fn mismatch_error_names_layer_and_widths() {
    let mut opt = gossip_optimizer(5);
    opt.register_worker(wid("w1"));
    opt.submit_update(make_update("w1", "fc", vec![1.0, 2.0, 3.0], 0), 0).expect("ok");
    let err = opt.submit_update(make_update("w1", "fc", vec![1.0], 0), 0).unwrap_err();
    assert_eq!(
        err,
        OptimizerDistError::DimensionMismatch { layer: "fc".to_string(), expected: 3, got: 1 }
    );
    assert_eq!(opt.pending_updates_for("fc"), 1);
}

#[test]
fn latest_step_never_goes_back() {
    let mut opt = gossip_optimizer(9);
    opt.register_worker(wid("w1"));
    opt.submit_update(make_update("w1", "a", vec![1.0], 7), 10).expect("ok");
    opt.submit_update(make_update("w1", "b", vec![1.0], 3), 20).expect("ok");
    let w = &opt.active_workers()[0];
    assert_eq!(w.latest_step, 7);
    assert_eq!(w.last_seen, 20);
    assert_eq!(w.total_updates, 2);
}

#[test]
fn sync_needs_updates_at_the_current_step() {
    let mut opt = sync_optimizer();
    opt.register_worker(wid("w1"));
    opt.submit_update(make_update("w1", "l0", vec![1.0], 3), 0).expect("ok");
    // The update is for step 3, the optimizer is at step 0.
    assert!(opt.try_aggregate("l0", mean).is_none());
    assert_eq!(opt.pending_updates_for("l0"), 1);
}

#[test]
fn reaggregation_replaces_the_last_aggregate() {
    let mut opt = fedavg_optimizer(1);
    opt.register_worker(wid("w0"));
    opt.submit_update(make_update("w0", "l0", vec![1.0], 0), 0).expect("ok");
    opt.try_aggregate("l0", mean);
    opt.submit_update(make_update("w0", "l0", vec![5.0], 0), 0).expect("ok");
    opt.try_aggregate("l0", mean);
    let agg = opt.last_aggregated("l0").expect("exists");
    assert_eq!(agg.values, vec![5.0]);
    assert_eq!(agg.contributing_workers, 1);
}

#[test]
fn aggregating_unknown_layer_gives_nothing() {
    let mut opt = gossip_optimizer(0);
    assert!(opt.try_aggregate("nothing", mean).is_none());
    assert_eq!(opt.stats().total_aggregations, 0);
}
