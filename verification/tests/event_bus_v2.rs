use ipfrs_tensorlogic::event_bus_v2::{BusStats, EventFilter, TensorEvent, TensorEventBusV2};

// Helper: build a RuleFired event.
fn rule_fired(rule_id: u64, bindings_count: usize) -> TensorEvent {
    TensorEvent::RuleFired {
        rule_id,
        bindings_count,
    }
}

// Helper: build an InferenceComplete event.
fn inference_complete(session_id: u64, duration_ms: u64) -> TensorEvent {
    TensorEvent::InferenceComplete {
        session_id,
        duration_ms,
    }
}

// Helper: build a TensorUpdated event.
fn tensor_updated(tensor_id: u64, new_version: u64) -> TensorEvent {
    TensorEvent::TensorUpdated {
        tensor_id,
        new_version,
    }
}

// Helper: build a CheckpointSaved event.
fn checkpoint_saved(path: &str, size_bytes: u64) -> TensorEvent {
    TensorEvent::CheckpointSaved {
        path: path.to_string(),
        size_bytes,
    }
}

// Helper: build a GradientApplied event.
fn gradient_applied(step: u64, loss: f64) -> TensorEvent {
    TensorEvent::GradientApplied { step, loss_bits: loss.to_bits() }
}

// ── Test 1: subscribe returns a monotonically increasing sub_id ──────────

#[test]
fn subscribe_returns_unique_sub_ids() {
    let mut bus = TensorEventBusV2::new();
    let id1 = bus.subscribe(EventFilter::All, 10, 100);
    let id2 = bus.subscribe(EventFilter::All, 10, 100);
    let id3 = bus.subscribe(EventFilter::All, 10, 100);
    assert_ne!(id1, id2);
    assert_ne!(id2, id3);
    assert_ne!(id1, id3);
}

// ── Test 2: first sub_id is nonzero ──────────────────────────────────────

#[test]
fn subscribe_first_id_nonzero() {
    let mut bus = TensorEventBusV2::new();
    let id = bus.subscribe(EventFilter::All, 5, 100);
    assert!(id > 0, "sub_id must be nonzero");
}

// ── Test 3: publish routes to correct subscriber queue ───────────────────

#[test]
fn publish_routes_to_subscriber_queue() {
    let mut bus = TensorEventBusV2::new();
    let id = bus.subscribe(EventFilter::All, 10, 100);
    let event = rule_fired(42, 3);
    bus.publish(event.clone());
    let drained = bus.drain(id);
    assert_eq!(drained.len(), 1);
    assert_eq!(drained[0], event);
}

// ── Test 4: filter All vs RuleEventsOnly ─────────────────────────────────

#[test]
fn filter_all_receives_every_variant() {
    let mut bus = TensorEventBusV2::new();
    let id = bus.subscribe(EventFilter::All, 5, 100);
    bus.publish(rule_fired(1, 0));
    bus.publish(inference_complete(2, 50));
    bus.publish(tensor_updated(3, 7));
    bus.publish(checkpoint_saved("/tmp/ckpt", 1024));
    bus.publish(gradient_applied(10, 0.25));
    let drained = bus.drain(id);
    assert_eq!(drained.len(), 5);
}

// ── Test 5: RuleEventsOnly filter passes only RuleFired ──────────────────

#[test]
fn filter_rule_events_only() {
    let mut bus = TensorEventBusV2::new();
    let id = bus.subscribe(EventFilter::RuleEventsOnly, 5, 100);
    bus.publish(rule_fired(1, 2));
    bus.publish(inference_complete(2, 10));
    bus.publish(rule_fired(3, 5));
    let drained = bus.drain(id);
    assert_eq!(drained.len(), 2);
    for e in &drained {
        assert!(matches!(e, TensorEvent::RuleFired { .. }));
    }
}

// ── Test 6: InferenceEventsOnly filter ───────────────────────────────────

#[test]
fn filter_inference_events_only() {
    let mut bus = TensorEventBusV2::new();
    let id = bus.subscribe(EventFilter::InferenceEventsOnly, 5, 100);
    bus.publish(rule_fired(1, 0));
    bus.publish(inference_complete(7, 100));
    bus.publish(tensor_updated(3, 2));
    let drained = bus.drain(id);
    assert_eq!(drained.len(), 1);
    assert!(matches!(
        drained[0],
        TensorEvent::InferenceComplete { session_id: 7, .. }
    ));
}

// ── Test 7: TensorEventsOnly filter ──────────────────────────────────────

#[test]
fn filter_tensor_events_only() {
    let mut bus = TensorEventBusV2::new();
    let id = bus.subscribe(EventFilter::TensorEventsOnly, 5, 100);
    bus.publish(rule_fired(1, 0));
    bus.publish(tensor_updated(10, 5));
    bus.publish(gradient_applied(1, 0.1));
    let drained = bus.drain(id);
    assert_eq!(drained.len(), 1);
    assert!(matches!(
        drained[0],
        TensorEvent::TensorUpdated { tensor_id: 10, .. }
    ));
}

// ── Test 8: priority ordering ─────────────────────────────────────────────

#[test]
fn priority_ordering_high_to_low() {
    // Use a custom event to detect ordering side-effects via delivery counters.
    let mut bus = TensorEventBusV2::new();
    // Subscribe in low-first order; bus must still deliver high-priority first.
    let id_low = bus.subscribe(EventFilter::All, 1, 100);
    let id_high = bus.subscribe(EventFilter::All, 99, 100);

    bus.publish(rule_fired(1, 0));

    // Both should receive the event.
    assert_eq!(bus.drain(id_high).len(), 1);
    assert_eq!(bus.drain(id_low).len(), 1);

    // Verify internal ordering: highest priority subscription is first.
    assert!(bus.subscriptions[0].priority >= bus.subscriptions[1].priority);
}

// ── Test 9: queue full causes drops ──────────────────────────────────────

#[test]
fn queue_full_drops_excess_events() {
    let max = 3_usize;
    let mut bus = TensorEventBusV2::new();
    let id = bus.subscribe(EventFilter::All, 5, max);

    for i in 0..5_u64 {
        bus.publish(rule_fired(i, 0));
    }

    let sub = bus
        .subscriptions
        .iter()
        .find(|s| s.sub_id == id)
        .expect("test: should succeed");
    assert_eq!(sub.queue.len(), max);
    assert_eq!(sub.dropped, 2);
    assert_eq!(sub.delivered, max as u64);
}

// ── Test 10: drain clears the queue ──────────────────────────────────────

#[test]
fn drain_clears_queue() {
    let mut bus = TensorEventBusV2::new();
    let id = bus.subscribe(EventFilter::All, 5, 100);
    bus.publish(rule_fired(1, 0));
    bus.publish(rule_fired(2, 0));
    assert_eq!(bus.drain(id).len(), 2);
    // Second drain must be empty.
    assert!(bus.drain(id).is_empty());
}

// ── Test 11: unsubscribe removes subscription ─────────────────────────────

#[test]
fn unsubscribe_removes_subscription() {
    let mut bus = TensorEventBusV2::new();
    let id = bus.subscribe(EventFilter::All, 5, 100);
    assert!(bus.unsubscribe(id));
    // Removed, so second call must return false.
    assert!(!bus.unsubscribe(id));
    assert!(bus.subscriptions.is_empty());
}

// ── Test 12: unsubscribe non-existent id returns false ────────────────────

#[test]
fn unsubscribe_nonexistent_returns_false() {
    let mut bus = TensorEventBusV2::new();
    assert!(!bus.unsubscribe(999));
}

// ── Test 13: dead_letters when no subscribers ─────────────────────────────

#[test]
fn dead_letters_with_no_subscribers() {
    let mut bus = TensorEventBusV2::new();
    let event = rule_fired(1, 0);
    bus.publish(event.clone());
    assert_eq!(bus.dead_letters.len(), 1);
    assert_eq!(bus.dead_letters[0], event);
}

// ── Test 14: dead_letters when no filter matches ──────────────────────────

#[test]
fn dead_letters_when_no_filter_matches() {
    let mut bus = TensorEventBusV2::new();
    // Subscribe only to rule events.
    let _id = bus.subscribe(EventFilter::RuleEventsOnly, 5, 100);
    // Publish an inference event — no subscriber wants it.
    bus.publish(inference_complete(1, 50));
    assert_eq!(bus.dead_letters.len(), 1);
}



// ── Test 17: stats total_dropped accumulates across subscriptions ─────────

#[test]
fn stats_total_dropped_accumulates() {
    let mut bus = TensorEventBusV2::new();
    // Two subscriptions each with queue size 1.
    let _id1 = bus.subscribe(EventFilter::All, 5, 1);
    let _id2 = bus.subscribe(EventFilter::All, 5, 1);

    // Publish 3 events: first fills each queue (1 each), remaining 2 are dropped per sub.
    bus.publish(rule_fired(1, 0));
    bus.publish(rule_fired(2, 0));
    bus.publish(rule_fired(3, 0));

    // Each sub received 1, dropped 2 → total_dropped = 4.
    assert_eq!(bus.stats().total_dropped, 4);
}

// ── Test 18: multiple subscribers all receive matching event ──────────────

#[test]
fn multiple_subscribers_all_receive() {
    let mut bus = TensorEventBusV2::new();
    let id1 = bus.subscribe(EventFilter::All, 10, 100);
    let id2 = bus.subscribe(EventFilter::All, 5, 100);
    let id3 = bus.subscribe(EventFilter::All, 1, 100);

    bus.publish(tensor_updated(7, 3));

    assert_eq!(bus.drain(id1).len(), 1);
    assert_eq!(bus.drain(id2).len(), 1);
    assert_eq!(bus.drain(id3).len(), 1);
}

// ── Test 19: partial subscriber match (some filter, some don't) ───────────

#[test]
fn partial_subscriber_match() {
    let mut bus = TensorEventBusV2::new();
    let id_rule = bus.subscribe(EventFilter::RuleEventsOnly, 10, 100);
    let id_all = bus.subscribe(EventFilter::All, 5, 100);

    // Publish one event that only id_all matches.
    bus.publish(gradient_applied(1, 0.5));

    assert!(bus.drain(id_rule).is_empty());
    assert_eq!(bus.drain(id_all).len(), 1);
    // Should NOT be in dead_letters because id_all accepted it.
    assert!(bus.dead_letters.is_empty());
}

// ── Test 20: checkpoint saved event round-trips correctly ─────────────────

#[test]
fn checkpoint_saved_event_round_trip() {
    let mut bus = TensorEventBusV2::new();
    let id = bus.subscribe(EventFilter::All, 5, 100);
    let event = checkpoint_saved("/tmp/model.safetensors", 4096);
    bus.publish(event.clone());
    let drained = bus.drain(id);
    assert_eq!(drained.len(), 1);
    assert_eq!(drained[0], event);
}

// ── Test 21: gradient applied event round-trips correctly ─────────────────

#[test]
fn gradient_applied_event_round_trip() {
    let mut bus = TensorEventBusV2::new();
    let id = bus.subscribe(EventFilter::All, 5, 100);
    let event = gradient_applied(42, 0.001_f64);
    bus.publish(event.clone());
    let drained = bus.drain(id);
    assert_eq!(drained.len(), 1);
    if let TensorEvent::GradientApplied { step, loss_bits } = &drained[0] {
        assert_eq!(*step, 42);
        assert!((f64::from_bits(*loss_bits) - 0.001_f64).abs() < 1e-12);
    } else {
        panic!("unexpected event variant");
    }
}

// ── Test 22: stats total_published and total_delivered are consistent ──────

#[test]
fn stats_consistency() {
    let mut bus = TensorEventBusV2::new();
    let _id = bus.subscribe(EventFilter::All, 5, 100);
    for i in 0..10_u64 {
        bus.publish(rule_fired(i, 0));
    }
    let s = bus.stats();
    assert_eq!(s.total_published, 10);
    assert_eq!(s.total_delivered, 10);
    assert_eq!(s.total_dropped, 0);
}

// ── Test 23: drain on unknown sub_id returns empty vec ────────────────────

#[test]
fn drain_unknown_sub_id_returns_empty() {
    let mut bus = TensorEventBusV2::new();
    assert!(bus.drain(9999).is_empty());
}

// ── Test 24: default queue size used when max_queue_size is zero ──────────

#[test]
fn default_queue_size_applied_when_zero() {
    let mut bus = TensorEventBusV2::new();
    let id = bus.subscribe(EventFilter::All, 5, 0);
    let sub = bus
        .subscriptions
        .iter()
        .find(|s| s.sub_id == id)
        .expect("test: should succeed");
    assert_eq!(sub.max_queue_size, 100);
}

// ── further cases ───────────────────────────────────────────────────────────

#[test]
fn equal_priorities_keep_registration_order() {
    let mut bus = TensorEventBusV2::new();
    let a = bus.subscribe(EventFilter::All, 5, 10);
    let b = bus.subscribe(EventFilter::All, 7, 10);
    let c = bus.subscribe(EventFilter::All, 5, 10);
    let order: Vec<u64> = bus.subscriptions.iter().map(|s| s.sub_id).collect();
    assert_eq!(order, vec![b, a, c]);
    assert_eq!(bus.next_sub_id, 4);
}

#[test]
fn full_queue_still_keeps_event_out_of_dead_letters() {
    let mut bus = TensorEventBusV2::new();
    let id = bus.subscribe(EventFilter::RuleEventsOnly, 1, 1);
    bus.publish(rule_fired(1, 0));
    bus.publish(rule_fired(2, 0));
    assert!(bus.dead_letters.is_empty());
    assert_eq!(bus.stats().total_delivered, 1);
    assert_eq!(bus.stats().total_dropped, 1);
    assert_eq!(bus.drain(id), vec![rule_fired(1, 0)]);
}

#[test]
fn unsubscribe_keeps_other_subscriptions_in_order() {
    let mut bus = TensorEventBusV2::new();
    let a = bus.subscribe(EventFilter::All, 9, 10);
    let b = bus.subscribe(EventFilter::All, 5, 10);
    let c = bus.subscribe(EventFilter::All, 1, 10);
    assert!(bus.unsubscribe(b));
    let order: Vec<u64> = bus.subscriptions.iter().map(|s| s.sub_id).collect();
    assert_eq!(order, vec![a, c]);
}

#[test]
fn filters_match_their_variant_only() {
    assert!(EventFilter::All.matches(&checkpoint_saved("p", 1)));
    assert!(EventFilter::RuleEventsOnly.matches(&rule_fired(1, 1)));
    assert!(!EventFilter::RuleEventsOnly.matches(&tensor_updated(1, 1)));
    assert!(EventFilter::InferenceEventsOnly.matches(&inference_complete(1, 1)));
    assert!(!EventFilter::InferenceEventsOnly.matches(&gradient_applied(1, 0.5)));
    assert!(EventFilter::TensorEventsOnly.matches(&tensor_updated(1, 1)));
    assert!(!EventFilter::TensorEventsOnly.matches(&rule_fired(1, 1)));
}

#[test]
fn bus_stats_default_is_zero() {
    let s = BusStats::default();
    assert_eq!(s, BusStats { total_published: 0, total_delivered: 0, total_dropped: 0 });
    let bus = TensorEventBusV2::default();
    assert_eq!(bus.next_sub_id, 1);
    assert!(bus.subscriptions.is_empty());
}
