use ipfrs_tensorlogic::execution_tracer::{TensorExecutionTracer, TraceEventKind, TracerConfig};

// ── helpers ──────────────────────────────────────────────────────────────

fn default_tracer() -> TensorExecutionTracer {
    TensorExecutionTracer::new(TracerConfig::default())
}

fn rule_start(rule_id: u64) -> TraceEventKind {
    TraceEventKind::RuleEvalStart { rule_id }
}

fn rule_end(rule_id: u64, matched: bool) -> TraceEventKind {
    TraceEventKind::RuleEvalEnd { rule_id, matched }
}

fn fact_lookup(predicate: &str, found: bool) -> TraceEventKind {
    TraceEventKind::FactLookup {
        predicate: predicate.to_string(),
        found,
    }
}

fn tensor_read(tensor_id: u64, size_bytes: u64) -> TraceEventKind {
    TraceEventKind::TensorRead {
        tensor_id,
        size_bytes,
    }
}

fn tensor_write(tensor_id: u64, size_bytes: u64) -> TraceEventKind {
    TraceEventKind::TensorWrite {
        tensor_id,
        size_bytes,
    }
}

fn inf_start(goal: &str) -> TraceEventKind {
    TraceEventKind::InferenceStart {
        goal: goal.to_string(),
    }
}

fn inf_end(goal: &str, success: bool) -> TraceEventKind {
    TraceEventKind::InferenceEnd {
        goal: goal.to_string(),
        success,
    }
}

// ── 1. new() starts empty ────────────────────────────────────────────────

#[test]
fn test_new_starts_empty() {
    let tracer = default_tracer();
    assert!(tracer.events.is_empty());
    assert_eq!(tracer.next_event_id, 0);
}

// ── 2. record adds event ─────────────────────────────────────────────────

#[test]
fn test_record_adds_event() {
    let mut tracer = default_tracer();
    tracer.record(1, 0, rule_start(42));
    assert_eq!(tracer.events.len(), 1);
    assert_eq!(tracer.events[0].session_id, 1);
    assert_eq!(tracer.events[0].tick, 0);
    assert_eq!(tracer.events[0].kind, rule_start(42));
}

// ── 3. record is no-op when disabled ────────────────────────────────────

#[test]
fn test_record_noop_when_disabled() {
    let mut tracer = TensorExecutionTracer::new(TracerConfig {
        max_events: 100,
        enabled: false,
    });
    tracer.record(1, 0, rule_start(1));
    tracer.record(1, 1, rule_end(1, true));
    assert!(tracer.events.is_empty());
    assert_eq!(tracer.next_event_id, 0);
}

// ── 4. record evicts oldest at max_events ────────────────────────────────

#[test]
fn test_record_evicts_oldest_at_max_events() {
    let mut tracer = TensorExecutionTracer::new(TracerConfig {
        max_events: 3,
        enabled: true,
    });
    tracer.record(1, 0, rule_start(1));
    tracer.record(1, 1, rule_start(2));
    tracer.record(1, 2, rule_start(3));
    // Buffer is full; next record evicts event_id=0
    tracer.record(1, 3, rule_start(4));
    assert_eq!(tracer.events.len(), 3);
    assert_eq!(tracer.events[0].event_id, 1); // oldest now
    assert_eq!(tracer.events[2].event_id, 3); // newest
}

// ── 5. record increments next_event_id ──────────────────────────────────

#[test]
fn test_record_increments_event_id() {
    let mut tracer = default_tracer();
    tracer.record(1, 0, rule_start(1));
    tracer.record(1, 1, rule_start(2));
    assert_eq!(tracer.next_event_id, 2);
    assert_eq!(tracer.events[0].event_id, 0);
    assert_eq!(tracer.events[1].event_id, 1);
}

// ── 6. events_for_session returns correct events in order ────────────────

#[test]
fn test_events_for_session_order() {
    let mut tracer = default_tracer();
    tracer.record(1, 0, rule_start(1));
    tracer.record(2, 1, rule_start(99));
    tracer.record(1, 2, rule_end(1, true));
    let events = tracer.events_for_session(1);
    assert_eq!(events.len(), 2);
    assert_eq!(events[0].tick, 0);
    assert_eq!(events[1].tick, 2);
}

// ── 7. events_for_session empty for unknown session ──────────────────────

#[test]
fn test_events_for_session_unknown() {
    let mut tracer = default_tracer();
    tracer.record(1, 0, rule_start(1));
    assert!(tracer.events_for_session(999).is_empty());
}

// ── 8. summarize_session event_count ────────────────────────────────────

#[test]
fn test_summarize_event_count() {
    let mut tracer = default_tracer();
    tracer.record(1, 0, rule_start(1));
    tracer.record(1, 1, rule_end(1, false));
    tracer.record(1, 2, fact_lookup("parent", true));
    tracer.record(2, 3, rule_start(2)); // different session
    let summary = tracer.summarize_session(1);
    assert_eq!(summary.event_count, 3);
}

// ── 9. summarize_session rule_evaluations count ──────────────────────────

#[test]
fn test_summarize_rule_evaluations() {
    let mut tracer = default_tracer();
    tracer.record(1, 0, rule_start(1));
    tracer.record(1, 1, rule_start(2));
    tracer.record(1, 2, rule_end(1, true));
    let summary = tracer.summarize_session(1);
    assert_eq!(summary.rule_evaluations, 2);
}

// ── 10. summarize_session successful_rules count ─────────────────────────

#[test]
fn test_summarize_successful_rules() {
    let mut tracer = default_tracer();
    tracer.record(1, 0, rule_end(1, true));
    tracer.record(1, 1, rule_end(2, false));
    tracer.record(1, 2, rule_end(3, true));
    let summary = tracer.summarize_session(1);
    assert_eq!(summary.successful_rules, 2);
}

// ── 11. summarize_session tensor_reads bytes ─────────────────────────────

#[test]
fn test_summarize_tensor_reads() {
    let mut tracer = default_tracer();
    tracer.record(1, 0, tensor_read(10, 1024));
    tracer.record(1, 1, tensor_read(11, 2048));
    let summary = tracer.summarize_session(1);
    assert_eq!(summary.tensor_reads, 3072);
}

// ── 12. summarize_session tensor_writes bytes ────────────────────────────

#[test]
fn test_summarize_tensor_writes() {
    let mut tracer = default_tracer();
    tracer.record(1, 0, tensor_write(10, 512));
    tracer.record(1, 1, tensor_write(11, 256));
    let summary = tracer.summarize_session(1);
    assert_eq!(summary.tensor_writes, 768);
}



// ── 15. clear_session removes events ────────────────────────────────────

#[test]
fn test_clear_session() {
    let mut tracer = default_tracer();
    tracer.record(1, 0, rule_start(1));
    tracer.record(2, 1, rule_start(2));
    tracer.record(1, 2, rule_end(1, true));
    tracer.clear_session(1);
    assert_eq!(tracer.events.len(), 1);
    assert_eq!(tracer.events[0].session_id, 2);
}

// ── 16. all_sessions unique sorted ids ──────────────────────────────────

#[test]
fn test_all_sessions_unique_sorted() {
    let mut tracer = default_tracer();
    tracer.record(3, 0, rule_start(1));
    tracer.record(1, 1, rule_start(2));
    tracer.record(3, 2, rule_end(1, false));
    tracer.record(2, 3, fact_lookup("foo", true));
    let sessions = tracer.all_sessions();
    assert_eq!(sessions, vec![1, 2, 3]);
}

// ── 17. stats total_events correct ──────────────────────────────────────

#[test]
fn test_stats_total_events() {
    let mut tracer = default_tracer();
    tracer.record(1, 0, rule_start(1));
    tracer.record(2, 1, rule_start(2));
    assert_eq!(tracer.stats().total_events, 2);
}

// ── 18. stats total_sessions correct ────────────────────────────────────

#[test]
fn test_stats_total_sessions() {
    let mut tracer = default_tracer();
    tracer.record(1, 0, rule_start(1));
    tracer.record(2, 1, rule_start(2));
    tracer.record(1, 2, rule_end(1, true));
    assert_eq!(tracer.stats().total_sessions, 2);
}

// ── 19. stats dropped_events increments on eviction ─────────────────────

#[test]
fn test_stats_dropped_events() {
    let mut tracer = TensorExecutionTracer::new(TracerConfig {
        max_events: 2,
        enabled: true,
    });
    tracer.record(1, 0, rule_start(1));
    tracer.record(1, 1, rule_start(2));
    assert_eq!(tracer.stats().dropped_events, 0);
    tracer.record(1, 2, rule_start(3)); // evicts first
    assert_eq!(tracer.stats().dropped_events, 1);
    tracer.record(1, 3, rule_start(4)); // evicts second
    assert_eq!(tracer.stats().dropped_events, 2);
}

// ── 20. multiple sessions interleaved ────────────────────────────────────

#[test]
fn test_multiple_sessions_interleaved() {
    let mut tracer = default_tracer();
    tracer.record(1, 0, inf_start("goal_a"));
    tracer.record(2, 1, inf_start("goal_b"));
    tracer.record(1, 2, tensor_read(5, 256));
    tracer.record(2, 3, tensor_write(6, 512));
    tracer.record(1, 4, inf_end("goal_a", true));
    tracer.record(2, 5, inf_end("goal_b", false));

    let s1 = tracer.summarize_session(1);
    assert_eq!(s1.event_count, 3);
    assert_eq!(s1.tensor_reads, 256);

    let s2 = tracer.summarize_session(2);
    assert_eq!(s2.event_count, 3);
    assert_eq!(s2.tensor_writes, 512);
}

// ── 21. FactLookup events counted in event_count ─────────────────────────

#[test]
fn test_fact_lookup_in_event_count() {
    let mut tracer = default_tracer();
    tracer.record(1, 0, fact_lookup("edge", true));
    tracer.record(1, 1, fact_lookup("edge", false));
    tracer.record(1, 2, fact_lookup("node", true));
    let summary = tracer.summarize_session(1);
    assert_eq!(summary.event_count, 3);
    // FactLookup events do not affect rule or tensor counters
    assert_eq!(summary.rule_evaluations, 0);
    assert_eq!(summary.tensor_reads, 0);
    assert_eq!(summary.tensor_writes, 0);
}

// ── 22. TracerConfig enabled=false suppresses all ────────────────────────

#[test]
fn test_config_disabled_suppresses_all_variants() {
    let mut tracer = TensorExecutionTracer::new(TracerConfig {
        max_events: 1000,
        enabled: false,
    });
    tracer.record(1, 0, rule_start(1));
    tracer.record(1, 1, rule_end(1, true));
    tracer.record(1, 2, fact_lookup("p", false));
    tracer.record(1, 3, tensor_read(7, 128));
    tracer.record(1, 4, tensor_write(8, 64));
    tracer.record(1, 5, inf_start("g"));
    tracer.record(1, 6, inf_end("g", true));
    assert!(tracer.events.is_empty());
    assert_eq!(tracer.next_event_id, 0);
    let stats = tracer.stats();
    assert_eq!(stats.total_events, 0);
    assert_eq!(stats.dropped_events, 0);
}

// ── bonus: summarize returns zero-valued struct for unknown session ───────

#[test]
fn test_summarize_unknown_session_zeros() {
    let tracer = default_tracer();
    let summary = tracer.summarize_session(42);
    assert_eq!(summary.event_count, 0);
    assert_eq!(summary.rule_evaluations, 0);
    assert_eq!(summary.successful_rules, 0);
    assert_eq!(summary.tensor_reads, 0);
    assert_eq!(summary.tensor_writes, 0);
}

// ── bonus: all_sessions returns empty when no events ─────────────────────

#[test]
fn test_all_sessions_empty() {
    let tracer = default_tracer();
    assert!(tracer.all_sessions().is_empty());
}

// ── bonus: event_id is stable across sessions ─────────────────────────────

#[test]
fn test_event_ids_across_sessions() {
    let mut tracer = default_tracer();
    tracer.record(10, 0, rule_start(1));
    tracer.record(20, 1, rule_start(2));
    tracer.record(10, 2, rule_end(1, true));
    assert_eq!(tracer.events[0].event_id, 0);
    assert_eq!(tracer.events[1].event_id, 1);
    assert_eq!(tracer.events[2].event_id, 2);
}

// ── bonus: clear_session then re-record works ─────────────────────────────

#[test]
fn test_clear_then_rerecord() {
    let mut tracer = default_tracer();
    tracer.record(1, 0, rule_start(1));
    tracer.clear_session(1);
    assert!(tracer.events.is_empty());
    tracer.record(1, 1, rule_start(2));
    assert_eq!(tracer.events.len(), 1);
    assert_eq!(tracer.summarize_session(1).event_count, 1);
}

// ── further cases ────────────────────────────────────────────────────────────

#[test]
fn test_default_config_values() {
    let config = TracerConfig::default();
    assert_eq!(config.max_events, 10_000);
    assert!(config.enabled);
}

#[test]
fn test_eviction_keeps_newest_in_order() {
    let mut tracer = TensorExecutionTracer::new(TracerConfig {
        max_events: 2,
        enabled: true,
    });
    tracer.record(7, 10, rule_start(1));
    tracer.record(8, 11, tensor_read(1, 64));
    tracer.record(7, 12, rule_end(1, true));
    assert_eq!(tracer.events.len(), 2);
    assert_eq!(tracer.events[0].tick, 11);
    assert_eq!(tracer.events[1].tick, 12);
    assert_eq!(tracer.events[1].event_id, 2);
    assert_eq!(tracer.next_event_id, 3);
    assert_eq!(tracer.stats().dropped_events, 1);
    assert_eq!(tracer.all_sessions(), vec![7, 8]);
}

#[test]
fn test_clear_session_keeps_other_sessions_intact() {
    let mut tracer = default_tracer();
    tracer.record(1, 0, tensor_read(1, 100));
    tracer.record(2, 1, tensor_write(2, 200));
    tracer.record(1, 2, rule_start(3));
    tracer.record(3, 3, rule_end(3, true));
    tracer.record(2, 4, rule_start(4));
    let before2: Vec<u64> = tracer.events_for_session(2).iter().map(|e| e.event_id).collect();
    tracer.clear_session(1);
    assert!(tracer.events_for_session(1).is_empty());
    let after2: Vec<u64> = tracer.events_for_session(2).iter().map(|e| e.event_id).collect();
    assert_eq!(before2, after2);
    assert_eq!(after2, vec![1, 4]);
    assert_eq!(tracer.all_sessions(), vec![2, 3]);
    assert_eq!(tracer.next_event_id, 5);
}

#[test]
fn test_summary_matches_session_events() {
    let mut tracer = default_tracer();
    tracer.record(5, 0, rule_start(1));
    tracer.record(5, 1, rule_end(1, true));
    tracer.record(6, 2, tensor_read(9, 4096));
    tracer.record(5, 3, tensor_read(9, 10));
    tracer.record(5, 4, tensor_write(9, 20));
    tracer.record(5, 5, inf_end("g", false));
    let summary = tracer.summarize_session(5);
    assert_eq!(summary.session_id, 5);
    assert_eq!(summary.event_count, tracer.events_for_session(5).len());
    assert_eq!(summary.event_count, 5);
    assert_eq!(summary.rule_evaluations, 1);
    assert_eq!(summary.successful_rules, 1);
    assert_eq!(summary.tensor_reads, 10);
    assert_eq!(summary.tensor_writes, 20);
}

#[test]
fn test_clear_unknown_session_is_noop() {
    let mut tracer = default_tracer();
    tracer.record(1, 0, rule_start(1));
    tracer.record(2, 1, rule_start(2));
    tracer.clear_session(9);
    assert_eq!(tracer.events.len(), 2);
    assert_eq!(tracer.stats().total_sessions, 2);
}
