//! TensorExecutionTracer — records execution traces of TensorLogic inference
//! operations for debugging, profiling and replay.
//!
//! The tracer keeps a capped buffer of [`TraceEvent`]s, oldest first. When the
//! buffer is full the oldest event is evicted and counted as dropped. Every
//! query is stated over the buffer's contents: the events of a session are
//! `events@.filter(in_session(id))`, and a summary tallies those events.

use vstd::prelude::*;

verus! {

broadcast use vstd::seq_lib::group_filter_ensures;

/// Kinds of events that can be recorded in an execution trace.
#[derive(Clone, Debug, PartialEq)]
pub enum TraceEventKind {
    /// A rule evaluation has started.
    RuleEvalStart { rule_id: u64 },
    /// A rule evaluation has finished.
    RuleEvalEnd { rule_id: u64, matched: bool },
    /// A fact lookup was performed.
    FactLookup { predicate: String, found: bool },
    /// A tensor was read from storage.
    TensorRead { tensor_id: u64, size_bytes: u64 },
    /// A tensor was written to storage.
    TensorWrite { tensor_id: u64, size_bytes: u64 },
    /// An inference goal evaluation has started.
    InferenceStart { goal: String },
    /// An inference goal evaluation has finished.
    InferenceEnd { goal: String, success: bool },
}

/// A single recorded event in the execution trace.
#[derive(Clone, Debug, PartialEq)]
pub struct TraceEvent {
    /// Identifier of this event; identifiers increase with each recorded event.
    pub event_id: u64,
    /// Logical clock tick at which the event was recorded.
    pub tick: u64,
    /// The kind (payload) of the event.
    pub kind: TraceEventKind,
    /// The session that produced this event.
    pub session_id: u64,
}

/// Aggregated summary statistics for a single session.
#[derive(Clone, Debug, PartialEq)]
pub struct TraceSummary {
    /// The session being summarised.
    pub session_id: u64,
    /// Total number of events in this session.
    pub event_count: usize,
    /// Number of `RuleEvalStart` events.
    pub rule_evaluations: usize,
    /// Number of `RuleEvalEnd` events where `matched == true`.
    pub successful_rules: usize,
    /// Total bytes read across all `TensorRead` events.
    pub tensor_reads: u64,
    /// Total bytes written across all `TensorWrite` events.
    pub tensor_writes: u64,
}

/// Configuration for [`TensorExecutionTracer`].
#[derive(Clone, Debug, PartialEq)]
pub struct TracerConfig {
    /// Maximum number of events retained; the oldest event is evicted when
    /// this limit is reached.
    pub max_events: usize,
    /// When `false` all `record` calls are no-ops.
    pub enabled: bool,
}

impl Default for TracerConfig {
    fn default() -> (c: Self)
        ensures
            c.max_events == 10_000,
            c.enabled,
    {
        TracerConfig { max_events: 10_000, enabled: true }
    }
}

/// Whole-tracer statistics (across all sessions).
#[derive(Clone, Debug, PartialEq)]
pub struct TracerStats {
    /// Total number of events currently held.
    pub total_events: usize,
    /// Number of distinct session identifiers present.
    pub total_sessions: usize,
    /// Number of events that were evicted due to the `max_events` cap.
    pub dropped_events: u64,
}

// ─── The model of a trace ─────────────────────────────────────────────────────

/// Whether an event belongs to session `session_id`.
pub open spec fn in_session(session_id: u64) -> spec_fn(TraceEvent) -> bool {
    |e: TraceEvent| e.session_id == session_id
}

/// Whether an event belongs to another session than `session_id`.
pub open spec fn outside_session(session_id: u64) -> spec_fn(TraceEvent) -> bool {
    |e: TraceEvent| e.session_id != session_id
}

/// What a summary counts of an event.
pub enum Measure {
    RuleStarts,
    Matches,
    ReadBytes,
    WriteBytes,
}

/// The contribution of one event to a measure.
pub open spec fn weight(m: Measure, e: TraceEvent) -> nat {
    match m {
        Measure::RuleStarts => if e.kind is RuleEvalStart {
            1
        } else {
            0
        },
        Measure::Matches => match e.kind {
            TraceEventKind::RuleEvalEnd { matched, .. } => if matched {
                1
            } else {
                0
            },
            _ => 0,
        },
        Measure::ReadBytes => match e.kind {
            TraceEventKind::TensorRead { size_bytes, .. } => size_bytes as nat,
            _ => 0,
        },
        Measure::WriteBytes => match e.kind {
            TraceEventKind::TensorWrite { size_bytes, .. } => size_bytes as nat,
            _ => 0,
        },
    }
}

/// The total of a measure over a sequence of events.
pub open spec fn tally(s: Seq<TraceEvent>, m: Measure) -> nat
    decreases s.len(),
{
    if s.len() == 0 {
        0
    } else {
        tally(s.drop_last(), m) + weight(m, s.last())
    }
}

/// The summary of the events `s` of session `session_id`.
pub open spec fn summary_of(s: Seq<TraceEvent>, session_id: u64) -> TraceSummary {
    TraceSummary {
        session_id,
        event_count: s.len() as usize,
        rule_evaluations: tally(s, Measure::RuleStarts) as usize,
        successful_rules: tally(s, Measure::Matches) as usize,
        tensor_reads: tally(s, Measure::ReadBytes) as u64,
        tensor_writes: tally(s, Measure::WriteBytes) as u64,
    }
}

/// Event identifiers increase along the buffer and stay below `next`.
pub open spec fn ids_increasing(s: Seq<TraceEvent>, next: u64) -> bool {
    &&& forall|a: int, b: int| 0 <= a < b < s.len() ==> s[a].event_id < s[b].event_id
    &&& forall|a: int| 0 <= a < s.len() ==> s[a].event_id < next
}

/// Some event of `s` belongs to session `x`.
pub open spec fn has_session(s: Seq<TraceEvent>, x: u64) -> bool {
    exists|j: int| 0 <= j < s.len() && (#[trigger] s[j]).session_id == x
}

/// `ids` lists the session identifiers of `s` in strictly increasing order.
pub open spec fn lists_sessions(s: Seq<TraceEvent>, ids: Seq<u64>) -> bool {
    &&& forall|a: int, b: int| 0 <= a < b < ids.len() ==> ids[a] < ids[b]
    &&& forall|k: int| 0 <= k < ids.len() ==> has_session(s, #[trigger] ids[k])
    &&& forall|j: int| 0 <= j < s.len() ==> ids.contains(#[trigger] s[j].session_id)
}

/// The set of session identifiers present in `s`.
pub open spec fn session_set(s: Seq<TraceEvent>) -> Set<u64> {
    Set::new(|x: u64| has_session(s, x))
}

proof fn lemma_tally_push(s: Seq<TraceEvent>, e: TraceEvent, m: Measure)
    ensures
        tally(s.push(e), m) == tally(s, m) + weight(m, e),
{
    assert(s.push(e).drop_last() =~= s);
}

proof fn lemma_tally_concat(a: Seq<TraceEvent>, b: Seq<TraceEvent>, m: Measure)
    ensures
        tally(a + b, m) == tally(a, m) + tally(b, m),
    decreases b.len(),
{
    if b.len() == 0 {
        assert(a + b =~= a);
    } else {
        lemma_tally_concat(a, b.drop_last(), m);
        assert((a + b).drop_last() =~= a + b.drop_last());
    }
}

/// A prefix of a session's events tallies no more than all of them.
proof fn lemma_tally_prefix(s: Seq<TraceEvent>, i: int, session_id: u64, m: Measure)
    requires
        0 <= i <= s.len(),
    ensures
        tally(s.take(i).filter(in_session(session_id)), m) <= tally(
            s.filter(in_session(session_id)),
            m,
        ),
{
    let p = in_session(session_id);
    assert(s =~= s.take(i) + s.skip(i));
    Seq::filter_distributes_over_add(s.take(i), s.skip(i), p);
    lemma_tally_concat(s.take(i).filter(p), s.skip(i).filter(p), m);
}

/// A strictly increasing listing of the sessions of `s` has one entry per
/// distinct session: `stats` and `all_sessions` count the same sessions.
pub proof fn law_listing_counts_sessions(s: Seq<TraceEvent>, ids: Seq<u64>)
    requires
        lists_sessions(s, ids),
    ensures
        ids.len() == session_set(s).len(),
        session_set(s).finite(),
{
    assert(ids.no_duplicates()) by {
        assert forall|a: int, b: int| 0 <= a < ids.len() && 0 <= b < ids.len() && a != b implies ids[a]
            != ids[b] by {
            if a < b {
                assert(ids[a] < ids[b]);
            } else {
                assert(ids[b] < ids[a]);
            }
        }
    }
    assert(ids.to_set() =~= session_set(s)) by {
        assert forall|x: u64| ids.to_set().contains(x) implies session_set(s).contains(x) by {
            let k = choose|k: int| 0 <= k < ids.len() && ids[k] == x;
            assert(exists|j: int| 0 <= j < s.len() && s[j].session_id == ids[k]);
        }
        assert forall|x: u64| session_set(s).contains(x) implies ids.to_set().contains(x) by {
            let j = choose|j: int| 0 <= j < s.len() && s[j].session_id == x;
            assert(ids.contains(s[j].session_id));
        }
    }
    ids.unique_seq_to_set();
    vstd::seq_lib::seq_to_set_is_finite(ids);
}

// ─── The tracer ───────────────────────────────────────────────────────────────

/// Records detailed execution traces of TensorLogic inference operations.
///
/// The tracer keeps a capped buffer of [`TraceEvent`]s. When the buffer holds
/// `config.max_events` events, recording evicts the oldest one and counts it
/// as dropped.
pub struct TensorExecutionTracer {
    /// Retained events (oldest first).
    pub events: Vec<TraceEvent>,
    /// The `event_id` that will be assigned to the next recorded event.
    pub next_event_id: u64,
    /// Tracer configuration.
    pub config: TracerConfig,
    /// Count of events dropped due to the capacity cap.
    dropped_events: u64,
}

impl TensorExecutionTracer {
    /// The number of events evicted so far.
    pub closed spec fn dropped(&self) -> u64 {
        self.dropped_events
    }

    /// The retained events, oldest first.
    pub closed spec fn events_view(&self) -> Seq<TraceEvent> {
        self.events@
    }

    /// The identifier the next recorded event gets.
    pub closed spec fn next_id(&self) -> u64 {
        self.next_event_id
    }

    /// The configuration.
    pub closed spec fn config_view(&self) -> TracerConfig {
        self.config
    }

    /// The events of session `session_id`, oldest first.
    pub open spec fn session_events(&self, session_id: u64) -> Seq<TraceEvent> {
        self.events_view().filter(in_session(session_id))
    }

    /// Create an empty tracer with the given configuration.
    pub fn new(config: TracerConfig) -> (t: Self)
        ensures
            t.events_view().len() == 0,
            t.next_id() == 0,
            t.config_view() == config,
            t.dropped() == 0,
    {
        TensorExecutionTracer { events: Vec::new(), next_event_id: 0, config, dropped_events: 0 }
    }

    /// Record an event. A disabled tracer ignores the call. When the buffer
    /// already holds `max_events` events the oldest is evicted first and
    /// counted as dropped. The event gets the next event id.
    pub fn record(&mut self, session_id: u64, tick: u64, kind: TraceEventKind)
        requires
            old(self).config_view().enabled ==> old(self).next_id() < u64::MAX,
            old(self).config_view().enabled ==> old(self).dropped() < u64::MAX,
            old(self).config_view().enabled ==> old(self).config_view().max_events > 0
                || old(self).events_view().len() > 0,
        ensures
            !old(self).config_view().enabled ==> *final(self) == *old(self),
            old(self).config_view().enabled ==> {
                let evict = old(self).events_view().len() >= old(self).config_view().max_events;
                let kept = if evict {
                    old(self).events_view().drop_first()
                } else {
                    old(self).events_view()
                };
                &&& final(self).events_view() == kept.push(
                    TraceEvent { event_id: old(self).next_id(), tick, kind, session_id },
                )
                &&& final(self).next_id() == old(self).next_id() + 1
                &&& final(self).dropped() == old(self).dropped() + if evict {
                    1int
                } else {
                    0int
                }
                &&& final(self).config_view() == old(self).config_view()
            },
            ids_increasing(old(self).events_view(), old(self).next_id()) ==> ids_increasing(
                final(self).events_view(),
                final(self).next_id(),
            ),
            old(self).events_view().len() <= old(self).config_view().max_events
                ==> final(self).events_view().len() <= final(self).config_view().max_events,
    {
        if !self.config.enabled {
            return;
        }
        if self.events.len() >= self.config.max_events {
            self.events.remove(0);
            self.dropped_events = self.dropped_events + 1;
        }
        let ev = TraceEvent { event_id: self.next_event_id, tick, kind, session_id };
        self.events.push(ev);
        self.next_event_id = self.next_event_id + 1;
    }

    /// The events of session `session_id`, oldest first.
    pub fn events_for_session(&self, session_id: u64) -> (res: Vec<&TraceEvent>)
        ensures
            res@.map_values(|r: &TraceEvent| *r) == self.session_events(session_id),
    {
        let mut res: Vec<&TraceEvent> = Vec::new();
        let mut i: usize = 0;
        while i < self.events.len()
            invariant
                i <= self.events@.len(),
                res@.map_values(|r: &TraceEvent| *r) == self.events@.take(i as int).filter(
                    in_session(session_id),
                ),
            decreases self.events@.len() - i,
        {
            let ghost before = res@;
            proof {
                assert(self.events@.take(i + 1) =~= self.events@.take(i as int).push(
                    self.events@[i as int],
                ));
                self.events@.take(i as int).lemma_filter_push(
                    self.events@[i as int],
                    in_session(session_id),
                );
            }
            if self.events[i].session_id == session_id {
                res.push(&self.events[i]);
                assert(res@.map_values(|r: &TraceEvent| *r) =~= before.map_values(
                    |r: &TraceEvent| *r,
                ).push(self.events@[i as int]));
            }
            i += 1;
        }
        assert(self.events@.take(self.events@.len() as int) =~= self.events@);
        res
    }

    /// Aggregate statistics for session `session_id`.
    pub fn summarize_session(&self, session_id: u64) -> (res: TraceSummary)
        requires
            tally(self.session_events(session_id), Measure::ReadBytes) <= u64::MAX,
            tally(self.session_events(session_id), Measure::WriteBytes) <= u64::MAX,
        ensures
            res == summary_of(self.session_events(session_id), session_id),
    {
        let ghost p = in_session(session_id);
        let mut summary = TraceSummary {
            session_id,
            event_count: 0,
            rule_evaluations: 0,
            successful_rules: 0,
            tensor_reads: 0,
            tensor_writes: 0,
        };
        let mut i: usize = 0;
        while i < self.events.len()
            invariant
                i <= self.events@.len(),
                p == in_session(session_id),
                tally(self.events@.filter(p), Measure::ReadBytes) <= u64::MAX,
                tally(self.events@.filter(p), Measure::WriteBytes) <= u64::MAX,
                summary == summary_of(self.events@.take(i as int).filter(p), session_id),
                self.events@.take(i as int).filter(p).len() <= i,
            decreases self.events@.len() - i,
        {
            let ghost pre = self.events@.take(i as int).filter(p);
            proof {
                let e = self.events@[i as int];
                assert(self.events@.take(i + 1) =~= self.events@.take(i as int).push(e));
                self.events@.take(i as int).lemma_filter_push(e, p);
                lemma_tally_push(pre, e, Measure::RuleStarts);
                lemma_tally_push(pre, e, Measure::Matches);
                lemma_tally_push(pre, e, Measure::ReadBytes);
                lemma_tally_push(pre, e, Measure::WriteBytes);
                lemma_tally_prefix(self.events@, i + 1, session_id, Measure::ReadBytes);
                lemma_tally_prefix(self.events@, i + 1, session_id, Measure::WriteBytes);
                lemma_tally_bounded(pre, Measure::RuleStarts);
                lemma_tally_bounded(pre, Measure::Matches);
            }
            let event = &self.events[i];
            if event.session_id == session_id {
                summary.event_count = summary.event_count + 1;
                match &event.kind {
                    TraceEventKind::RuleEvalStart { .. } => {
                        summary.rule_evaluations = summary.rule_evaluations + 1;
                    },
                    TraceEventKind::RuleEvalEnd { matched, .. } => {
                        if *matched {
                            summary.successful_rules = summary.successful_rules + 1;
                        }
                    },
                    TraceEventKind::TensorRead { size_bytes, .. } => {
                        summary.tensor_reads = summary.tensor_reads + *size_bytes;
                    },
                    TraceEventKind::TensorWrite { size_bytes, .. } => {
                        summary.tensor_writes = summary.tensor_writes + *size_bytes;
                    },
                    _ => {},
                }
            }
            i += 1;
        }
        assert(self.events@.take(self.events@.len() as int) =~= self.events@);
        summary
    }

    /// Remove every event of session `session_id`, keeping the others in order.
    pub fn clear_session(&mut self, session_id: u64)
        ensures
            final(self).events_view() == old(self).events_view().filter(outside_session(session_id)),
            final(self).next_id() == old(self).next_id(),
            final(self).config_view() == old(self).config_view(),
            final(self).dropped() == old(self).dropped(),
            ids_increasing(old(self).events_view(), old(self).next_id()) ==> ids_increasing(
                final(self).events_view(),
                final(self).next_id(),
            ),
    {
        let ghost s0 = self.events@;
        let ghost q = outside_session(session_id);
        let mut i: usize = 0;
        let ghost mut j: int = 0;
        while i < self.events.len()
            invariant
                q == outside_session(session_id),
                0 <= i <= j <= s0.len(),
                i <= self.events@.len(),
                self.events@.take(i as int) == s0.take(j).filter(q),
                self.events@.skip(i as int) == s0.skip(j),
                self.next_event_id == old(self).next_id(),
                self.config == old(self).config_view(),
                self.dropped_events == old(self).dropped_events,
            decreases self.events@.len() - i,
        {
            proof {
                assert(self.events@.skip(i as int).len() == self.events@.len() - i);
                assert(j < s0.len());
            }
            let ghost e = s0[j];
            proof {
                assert(self.events@[i as int] == self.events@.skip(i as int)[0]);
                assert(s0.take(j + 1) =~= s0.take(j).push(e));
                s0.take(j).lemma_filter_push(e, q);
                assert(s0.skip(j + 1) =~= s0.skip(j).drop_first());
            }
            if self.events[i].session_id == session_id {
                let ghost before = self.events@;
                self.events.remove(i);
                proof {
                    assert(self.events@.take(i as int) =~= before.take(i as int));
                    assert(self.events@.skip(i as int) =~= before.skip(i as int).drop_first());
                    j = j + 1;
                }
            } else {
                let ghost before = self.events@;
                proof {
                    assert(self.events@.take(i + 1) =~= before.take(i as int).push(e));
                    assert(self.events@.skip(i + 1) =~= before.skip(i as int).drop_first());
                    j = j + 1;
                }
                i += 1;
            }
        }
        proof {
            assert(self.events@.skip(i as int).len() == 0);
            assert(s0.skip(j).len() == 0);
            assert(j == s0.len());
            assert(s0.take(j) =~= s0);
            assert(self.events@ =~= self.events@.take(i as int));
            if ids_increasing(s0, old(self).next_id()) {
                lemma_filter_keeps_increasing(s0, q, old(self).next_id());
            }
        }
    }

    /// The session identifiers present, in increasing order, each once.
    pub fn all_sessions(&self) -> (ids: Vec<u64>)
        ensures
            lists_sessions(self.events_view(), ids@),
    {
        let mut ids: Vec<u64> = Vec::new();
        let mut i: usize = 0;
        while i < self.events.len()
            invariant
                i <= self.events@.len(),
                lists_sessions(self.events@.take(i as int), ids@),
            decreases self.events@.len() - i,
        {
            let sid = self.events[i].session_id;
            let ghost pre = self.events@.take(i as int);
            let ghost post = self.events@.take(i + 1);
            let ghost before = ids@;
            assert(post =~= pre.push(self.events@[i as int]));
            let mut pos: usize = 0;
            while pos < ids.len() && ids[pos] < sid
                invariant
                    pos <= ids@.len(),
                    forall|k: int| 0 <= k < pos ==> ids@[k] < sid,
                decreases ids@.len() - pos,
            {
                pos += 1;
            }
            if pos == ids.len() || ids[pos] != sid {
                ids.insert(pos, sid);
                proof {
                    assert forall|a: int, b: int| 0 <= a < b < ids@.len() implies ids@[a]
                        < ids@[b] by {
                        if b < pos {
                        } else if b == pos {
                        } else if a < pos {
                            assert(ids@[b] == before[b - 1]);
                        } else if a == pos {
                            assert(ids@[b] == before[b - 1]);
                            assert(before[pos as int] >= sid);
                            if b - 1 > pos {
                                assert(before[pos as int] < before[b - 1]);
                            }
                        } else {
                            assert(ids@[a] == before[a - 1] && ids@[b] == before[b - 1]);
                        }
                    }
                    assert forall|k: int| 0 <= k < ids@.len() implies has_session(post, ids@[k]) by {
                        if k == pos {
                            assert(post[i as int].session_id == ids@[k]);
                        } else if k < pos {
                            assert(ids@[k] == before[k]);
                            let j = choose|j: int| 0 <= j < pre.len() && pre[j].session_id == before[k];
                            assert(post[j] == pre[j]);
                        } else {
                            assert(ids@[k] == before[k - 1]);
                            let j = choose|j: int|
                                0 <= j < pre.len() && pre[j].session_id == before[k - 1];
                            assert(post[j] == pre[j]);
                        }
                    }
                    assert forall|j: int| 0 <= j < post.len() implies ids@.contains(
                        #[trigger] post[j].session_id,
                    ) by {
                        if j == i {
                            assert(ids@[pos as int] == sid);
                        } else {
                            assert(post[j] == pre[j]);
                            assert(before.contains(pre[j].session_id));
                            let k = choose|k: int| 0 <= k < before.len() && before[k] == pre[j].session_id;
                            if k < pos {
                                assert(ids@[k] == before[k]);
                            } else {
                                assert(ids@[k + 1] == before[k]);
                            }
                        }
                    }
                }
            } else {
                proof {
                    assert forall|k: int| 0 <= k < ids@.len() implies has_session(post, ids@[k]) by {
                        let j = choose|j: int| 0 <= j < pre.len() && pre[j].session_id == ids@[k];
                        assert(post[j] == pre[j]);
                    }
                    assert forall|j: int| 0 <= j < post.len() implies ids@.contains(
                        #[trigger] post[j].session_id,
                    ) by {
                        if j == i {
                            assert(ids@[pos as int] == sid);
                        } else {
                            assert(post[j] == pre[j]);
                        }
                    }
                }
            }
            i += 1;
        }
        assert(self.events@.take(self.events@.len() as int) =~= self.events@);
        ids
    }

    /// Statistics across all sessions.
    pub fn stats(&self) -> (st: TracerStats)
        ensures
            st.total_events == self.events_view().len(),
            st.total_sessions == session_set(self.events_view()).len(),
            st.dropped_events == self.dropped(),
    {
        let ids = self.all_sessions();
        proof {
            law_listing_counts_sessions(self.events@, ids@);
        }
        TracerStats {
            total_events: self.events.len(),
            total_sessions: ids.len(),
            dropped_events: self.dropped_events,
        }
    }
}

/// Clearing a session leaves none of its events, and leaves the events of
/// every other session exactly as they were.
pub proof fn law_clear_session_isolates(events: Seq<TraceEvent>, cleared: u64, other: u64)
    ensures
        events.filter(outside_session(cleared)).filter(in_session(cleared)).len() == 0,
        other != cleared ==> events.filter(outside_session(cleared)).filter(in_session(other))
            == events.filter(in_session(other)),
    decreases events.len(),
{
    reveal(Seq::filter);
    if events.len() > 0 {
        let rest = events.drop_last();
        let e = events.last();
        law_clear_session_isolates(rest, cleared, other);
        assert(events =~= rest.push(e));
        rest.lemma_filter_push(e, outside_session(cleared));
        rest.lemma_filter_push(e, in_session(other));
        if e.session_id != cleared {
            rest.filter(outside_session(cleared)).lemma_filter_push(e, in_session(cleared));
            rest.filter(outside_session(cleared)).lemma_filter_push(e, in_session(other));
        }
    }
}

proof fn lemma_tally_bounded(s: Seq<TraceEvent>, m: Measure)
    requires
        m is RuleStarts || m is Matches,
    ensures
        tally(s, m) <= s.len(),
    decreases s.len(),
{
    if s.len() > 0 {
        lemma_tally_bounded(s.drop_last(), m);
    }
}

proof fn lemma_filter_keeps_increasing(s: Seq<TraceEvent>, p: spec_fn(TraceEvent) -> bool, next: u64)
    requires
        ids_increasing(s, next),
    ensures
        ids_increasing(s.filter(p), next),
    decreases s.len(),
{
    reveal(Seq::filter);
    if s.len() > 0 {
        lemma_filter_keeps_increasing(s.drop_last(), p, next);
        let f = s.drop_last().filter(p);
        if p(s.last()) {
            assert forall|a: int| 0 <= a < f.len() implies f[a].event_id < s.last().event_id by {
                assert(f.contains(f[a]));
                s.drop_last().lemma_filter_contains_rev(p, f[a]);
                let k = choose|k: int| 0 <= k < s.drop_last().len() && s.drop_last()[k] == f[a];
                assert(s[k] == f[a]);
            }
        }
    }
}

/// The event ends a rule evaluation that matched.
pub open spec fn is_matched_rule_end(e: TraceEvent) -> bool {
    e.kind matches TraceEventKind::RuleEvalEnd { matched, .. } && matched
}

/// The event starts a rule evaluation.
pub open spec fn is_rule_start(e: TraceEvent) -> bool {
    e.kind is RuleEvalStart
}

/// A summary counts as successful rules exactly the events that end a rule
/// evaluation with a match, and as rule evaluations exactly the events that
/// start one; every other event counts for neither.
pub proof fn law_summary_counts_rule_events(s: Seq<TraceEvent>)
    ensures
        tally(s, Measure::Matches) == s.filter(|e: TraceEvent| is_matched_rule_end(e)).len(),
        tally(s, Measure::RuleStarts) == s.filter(|e: TraceEvent| is_rule_start(e)).len(),
        tally(s, Measure::Matches) <= s.len(),
    decreases s.len(),
{
    let pm = |e: TraceEvent| is_matched_rule_end(e);
    let ps = |e: TraceEvent| is_rule_start(e);
    if s.len() == 0 {
        assert(s.filter(pm) =~= Seq::<TraceEvent>::empty()) by {
            reveal(Seq::filter);
        }
        assert(s.filter(ps) =~= Seq::<TraceEvent>::empty()) by {
            reveal(Seq::filter);
        }
    } else {
        let pre = s.drop_last();
        law_summary_counts_rule_events(pre);
        assert(s =~= pre.push(s.last()));
        pre.lemma_filter_push(s.last(), pm);
        pre.lemma_filter_push(s.last(), ps);
    }
}

/// Adding an event that does not end a rule evaluation leaves the count of
/// successful rules unchanged; one that ends a matched evaluation adds one.
pub proof fn law_only_matched_rule_ends_count(s: Seq<TraceEvent>, e: TraceEvent)
    ensures
        tally(s.push(e), Measure::Matches) == tally(s, Measure::Matches) + if is_matched_rule_end(e) {
            1nat
        } else {
            0nat
        },
        !(e.kind is RuleEvalEnd) ==> tally(s.push(e), Measure::Matches) == tally(s, Measure::Matches),
{
    lemma_tally_push(s, e, Measure::Matches);
}

} // verus!
