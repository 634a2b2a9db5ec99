//! TensorEventBusV2 — typed in-process event bus for TensorLogic events.
//!
//! Subscribers register with a filter, a priority and a bounded queue. A
//! published event is offered to the subscriptions in descending priority
//! order; each one whose filter accepts it enqueues it, or counts a drop when
//! its queue is full. An event that no filter accepts goes to the dead-letter
//! queue. Draining a subscription hands over its queue and empties it.

use vstd::prelude::*;

verus! {

broadcast use {vstd::seq_lib::group_to_multiset_ensures, vstd::multiset::group_multiset_axioms};

/// Events that can be published on the bus.
#[derive(Debug, PartialEq)]
pub enum TensorEvent {
    /// A Datalog/TensorLogic rule was fired.
    RuleFired {
        /// Identifier of the rule.
        rule_id: u64,
        /// Number of variable bindings produced.
        bindings_count: usize,
    },
    /// An inference session completed.
    InferenceComplete {
        /// Identifier of the session.
        session_id: u64,
        /// Wall-clock duration in milliseconds.
        duration_ms: u64,
    },
    /// A tensor was updated to a new version.
    TensorUpdated {
        /// Identifier of the tensor.
        tensor_id: u64,
        /// New version number.
        new_version: u64,
    },
    /// A checkpoint was persisted to disk.
    CheckpointSaved {
        /// Filesystem path of the checkpoint file.
        path: String,
        /// Size of the checkpoint in bytes.
        size_bytes: u64,
    },
    /// A gradient step was applied.
    GradientApplied {
        /// Optimiser step counter.
        step: u64,
        /// Training loss at this step, as the bit pattern of its `f64` value.
        loss_bits: u64,
    },
}

impl Clone for TensorEvent {
    fn clone(&self) -> (res: Self)
        ensures
            res == *self,
    {
        match self {
            TensorEvent::RuleFired { rule_id, bindings_count } => TensorEvent::RuleFired {
                rule_id: *rule_id,
                bindings_count: *bindings_count,
            },
            TensorEvent::InferenceComplete { session_id, duration_ms } =>
                TensorEvent::InferenceComplete { session_id: *session_id, duration_ms: *duration_ms },
            TensorEvent::TensorUpdated { tensor_id, new_version } => TensorEvent::TensorUpdated {
                tensor_id: *tensor_id,
                new_version: *new_version,
            },
            TensorEvent::CheckpointSaved { path, size_bytes } => TensorEvent::CheckpointSaved {
                path: path.clone(),
                size_bytes: *size_bytes,
            },
            TensorEvent::GradientApplied { step, loss_bits } => TensorEvent::GradientApplied {
                step: *step,
                loss_bits: *loss_bits,
            },
        }
    }
}

/// Subscription filter — determines which [`TensorEvent`] variants a subscriber receives.
#[derive(Clone, Copy, Debug, PartialEq, Eq, Structural)]
pub enum EventFilter {
    /// Receive every event regardless of variant.
    All,
    /// Receive only [`TensorEvent::RuleFired`] events.
    RuleEventsOnly,
    /// Receive only [`TensorEvent::InferenceComplete`] events.
    InferenceEventsOnly,
    /// Receive only [`TensorEvent::TensorUpdated`] events.
    TensorEventsOnly,
}

/// Whether filter `f` lets event `e` through.
pub open spec fn accepts(f: EventFilter, e: TensorEvent) -> bool {
    match f {
        EventFilter::All => true,
        EventFilter::RuleEventsOnly => e is RuleFired,
        EventFilter::InferenceEventsOnly => e is InferenceComplete,
        EventFilter::TensorEventsOnly => e is TensorUpdated,
    }
}

impl EventFilter {
    /// Returns `true` when this filter accepts the given event.
    pub fn matches(&self, event: &TensorEvent) -> (b: bool)
        ensures
            b == accepts(*self, *event),
    {
        match self {
            EventFilter::All => true,
            EventFilter::RuleEventsOnly => matches!(event, TensorEvent::RuleFired { .. }),
            EventFilter::InferenceEventsOnly => matches!(event, TensorEvent::InferenceComplete { .. }),
            EventFilter::TensorEventsOnly => matches!(event, TensorEvent::TensorUpdated { .. }),
        }
    }
}

/// Per-subscriber state maintained by the bus.
#[derive(Debug)]
pub struct Subscription {
    /// Unique subscription identifier returned by `subscribe`.
    pub sub_id: u64,
    /// Event filter for this subscription.
    pub filter: EventFilter,
    /// Delivery priority — higher values are served first.
    pub priority: u32,
    /// Maximum number of events buffered before drops occur.
    pub max_queue_size: usize,
    /// Pending (unread) events for this subscriber.
    pub queue: Vec<TensorEvent>,
    /// Cumulative count of events successfully enqueued.
    pub delivered: u64,
    /// Cumulative count of events dropped because the queue was full.
    pub dropped: u64,
}

/// Aggregate delivery statistics for the entire bus.
#[derive(Clone, Debug, PartialEq)]
pub struct BusStats {
    /// Total number of events passed to `publish`.
    pub total_published: u64,
    /// Total events successfully enqueued across all subscribers.
    pub total_delivered: u64,
    /// Total events dropped (queue full) across all subscribers.
    pub total_dropped: u64,
}

impl Default for BusStats {
    fn default() -> (s: Self)
        ensures
            s.total_published == 0,
            s.total_delivered == 0,
            s.total_dropped == 0,
    {
        BusStats { total_published: 0, total_delivered: 0, total_dropped: 0 }
    }
}

// ─── The model of delivery ───────────────────────────────────────────────────

/// `s1` is subscription `s0` after event `e` was offered to it: enqueued when
/// the filter accepts it and the queue has room, counted as dropped when the
/// filter accepts it and the queue is full, untouched otherwise.
pub open spec fn offered(s0: Subscription, s1: Subscription, e: TensorEvent) -> bool {
    &&& s1.sub_id == s0.sub_id
    &&& s1.filter == s0.filter
    &&& s1.priority == s0.priority
    &&& s1.max_queue_size == s0.max_queue_size
    &&& if !accepts(s0.filter, e) {
        s1.queue@ == s0.queue@ && s1.delivered == s0.delivered && s1.dropped == s0.dropped
    } else if s0.queue@.len() < s0.max_queue_size {
        s1.queue@ == s0.queue@.push(e) && s1.delivered == s0.delivered + 1 && s1.dropped
            == s0.dropped
    } else {
        s1.queue@ == s0.queue@ && s1.delivered == s0.delivered && s1.dropped == s0.dropped + 1
    }
}

/// The subscription would enqueue `e`.
pub open spec fn takes(s: Subscription, e: TensorEvent) -> bool {
    accepts(s.filter, e) && s.queue@.len() < s.max_queue_size
}

/// The subscription would count `e` as dropped.
pub open spec fn refuses(s: Subscription, e: TensorEvent) -> bool {
    accepts(s.filter, e) && s.queue@.len() >= s.max_queue_size
}

/// How many subscriptions of `subs` would enqueue `e`.
pub open spec fn count_takes(subs: Seq<Subscription>, e: TensorEvent) -> nat
    decreases subs.len(),
{
    if subs.len() == 0 {
        0
    } else {
        count_takes(subs.drop_last(), e) + if takes(subs.last(), e) {
            1nat
        } else {
            0nat
        }
    }
}

/// How many subscriptions of `subs` would drop `e`.
pub open spec fn count_refuses(subs: Seq<Subscription>, e: TensorEvent) -> nat
    decreases subs.len(),
{
    if subs.len() == 0 {
        0
    } else {
        count_refuses(subs.drop_last(), e) + if refuses(subs.last(), e) {
            1nat
        } else {
            0nat
        }
    }
}

/// Some subscription's filter accepts `e`.
pub open spec fn any_accepts(subs: Seq<Subscription>, e: TensorEvent) -> bool {
    exists|i: int| 0 <= i < subs.len() && accepts((#[trigger] subs[i]).filter, e)
}

/// Subscriptions are in descending priority order.
pub open spec fn by_priority(subs: Seq<Subscription>) -> bool {
    forall|a: int, b: int| 0 <= a < b < subs.len() ==> subs[a].priority >= subs[b].priority
}

/// `s` is a newly registered subscription with these settings: nothing
/// queued, delivered or dropped yet.
pub open spec fn fresh(s: Subscription, id: u64, filter: EventFilter, priority: u32, max: usize) -> bool {
    &&& s.sub_id == id
    &&& s.filter == filter
    &&& s.priority == priority
    &&& s.max_queue_size == max
    &&& s.queue@.len() == 0
    &&& s.delivered == 0
    &&& s.dropped == 0
}

proof fn lemma_counts_push(subs: Seq<Subscription>, s: Subscription, e: TensorEvent)
    ensures
        count_takes(subs.push(s), e) == count_takes(subs, e) + if takes(s, e) {
            1nat
        } else {
            0nat
        },
        count_refuses(subs.push(s), e) == count_refuses(subs, e) + if refuses(s, e) {
            1nat
        } else {
            0nat
        },
{
    assert(subs.push(s).drop_last() =~= subs);
}

proof fn lemma_counts_prefix(subs: Seq<Subscription>, k: int, e: TensorEvent)
    requires
        0 <= k <= subs.len(),
    ensures
        count_takes(subs.take(k), e) <= count_takes(subs, e),
        count_refuses(subs.take(k), e) <= count_refuses(subs, e),
    decreases subs.len(),
{
    if k < subs.len() {
        assert(subs.drop_last().take(k) =~= subs.take(k));
        lemma_counts_prefix(subs.drop_last(), k, e);
    } else {
        assert(subs.take(k) =~= subs);
    }
}

// ─── The bus ─────────────────────────────────────────────────────────────────

/// Typed in-process event bus for TensorLogic events.
#[derive(Debug)]
pub struct TensorEventBusV2 {
    /// Active subscriptions, kept in descending priority order.
    pub subscriptions: Vec<Subscription>,
    /// Events that were not delivered to any subscriber.
    pub dead_letters: Vec<TensorEvent>,
    /// Bus-level statistics.
    pub stats: BusStats,
    /// Counter used to assign subscription IDs.
    pub next_sub_id: u64,
}

impl TensorEventBusV2 {
    /// Creates a new, empty event bus whose first subscription gets id 1.
    pub fn new() -> (b: Self)
        ensures
            b.subscriptions@.len() == 0,
            b.dead_letters@.len() == 0,
            b.stats == (BusStats { total_published: 0, total_delivered: 0, total_dropped: 0 }),
            b.next_sub_id == 1,
    {
        TensorEventBusV2 {
            subscriptions: Vec::new(),
            dead_letters: Vec::new(),
            stats: BusStats::default(),
            next_sub_id: 1,
        }
    }

    /// Registers a new subscription and returns its identifier, the current
    /// `next_sub_id`. A `max_queue_size` of 0 stands for 100. The subscription
    /// list is then put in descending priority order, holding the same
    /// subscriptions plus the new one; no order is promised among equal
    /// priorities.
    pub fn subscribe(&mut self, filter: EventFilter, priority: u32, max_queue_size: usize) -> (id: u64)
        requires
            old(self).next_sub_id < u64::MAX,
        ensures
            id == old(self).next_sub_id,
            final(self).next_sub_id == old(self).next_sub_id + 1,
            by_priority(final(self).subscriptions@),
            exists|k: int|
                0 <= k < final(self).subscriptions@.len() && fresh(
                    #[trigger] final(self).subscriptions@[k],
                    id,
                    filter,
                    priority,
                    if max_queue_size == 0 {
                        100
                    } else {
                        max_queue_size
                    },
                ) && final(self).subscriptions@.remove(k).to_multiset() == old(
                    self,
                ).subscriptions@.to_multiset(),
            final(self).dead_letters@ == old(self).dead_letters@,
            final(self).stats == old(self).stats,
    {
        let sub_id = self.next_sub_id;
        self.next_sub_id = self.next_sub_id + 1;
        let effective_max = if max_queue_size == 0 {
            100
        } else {
            max_queue_size
        };
        let sub = Subscription {
            sub_id,
            filter,
            priority,
            max_queue_size: effective_max,
            queue: Vec::new(),
            delivered: 0,
            dropped: 0,
        };
        let ghost fresh_sub = sub;
        let mut pending: Vec<Subscription> = Vec::new();
        std::mem::swap(&mut pending, &mut self.subscriptions);
        let ghost old_subs = pending@;
        pending.push(sub);
        let ghost all = pending@;
        let mut sorted: Vec<Subscription> = Vec::new();
        while pending.len() > 0
            invariant
                by_priority(sorted@),
                sorted@.to_multiset().add(pending@.to_multiset()) == all.to_multiset(),
                sorted@.len() + pending@.len() == all.len(),
            decreases pending@.len(),
        {
            let ghost p_before = pending@;
            let s = pending.remove(0);
            proof {
                assert(p_before.remove(0) == pending@);
            }
            let mut pos: usize = sorted.len();
            while pos > 0 && sorted[pos - 1].priority < s.priority
                invariant
                    pos <= sorted@.len(),
                    forall|k: int| pos <= k < sorted@.len() ==> sorted@[k].priority < s.priority,
                decreases pos,
            {
                pos -= 1;
            }
            let ghost before = sorted@;
            sorted.insert(pos, s);
            proof {
                assert forall|a: int, b: int| 0 <= a < b < sorted@.len() implies sorted@[a].priority
                    >= sorted@[b].priority by {
                    if b < pos {
                        assert(sorted@[a] == before[a] && sorted@[b] == before[b]);
                    } else if b == pos {
                        assert(sorted@[a] == before[a]);
                        assert(before[pos - 1].priority >= s.priority);
                        assert(before[a].priority >= before[pos - 1].priority || a == pos - 1);
                    } else if a > pos {
                        assert(sorted@[a] == before[a - 1] && sorted@[b] == before[b - 1]);
                    } else if a == pos {
                        assert(sorted@[b] == before[b - 1]);
                    } else {
                        assert(sorted@[a] == before[a] && sorted@[b] == before[b - 1]);
                        assert(before[pos - 1].priority >= s.priority);
                        assert(before[a].priority >= before[pos - 1].priority || a == pos - 1);
                    }
                }
            }
        }
        proof {
            let fin = sorted@;
            assert(all == old_subs.push(fresh_sub));
            assert(fin.to_multiset() == all.to_multiset());
            assert(all[all.len() - 1] == fresh_sub);
            assert(all.contains(fresh_sub));
            assert(all.to_multiset().count(fresh_sub) > 0);
            assert(fin.contains(fresh_sub));
            let k = choose|k: int| 0 <= k < fin.len() && fin[k] == fresh_sub;
            assert(fin.remove(k).to_multiset() == fin.to_multiset().remove(fresh_sub));
            assert(fin.to_multiset().remove(fresh_sub) =~= old_subs.to_multiset());
            assert(fresh(fin[k], sub_id, filter, priority, effective_max));
        }
        self.subscriptions = sorted;
        sub_id
    }

    /// Removes every subscription identified by `sub_id`, keeping the others
    /// in order. Returns `true` if there was one.
    pub fn unsubscribe(&mut self, sub_id: u64) -> (removed: bool)
        ensures
            final(self).subscriptions@ == old(self).subscriptions@.filter(other_than(sub_id)),
            removed == exists|i: int|
                0 <= i < old(self).subscriptions@.len() && (#[trigger] old(self).subscriptions@[i]).sub_id
                    == sub_id,
            final(self).dead_letters@ == old(self).dead_letters@,
            final(self).stats == old(self).stats,
            final(self).next_sub_id == old(self).next_sub_id,
    {
        let ghost s0 = self.subscriptions@;
        let ghost q = other_than(sub_id);
        let before = self.subscriptions.len();
        let mut i: usize = 0;
        let ghost mut j: int = 0;
        while i < self.subscriptions.len()
            invariant
                q == other_than(sub_id),
                0 <= i <= j <= s0.len(),
                i <= self.subscriptions@.len(),
                self.subscriptions@.take(i as int) == s0.take(j).filter(q),
                self.subscriptions@.skip(i as int) == s0.skip(j),
                self.dead_letters@ == old(self).dead_letters@,
                self.stats == old(self).stats,
                self.next_sub_id == old(self).next_sub_id,
            decreases self.subscriptions@.len() - i,
        {
            proof {
                assert(self.subscriptions@.skip(i as int).len() == self.subscriptions@.len() - i);
                assert(j < s0.len());
            }
            let ghost e = s0[j];
            proof {
                assert(self.subscriptions@[i as int] == self.subscriptions@.skip(i as int)[0]);
                assert(s0.take(j + 1) =~= s0.take(j).push(e));
                s0.take(j).lemma_filter_push(e, q);
                assert(s0.skip(j + 1) =~= s0.skip(j).drop_first());
            }
            if self.subscriptions[i].sub_id == sub_id {
                let ghost b = self.subscriptions@;
                let _gone = self.subscriptions.remove(i);
                proof {
                    assert(self.subscriptions@.take(i as int) =~= b.take(i as int));
                    assert(self.subscriptions@.skip(i as int) =~= b.skip(i as int).drop_first());
                    j = j + 1;
                }
            } else {
                let ghost b = self.subscriptions@;
                proof {
                    assert(self.subscriptions@.take(i + 1) =~= b.take(i as int).push(e));
                    assert(self.subscriptions@.skip(i + 1) =~= b.skip(i as int).drop_first());
                    j = j + 1;
                }
                i += 1;
            }
        }
        proof {
            assert(self.subscriptions@.skip(i as int).len() == 0);
            assert(s0.skip(j).len() == 0);
            assert(s0.take(j) =~= s0);
            assert(self.subscriptions@ =~= self.subscriptions@.take(i as int));
            lemma_filter_len_absent(s0, sub_id);
        }
        self.subscriptions.len() < before
    }

    /// Publishes an event: every subscription, in order, whose filter accepts
    /// the event enqueues it when its queue has room and counts a drop when it
    /// is full. An event that no filter accepts goes to the dead letters.
    pub fn publish(&mut self, event: TensorEvent)
        requires
            old(self).stats.total_published < u64::MAX,
            old(self).stats.total_delivered + count_takes(old(self).subscriptions@, event) <= u64::MAX,
            old(self).stats.total_dropped + count_refuses(old(self).subscriptions@, event) <= u64::MAX,
            forall|i: int|
                0 <= i < old(self).subscriptions@.len() ==> (takes(
                    #[trigger] old(self).subscriptions@[i],
                    event,
                ) ==> old(self).subscriptions@[i].delivered < u64::MAX) && (refuses(
                    old(self).subscriptions@[i],
                    event,
                ) ==> old(self).subscriptions@[i].dropped < u64::MAX),
        ensures
            final(self).subscriptions@.len() == old(self).subscriptions@.len(),
            forall|i: int|
                0 <= i < old(self).subscriptions@.len() ==> offered(
                    #[trigger] old(self).subscriptions@[i],
                    final(self).subscriptions@[i],
                    event,
                ),
            final(self).stats.total_published == old(self).stats.total_published + 1,
            final(self).stats.total_delivered == old(self).stats.total_delivered + count_takes(
                old(self).subscriptions@,
                event,
            ),
            final(self).stats.total_dropped == old(self).stats.total_dropped + count_refuses(
                old(self).subscriptions@,
                event,
            ),
            any_accepts(old(self).subscriptions@, event) ==> final(self).dead_letters@ == old(
                self,
            ).dead_letters@,
            !any_accepts(old(self).subscriptions@, event) ==> final(self).dead_letters@ == old(
                self,
            ).dead_letters@.push(event),
            final(self).next_sub_id == old(self).next_sub_id,
    {
        let ghost s0 = self.subscriptions@;
        let ghost st0 = self.stats;
        self.stats.total_published = self.stats.total_published + 1;
        let mut any_accepted = false;
        let mut pending: Vec<Subscription> = Vec::new();
        std::mem::swap(&mut pending, &mut self.subscriptions);
        let mut done: Vec<Subscription> = Vec::new();
        while pending.len() > 0
            invariant
                done@.len() + pending@.len() == s0.len(),
                pending@ == s0.skip(done@.len() as int),
                forall|i: int| 0 <= i < done@.len() ==> offered(s0[i], #[trigger] done@[i], event),
                self.stats.total_published == st0.total_published + 1,
                self.stats.total_delivered == st0.total_delivered + count_takes(
                    s0.take(done@.len() as int),
                    event,
                ),
                self.stats.total_dropped == st0.total_dropped + count_refuses(
                    s0.take(done@.len() as int),
                    event,
                ),
                st0.total_delivered + count_takes(s0, event) <= u64::MAX,
                st0.total_dropped + count_refuses(s0, event) <= u64::MAX,
                forall|i: int|
                    0 <= i < s0.len() ==> (takes(#[trigger] s0[i], event) ==> s0[i].delivered
                        < u64::MAX) && (refuses(s0[i], event) ==> s0[i].dropped < u64::MAX),
                any_accepted == any_accepts(s0.take(done@.len() as int), event),
                self.dead_letters@ == old(self).dead_letters@,
                self.next_sub_id == old(self).next_sub_id,
            decreases pending@.len(),
        {
            let k = done.len();
            let ghost cur = s0[k as int];
            proof {
                assert(pending@[0] == cur);
                assert(s0.take(k + 1) =~= s0.take(k as int).push(cur));
                lemma_counts_push(s0.take(k as int), cur, event);
                lemma_counts_prefix(s0, k + 1, event);
                assert(s0.skip(k + 1) =~= pending@.remove(0));
                if any_accepts(s0.take(k + 1), event) && !accepts(cur.filter, event) {
                    let w = choose|w: int|
                        0 <= w < s0.take(k + 1).len() && accepts((#[trigger] s0.take(k + 1)[w]).filter, event);
                    assert(s0.take(k as int)[w] == s0.take(k + 1)[w]);
                }
                if any_accepts(s0.take(k as int), event) {
                    let w = choose|w: int|
                        0 <= w < s0.take(k as int).len() && accepts((#[trigger] s0.take(k as int)[w]).filter, event);
                    assert(s0.take(k + 1)[w] == s0.take(k as int)[w]);
                }
                if accepts(cur.filter, event) {
                    assert(s0.take(k + 1)[k as int] == cur);
                }
            }
            let mut sub = pending.remove(0);
            if sub.filter.matches(&event) {
                if sub.queue.len() < sub.max_queue_size {
                    sub.queue.push(event.clone());
                    sub.delivered = sub.delivered + 1;
                    self.stats.total_delivered = self.stats.total_delivered + 1;
                } else {
                    sub.dropped = sub.dropped + 1;
                    self.stats.total_dropped = self.stats.total_dropped + 1;
                }
                any_accepted = true;
            }
            done.push(sub);
        }
        proof {
            assert(s0.take(s0.len() as int) =~= s0);
        }
        self.subscriptions = done;
        if !any_accepted {
            self.dead_letters.push(event);
        }
    }

    /// Drains and returns all queued events of the first subscription
    /// identified by `sub_id`, leaving its queue empty. Returns an empty `Vec`
    /// and changes nothing if there is no such subscription.
    pub fn drain(&mut self, sub_id: u64) -> (out: Vec<TensorEvent>)
        ensures
            final(self).subscriptions@.len() == old(self).subscriptions@.len(),
            final(self).dead_letters@ == old(self).dead_letters@,
            final(self).stats == old(self).stats,
            final(self).next_sub_id == old(self).next_sub_id,
            match first_index(old(self).subscriptions@, sub_id) {
                None => out@.len() == 0 && final(self).subscriptions@ == old(self).subscriptions@,
                Some(i) => {
                    let s0 = old(self).subscriptions@[i];
                    let s1 = final(self).subscriptions@[i];
                    &&& out@ == s0.queue@
                    &&& s1.queue@.len() == 0
                    &&& s1.sub_id == s0.sub_id && s1.filter == s0.filter && s1.priority
                        == s0.priority && s1.max_queue_size == s0.max_queue_size && s1.delivered
                        == s0.delivered && s1.dropped == s0.dropped
                    &&& forall|j: int|
                        0 <= j < old(self).subscriptions@.len() && j != i
                            ==> #[trigger] final(self).subscriptions@[j] == old(self).subscriptions@[j]
                },
            },
    {
        let mut i: usize = 0;
        while i < self.subscriptions.len()
            invariant
                i <= self.subscriptions@.len(),
                self.subscriptions@ == old(self).subscriptions@,
                self.dead_letters@ == old(self).dead_letters@,
                self.stats == old(self).stats,
                self.next_sub_id == old(self).next_sub_id,
                forall|j: int| 0 <= j < i ==> (#[trigger] self.subscriptions@[j]).sub_id != sub_id,
            decreases self.subscriptions@.len() - i,
        {
            if self.subscriptions[i].sub_id == sub_id {
                proof {
                    lemma_first_index(self.subscriptions@, sub_id, i as int);
                }
                let ghost s0 = self.subscriptions@;
                let mut sub = self.subscriptions.remove(i);
                let mut out: Vec<TensorEvent> = Vec::new();
                std::mem::swap(&mut out, &mut sub.queue);
                self.subscriptions.insert(i, sub);
                proof {
                    assert forall|j: int| 0 <= j < s0.len() && j != i implies #[trigger] self.subscriptions@[j]
                        == s0[j] by {
                        if j < i {
                            assert(self.subscriptions@[j] == s0.remove(i as int)[j]);
                        } else {
                            assert(self.subscriptions@[j] == s0.remove(i as int)[j - 1]);
                        }
                    }
                }
                return out;
            }
            i += 1;
        }
        proof {
            lemma_first_index_none(self.subscriptions@, sub_id);
        }
        Vec::new()
    }

    /// The current bus statistics.
    pub fn stats(&self) -> (s: &BusStats)
        ensures
            *s == self.stats,
    {
        &self.stats
    }
}

impl Default for TensorEventBusV2 {
    fn default() -> (b: Self)
        ensures
            b.subscriptions@.len() == 0,
            b.dead_letters@.len() == 0,
            b.stats == (BusStats { total_published: 0, total_delivered: 0, total_dropped: 0 }),
            b.next_sub_id == 1,
    {
        Self::new()
    }
}

/// The position of the first subscription identified by `id`.
pub open spec fn first_index(subs: Seq<Subscription>, id: u64) -> Option<int>
    decreases subs.len(),
{
    if subs.len() == 0 {
        None
    } else if subs[0].sub_id == id {
        Some(0)
    } else {
        match first_index(subs.drop_first(), id) {
            Some(i) => Some(i + 1),
            None => None,
        }
    }
}

proof fn lemma_first_index(subs: Seq<Subscription>, id: u64, i: int)
    requires
        0 <= i < subs.len(),
        subs[i].sub_id == id,
        forall|j: int| 0 <= j < i ==> (#[trigger] subs[j]).sub_id != id,
    ensures
        first_index(subs, id) == Some(i),
    decreases i,
{
    if i > 0 {
        assert forall|j: int| 0 <= j < i - 1 implies (#[trigger] subs.drop_first()[j]).sub_id != id by {
            assert(subs.drop_first()[j] == subs[j + 1]);
        }
        lemma_first_index(subs.drop_first(), id, i - 1);
    }
}

proof fn lemma_first_index_none(subs: Seq<Subscription>, id: u64)
    requires
        forall|j: int| 0 <= j < subs.len() ==> (#[trigger] subs[j]).sub_id != id,
    ensures
        first_index(subs, id) is None,
    decreases subs.len(),
{
    if subs.len() > 0 {
        assert forall|j: int| 0 <= j < subs.len() - 1 implies (#[trigger] subs.drop_first()[j]).sub_id != id by {
            assert(subs.drop_first()[j] == subs[j + 1]);
        }
        lemma_first_index_none(subs.drop_first(), id);
    }
}

/// Subscriptions other than those identified by `id`.
pub open spec fn other_than(id: u64) -> spec_fn(Subscription) -> bool {
    |s: Subscription| s.sub_id != id
}

proof fn lemma_filter_len_absent(subs: Seq<Subscription>, id: u64)
    ensures
        subs.filter(other_than(id)).len() < subs.len() <==> exists|i: int|
            0 <= i < subs.len() && (#[trigger] subs[i]).sub_id == id,
    decreases subs.len(),
{
    reveal(Seq::filter);
    if subs.len() > 0 {
        lemma_filter_len_absent(subs.drop_last(), id);
        subs.drop_last().lemma_filter_len(other_than(id));
        if exists|i: int| 0 <= i < subs.drop_last().len() && (#[trigger] subs.drop_last()[i]).sub_id == id {
            let i = choose|i: int| 0 <= i < subs.drop_last().len() && (#[trigger] subs.drop_last()[i]).sub_id == id;
            assert(subs[i] == subs.drop_last()[i]);
        }
        if exists|i: int| 0 <= i < subs.len() && (#[trigger] subs[i]).sub_id == id {
            let i = choose|i: int| 0 <= i < subs.len() && (#[trigger] subs[i]).sub_id == id;
            if i < subs.len() - 1 {
                assert(subs.drop_last()[i] == subs[i]);
            }
        }
    }
}

/// Publishing keeps the subscriptions in descending priority order: it
/// changes queues and counters only.
pub proof fn law_publish_keeps_priority_order(s0: Seq<Subscription>, s1: Seq<Subscription>, e: TensorEvent)
    requires
        by_priority(s0),
        s1.len() == s0.len(),
        forall|i: int| 0 <= i < s0.len() ==> offered(#[trigger] s0[i], s1[i], e),
    ensures
        by_priority(s1),
{
    assert forall|a: int, b: int| 0 <= a < b < s1.len() implies s1[a].priority >= s1[b].priority by {
        assert(offered(s0[a], s1[a], e) && offered(s0[b], s1[b], e));
    }
}

/// Unsubscribing keeps the remaining subscriptions in descending priority
/// order.
pub proof fn law_unsubscribe_keeps_priority_order(subs: Seq<Subscription>, id: u64)
    requires
        by_priority(subs),
    ensures
        by_priority(subs.filter(other_than(id))),
    decreases subs.len(),
{
    reveal(Seq::filter);
    if subs.len() > 0 {
        let rest = subs.drop_last();
        law_unsubscribe_keeps_priority_order(rest, id);
        let f = rest.filter(other_than(id));
        if other_than(id)(subs.last()) {
            assert forall|a: int| 0 <= a < f.len() implies f[a].priority >= subs.last().priority by {
                assert(f.contains(f[a]));
                rest.lemma_filter_contains_rev(other_than(id), f[a]);
                let k = choose|k: int| 0 <= k < rest.len() && rest[k] == f[a];
                assert(subs[k] == f[a]);
            }
        }
    }
}

/// `All` lets every event through; every other filter lets through exactly
/// the events of the one variant it names (`RuleFired`, `InferenceComplete`
/// or `TensorUpdated`). Events of any other variant reach only `All`.
pub proof fn law_filter_admits_named_variant(f: EventFilter, e: TensorEvent)
    ensures
        f is All ==> accepts(f, e),
        f is RuleEventsOnly ==> (accepts(f, e) <==> e is RuleFired),
        f is InferenceEventsOnly ==> (accepts(f, e) <==> e is InferenceComplete),
        f is TensorEventsOnly ==> (accepts(f, e) <==> e is TensorUpdated),
        !(e is RuleFired) && !(e is InferenceComplete) && !(e is TensorUpdated) ==> (accepts(f, e) <==> f is All),
        accepts(f, e) && !(f is All) ==> !(e is CheckpointSaved) && !(e is GradientApplied),
{
}

} // verus!
