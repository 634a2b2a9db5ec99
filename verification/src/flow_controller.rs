//! Tensor flow controller — backpressure, rate limiting and priority-based
//! admission for tensor data flowing through a processing pipeline.
//!
//! The queue is kept ordered by priority, highest first, and by enqueue tick
//! within a priority. A tick processes items from the front while they fit in
//! the byte budget. The controller throttles once the queue holds
//! `throttle_at` items: the backpressure threshold, a fill ratio, expressed as
//! the queue length at which it is reached.

use vstd::prelude::*;

verus! {

/// Operational state of the flow controller.
#[derive(Clone, Copy, Debug, PartialEq, Eq, Structural)]
pub enum FlowState {
    /// Normal operation; items are accepted and processed at full rate.
    Running,
    /// Rate limit applied; some items may be delayed.
    Throttled,
    /// All flow halted; no items are processed.
    Paused,
    /// No new items accepted; existing items continue to drain.
    Draining,
}

/// Priority level assigned to a flow item, lowest first.
#[derive(Clone, Copy, Debug, PartialEq, Eq, PartialOrd, Ord, Structural)]
pub enum FlowPriority {
    Low,
    Normal,
    High,
    Critical,
}

/// The rank of a priority: 0 for `Low` up to 3 for `Critical`.
pub open spec fn rank(p: FlowPriority) -> nat {
    match p {
        FlowPriority::Low => 0,
        FlowPriority::Normal => 1,
        FlowPriority::High => 2,
        FlowPriority::Critical => 3,
    }
}

fn rank_of(p: FlowPriority) -> (r: u8)
    ensures
        r == rank(p),
{
    match p {
        FlowPriority::Low => 0,
        FlowPriority::Normal => 1,
        FlowPriority::High => 2,
        FlowPriority::Critical => 3,
    }
}

/// A single item flowing through the pipeline.
#[derive(Clone, Copy, Debug, PartialEq, Eq, Structural)]
pub struct FlowItem {
    pub item_id: u64,
    pub tensor_id: u64,
    pub priority: FlowPriority,
    pub size_bytes: u64,
    pub enqueued_at_tick: u64,
}

/// Limits the controller works within.
#[derive(Clone, Copy, Debug, PartialEq, Eq, Structural)]
pub struct FlowLimits {
    /// Maximum number of items the queue may hold.
    pub max_queue_size: usize,
    /// Maximum bytes to process in a single tick.
    pub max_bytes_per_tick: u64,
    /// Queue length from which the controller is throttled; `None` when the
    /// backpressure threshold is never reached.
    pub throttle_at: Option<usize>,
}

/// Cumulative statistics for the flow controller.
#[derive(Clone, Copy, Debug, PartialEq, Eq, Structural)]
pub struct FlowStats {
    pub total_admitted: u64,
    pub total_dropped: u64,
    pub total_processed: u64,
    pub total_bytes_processed: u64,
}

impl Default for FlowStats {
    fn default() -> (s: Self)
        ensures
            s == (FlowStats { total_admitted: 0, total_dropped: 0, total_processed: 0, total_bytes_processed: 0 }),
    {
        FlowStats { total_admitted: 0, total_dropped: 0, total_processed: 0, total_bytes_processed: 0 }
    }
}

// ─── The model ────────────────────────────────────────────────────────────────

/// `x` stays ahead of `y`: higher priority, or the same priority and enqueued
/// no later.
pub open spec fn ahead(x: FlowItem, y: FlowItem) -> bool {
    rank(x.priority) > rank(y.priority) || (rank(x.priority) == rank(y.priority)
        && x.enqueued_at_tick <= y.enqueued_at_tick)
}

/// The queue is in service order.
pub open spec fn in_service_order(q: Seq<FlowItem>) -> bool {
    forall|a: int, b: int| 0 <= a < b < q.len() ==> ahead(q[a], q[b])
}

/// Where an admitted item goes: after every queued item that stays ahead of it.
pub open spec fn admit_position(q: Seq<FlowItem>, item: FlowItem) -> nat
    decreases q.len(),
{
    if q.len() == 0 || !ahead(q[0], item) {
        0
    } else {
        1 + admit_position(q.drop_first(), item)
    }
}

/// How many items from the front of `q` fit one after the other in `budget` bytes.
pub open spec fn fitting(q: Seq<FlowItem>, budget: nat) -> nat
    decreases q.len(),
{
    if q.len() == 0 || q[0].size_bytes > budget {
        0
    } else {
        1 + fitting(q.drop_first(), (budget - q[0].size_bytes) as nat)
    }
}

/// The total size of a sequence of items.
pub open spec fn bytes_of(q: Seq<FlowItem>) -> nat
    decreases q.len(),
{
    if q.len() == 0 {
        0
    } else {
        (q[0].size_bytes + bytes_of(q.drop_first())) as nat
    }
}

/// Running or Throttled, by the queue length alone.
pub open spec fn fill_state(len: nat, limits: FlowLimits) -> FlowState {
    match limits.throttle_at {
        Some(t) => if len >= t {
            FlowState::Throttled
        } else {
            FlowState::Running
        },
        None => FlowState::Running,
    }
}

/// Controls the flow of tensor data through a processing pipeline.
pub struct TensorFlowController {
    queue: Vec<FlowItem>,
    state: FlowState,
    limits: FlowLimits,
    stats: FlowStats,
}

impl TensorFlowController {
    #[verifier::type_invariant]
    spec fn well_ordered(&self) -> bool {
        in_service_order(self.queue@)
    }

    /// The queued items, in service order.
    pub closed spec fn queue_view(&self) -> Seq<FlowItem> {
        self.queue@
    }

    /// The current state.
    pub closed spec fn state_view(&self) -> FlowState {
        self.state
    }

    /// The limits the controller works within.
    pub closed spec fn limits_view(&self) -> FlowLimits {
        self.limits
    }

    /// The statistics so far.
    pub closed spec fn stats_view(&self) -> FlowStats {
        self.stats
    }

    /// Create a controller with the given limits: empty queue, `Running`.
    pub fn new(limits: FlowLimits) -> (c: Self)
        ensures
            c.queue_view().len() == 0,
            c.state_view() == FlowState::Running,
            c.limits_view() == limits,
            c.stats_view() == (FlowStats { total_admitted: 0, total_dropped: 0, total_processed: 0, total_bytes_processed: 0 }),
    {
        TensorFlowController {
            queue: Vec::new(),
            state: FlowState::Running,
            limits,
            stats: FlowStats::default(),
        }
    }

    fn fill_based_state(&self) -> (st: FlowState)
        ensures
            st == fill_state(self.queue@.len(), self.limits),
    {
        match self.limits.throttle_at {
            Some(t) => if self.queue.len() >= t {
                FlowState::Throttled
            } else {
                FlowState::Running
            },
            None => FlowState::Running,
        }
    }

    /// Offer an item. A paused or draining controller, or a full queue, drops
    /// it; otherwise it is queued after every item that stays ahead of it and
    /// the state follows the queue length.
    pub fn admit_item(&mut self, item: FlowItem) -> (admitted: bool)
        requires
            old(self).stats_view().total_dropped < u64::MAX,
            old(self).stats_view().total_admitted < u64::MAX,
        ensures
            in_service_order(final(self).queue_view()),
            final(self).limits_view() == old(self).limits_view(),
            admitted == (old(self).state_view() != FlowState::Paused && old(self).state_view()
                != FlowState::Draining && old(self).queue_view().len() < old(
                self,
            ).limits_view().max_queue_size),
            !admitted ==> final(self).queue_view() == old(self).queue_view() && final(self).state_view()
                == old(self).state_view() && final(self).stats_view() == (FlowStats {
                total_dropped: (old(self).stats_view().total_dropped + 1) as u64,
                ..old(self).stats_view()
            }),
            admitted ==> final(self).queue_view() == old(self).queue_view().insert(
                admit_position(old(self).queue_view(), item) as int,
                item,
            ) && final(self).state_view() == fill_state(
                final(self).queue_view().len(),
                old(self).limits_view(),
            ) && final(self).stats_view() == (FlowStats {
                total_admitted: (old(self).stats_view().total_admitted + 1) as u64,
                ..old(self).stats_view()
            }),
    {
        proof {
            use_type_invariant(&*self);
        }
        if self.state == FlowState::Paused || self.state == FlowState::Draining {
            self.stats.total_dropped = self.stats.total_dropped + 1;
            return false;
        }
        if self.queue.len() >= self.limits.max_queue_size {
            self.stats.total_dropped = self.stats.total_dropped + 1;
            return false;
        }
        let ghost q0 = self.queue@;
        let r = rank_of(item.priority);
        let mut pos: usize = 0;
        proof {
            assert(q0.skip(0) =~= q0);
        }
        while pos < self.queue.len() && (rank_of(self.queue[pos].priority) > r || (rank_of(
            self.queue[pos].priority,
        ) == r && self.queue[pos].enqueued_at_tick <= item.enqueued_at_tick))
            invariant
                self.queue@ == q0,
                in_service_order(q0),
                r == rank(item.priority),
                pos <= q0.len(),
                forall|k: int| 0 <= k < pos ==> ahead(#[trigger] q0[k], item),
                admit_position(q0, item) == pos + admit_position(q0.skip(pos as int), item),
            decreases q0.len() - pos,
        {
            proof {
                assert(q0.skip(pos as int).drop_first() =~= q0.skip(pos + 1));
            }
            pos += 1;
        }
        proof {
            if pos < q0.len() {
                assert(!ahead(q0[pos as int], item));
                assert(q0.skip(pos as int)[0] == q0[pos as int]);
            }
            assert(admit_position(q0.skip(pos as int), item) == 0);
            let q1 = q0.insert(pos as int, item);
            assert forall|a: int, b: int| 0 <= a < b < q1.len() implies ahead(q1[a], q1[b]) by {
                if b < pos {
                    assert(q1[a] == q0[a] && q1[b] == q0[b]);
                } else if b == pos {
                    assert(q1[a] == q0[a]);
                } else if a == pos {
                    assert(q1[b] == q0[b - 1]);
                    assert(!ahead(q0[pos as int], item));
                    if b - 1 > pos {
                        assert(ahead(q0[pos as int], q0[b - 1]));
                    }
                } else if a > pos {
                    assert(q1[a] == q0[a - 1] && q1[b] == q0[b - 1]);
                } else {
                    assert(q1[a] == q0[a] && q1[b] == q0[b - 1]);
                    assert(!ahead(q0[pos as int], item));
                    assert(ahead(q0[a], item));
                    if b - 1 > pos {
                        assert(ahead(q0[pos as int], q0[b - 1]));
                    }
                }
            }
        }
        let mut queue: Vec<FlowItem> = Vec::new();
        std::mem::swap(&mut queue, &mut self.queue);
        queue.insert(pos, item);
        self.queue = queue;
        self.stats.total_admitted = self.stats.total_admitted + 1;
        self.state = self.fill_based_state();
        true
    }

    /// Process one tick: unless paused, take items from the front while they
    /// fit in the byte budget. A draining controller whose queue is now empty
    /// becomes paused; otherwise the state follows the queue length.
    pub fn process_tick(&mut self) -> (processed: Vec<FlowItem>)
        requires
            old(self).stats_view().total_processed + old(self).queue_view().len() <= u64::MAX,
            old(self).stats_view().total_bytes_processed + bytes_of(old(self).queue_view())
                <= u64::MAX,
        ensures
            in_service_order(final(self).queue_view()),
            final(self).limits_view() == old(self).limits_view(),
            old(self).state_view() == FlowState::Paused ==> processed@.len() == 0 && *final(self)
                == *old(self),
            old(self).state_view() != FlowState::Paused ==> {
                let k = fitting(
                    old(self).queue_view(),
                    old(self).limits_view().max_bytes_per_tick as nat,
                ) as int;
                &&& processed@ == old(self).queue_view().take(k)
                &&& final(self).queue_view() == old(self).queue_view().skip(k)
                &&& final(self).stats_view() == (FlowStats {
                    total_processed: (old(self).stats_view().total_processed + k) as u64,
                    total_bytes_processed: (old(self).stats_view().total_bytes_processed
                        + bytes_of(old(self).queue_view().take(k))) as u64,
                    ..old(self).stats_view()
                })
                &&& final(self).state_view() == if old(self).state_view() == FlowState::Draining
                    && final(self).queue_view().len() == 0 {
                    FlowState::Paused
                } else {
                    fill_state(final(self).queue_view().len(), old(self).limits_view())
                }
            },
    {
        proof {
            use_type_invariant(&*self);
        }
        if self.state == FlowState::Paused {
            return Vec::new();
        }
        let ghost q0 = self.queue@;
        let ghost st0 = self.stats;
        let mut processed: Vec<FlowItem> = Vec::new();
        let mut remaining = self.limits.max_bytes_per_tick;
        let mut queue: Vec<FlowItem> = Vec::new();
        std::mem::swap(&mut queue, &mut self.queue);
        let mut stats = self.stats;
        proof {
            lemma_bytes_split(q0, 0);
        }
        while queue.len() > 0 && queue[0].size_bytes <= remaining
            invariant
                in_service_order(q0),
                queue@ == q0.skip(processed@.len() as int),
                processed@ == q0.take(processed@.len() as int),
                processed@.len() <= q0.len(),
                fitting(q0, self.limits.max_bytes_per_tick as nat) == processed@.len() + fitting(
                    queue@,
                    remaining as nat,
                ),
                stats.total_processed == st0.total_processed + processed@.len(),
                stats.total_bytes_processed == st0.total_bytes_processed + bytes_of(processed@),
                stats.total_admitted == st0.total_admitted,
                stats.total_dropped == st0.total_dropped,
                st0.total_processed + q0.len() <= u64::MAX,
                st0.total_bytes_processed + bytes_of(q0) <= u64::MAX,
                bytes_of(q0) == bytes_of(q0.take(processed@.len() as int)) + bytes_of(q0.skip(processed@.len() as int)),
            decreases queue@.len(),
        {
            let ghost n: int = processed@.len() as int;
            proof {
                assert(queue@[0] == q0[n as int]);
                lemma_bytes_split(q0, n + 1);
                assert(q0.take(n + 1) =~= q0.take(n as int).push(q0[n as int]));
                lemma_bytes_push(q0.take(n as int), q0[n as int]);
                assert(queue@.drop_first() =~= q0.skip(n + 1));
            }
            remaining = remaining - queue[0].size_bytes;
            let item = queue.remove(0);
            stats.total_processed = stats.total_processed + 1;
            stats.total_bytes_processed = stats.total_bytes_processed + item.size_bytes;
            processed.push(item);
        }
        proof {
            if queue@.len() > 0 {
                assert(fitting(queue@, remaining as nat) == 0);
            }
            assert forall|a: int, b: int| 0 <= a < b < queue@.len() implies ahead(queue@[a], queue@[b]) by {
                assert(queue@[a] == q0[a + processed@.len()] && queue@[b] == q0[b + processed@.len()]);
            }
        }
        self.queue = queue;
        self.stats = stats;
        if self.state == FlowState::Draining && self.queue.len() == 0 {
            self.state = FlowState::Paused;
        } else {
            self.state = self.fill_based_state();
        }
        processed
    }

    /// Halt all flow immediately.
    pub fn pause(&mut self)
        ensures
            final(self).state_view() == FlowState::Paused,
            final(self).queue_view() == old(self).queue_view(),
            final(self).stats_view() == old(self).stats_view(),
            final(self).limits_view() == old(self).limits_view(),
            in_service_order(final(self).queue_view()),
    {
        proof {
            use_type_invariant(&*self);
        }
        self.state = FlowState::Paused;
    }

    /// Resume from `Paused`: the state then follows the queue length. Any
    /// other state is left as it is.
    pub fn resume(&mut self)
        ensures
            final(self).state_view() == if old(self).state_view() == FlowState::Paused {
                fill_state(old(self).queue_view().len(), old(self).limits_view())
            } else {
                old(self).state_view()
            },
            final(self).queue_view() == old(self).queue_view(),
            final(self).stats_view() == old(self).stats_view(),
            final(self).limits_view() == old(self).limits_view(),
            in_service_order(final(self).queue_view()),
    {
        proof {
            use_type_invariant(&*self);
        }
        if self.state == FlowState::Paused {
            self.state = self.fill_based_state();
        }
    }

    /// Stop admitting new items; allow the queue to drain.
    pub fn drain(&mut self)
        ensures
            final(self).state_view() == FlowState::Draining,
            final(self).queue_view() == old(self).queue_view(),
            final(self).stats_view() == old(self).stats_view(),
            final(self).limits_view() == old(self).limits_view(),
            in_service_order(final(self).queue_view()),
    {
        proof {
            use_type_invariant(&*self);
        }
        self.state = FlowState::Draining;
    }

    /// Current number of items waiting in the queue.
    pub fn queue_len(&self) -> (n: usize)
        ensures
            n == self.queue_view().len(),
    {
        self.queue.len()
    }

    /// The current statistics.
    pub fn stats(&self) -> (s: &FlowStats)
        ensures
            *s == self.stats_view(),
    {
        &self.stats
    }

    /// The current state.
    pub fn state(&self) -> (st: FlowState)
        ensures
            st == self.state_view(),
    {
        self.state
    }
}

proof fn lemma_bytes_push(q: Seq<FlowItem>, x: FlowItem)
    ensures
        bytes_of(q.push(x)) == bytes_of(q) + x.size_bytes,
    decreases q.len(),
{
    if q.len() > 0 {
        assert(q.push(x).drop_first() =~= q.drop_first().push(x));
        assert(q.push(x)[0] == q[0]);
        lemma_bytes_push(q.drop_first(), x);
    } else {
        assert(q.push(x).drop_first() =~= Seq::<FlowItem>::empty());
        assert(q.push(x)[0] == x);
        assert(bytes_of(Seq::<FlowItem>::empty()) == 0);
    }
}

proof fn lemma_bytes_split(q: Seq<FlowItem>, k: int)
    requires
        0 <= k <= q.len(),
    ensures
        bytes_of(q) == bytes_of(q.take(k)) + bytes_of(q.skip(k)),
    decreases k,
{
    if k == 0 {
        assert(q.take(0) =~= Seq::<FlowItem>::empty());
        assert(q.skip(0) =~= q);
    } else {
        lemma_bytes_split(q.drop_first(), k - 1);
        assert(q.take(k).drop_first() =~= q.drop_first().take(k - 1));
        assert(q.skip(k) =~= q.drop_first().skip(k - 1));
    }
}

} // verus!
