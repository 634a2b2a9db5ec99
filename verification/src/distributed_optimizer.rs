//! Distributed gradient optimizer — coordinates gradient aggregation across
//! multiple distributed training workers with staleness handling and
//! fault-tolerant worker management.
//!
//! Workers register, submit gradient updates for named layers, and the
//! optimizer aggregates them according to the chosen [`AggregationStrategy`]:
//!
//! - **Synchronous** — every active worker must submit at the current step
//!   before aggregation proceeds;
//! - **Asynchronous** — updates within a staleness window are accepted, stale
//!   ones are rejected at submission time;
//! - **FederatedAverage** — aggregates once at least `rounds` updates are
//!   pending for a layer;
//! - **GossipAverage** — aggregates once at least `fanout` updates are
//!   pending.
//!
//! The optimizer is generic over the gradient value type; the element-wise
//! combination of a layer's pending gradients is supplied by the caller.
//! Workers are kept in order of registration, pending layers in order of
//! their first pending update.

use vstd::prelude::*;
use vstd::string::StringExecFns;

verus! {

/// Opaque identifier for a training worker.
#[derive(Debug, Clone, PartialEq, Eq, Hash, PartialOrd, Ord)]
pub struct WorkerId(pub String);

impl WorkerId {
    /// Create a new [`WorkerId`] from any string-like value.
    pub fn new<S: Into<String>>(id: S) -> (w: Self)
        ensures
            call_ensures(S::into, (id,), w.0),
    {
        WorkerId(id.into())
    }

    /// The identifier as it is displayed: the string itself.
    pub fn to_string(&self) -> (s: String)
        ensures
            s@ == self.0@,
    {
        self.0.clone()
    }
}

/// Determines how and when pending updates are aggregated.
#[derive(Debug, Clone)]
pub enum AggregationStrategy {
    /// Classic barrier: all active workers must submit at the current step
    /// before any aggregation can proceed.
    Synchronous,
    /// Asynchronous aggregation: updates within `staleness_threshold` steps
    /// of the current step are accepted; older updates are rejected.
    Asynchronous {
        /// Maximum number of steps behind the global step that a worker may be.
        staleness_threshold: u64,
    },
    /// Aggregate every time at least `rounds` worker updates have accumulated
    /// for a layer (federated learning style).
    FederatedAverage {
        /// Minimum number of updates needed before aggregation.
        rounds: u32,
    },
    /// Aggregate when at least `fanout` updates are available (gossip style).
    GossipAverage {
        /// Minimum number of updates needed before aggregation.
        fanout: usize,
    },
}

/// Liveness and bookkeeping state for a single registered worker.
#[derive(Debug, Clone)]
pub struct WorkerState {
    /// The worker's identifier.
    pub worker_id: WorkerId,
    /// The most recent training step for which this worker has submitted an update.
    pub latest_step: u64,
    /// Wall-clock timestamp of the most recent update from this worker.
    pub last_seen: u64,
    /// Whether the worker is currently considered active.
    pub active: bool,
    /// Cumulative number of updates submitted since registration.
    pub total_updates: u64,
}

/// Errors that can arise from distributed optimizer operations.
#[derive(Debug, Clone, PartialEq, Eq)]
pub enum OptimizerDistError {
    /// The worker is not registered with this optimizer.
    WorkerNotFound(String),
    /// The submitted update is too far behind the current global step.
    StaleUpdate { worker: String, step: u64, current: u64 },
    /// The gradient dimensions do not match the expected layer width.
    DimensionMismatch { layer: String, expected: usize, got: usize },
}

/// The character of decimal digit `d`.
pub open spec fn digit_char(d: nat) -> char {
    (d + 48) as char
}

/// The decimal digits of `n`, most significant first, without leading zeros.
pub open spec fn decimal(n: nat) -> Seq<char>
    decreases n,
{
    if n < 10 {
        seq![digit_char(n)]
    } else {
        decimal(n / 10).push(digit_char(n % 10))
    }
}

/// The message an error displays.
pub open spec fn error_message(e: OptimizerDistError) -> Seq<char> {
    match e {
        OptimizerDistError::WorkerNotFound(id) => "worker not found: "@ + id@,
        OptimizerDistError::StaleUpdate { worker, step, current } => "stale update from worker "@
            + worker@ + ": update step "@ + decimal(step as nat) + ", current step "@ + decimal(
            current as nat,
        ),
        OptimizerDistError::DimensionMismatch { layer, expected, got } =>
            "dimension mismatch for layer "@ + layer@ + ": expected "@ + decimal(expected as nat)
            + ", got "@ + decimal(got as nat),
    }
}

/// The one-character string of decimal digit `d`.
fn digit_str(d: u64) -> (s: &'static str)
    requires
        d < 10,
    ensures
        s@ == seq![digit_char(d as nat)],
{
    proof {
        reveal_strlit("0");
        reveal_strlit("1");
        reveal_strlit("2");
        reveal_strlit("3");
        reveal_strlit("4");
        reveal_strlit("5");
        reveal_strlit("6");
        reveal_strlit("7");
        reveal_strlit("8");
        reveal_strlit("9");
    }
    let s = if d == 0 {
        "0"
    } else if d == 1 {
        "1"
    } else if d == 2 {
        "2"
    } else if d == 3 {
        "3"
    } else if d == 4 {
        "4"
    } else if d == 5 {
        "5"
    } else if d == 6 {
        "6"
    } else if d == 7 {
        "7"
    } else if d == 8 {
        "8"
    } else {
        "9"
    };
    assert(s@ =~= seq![digit_char(d as nat)]);
    s
}

/// Render `n` in decimal, as `u64`'s `to_string` does: its digits, most
/// significant first, without leading zeros.
pub(crate) fn decimal_string(n: u64) -> (s: String)
    ensures
        s@ == decimal(n as nat),
    decreases n,
{
    if n < 10 {
        digit_str(n).to_owned()
    } else {
        let mut s = decimal_string(n / 10);
        s.append(digit_str(n % 10));
        s
    }
}

impl OptimizerDistError {
    /// The human-readable message of the error.
    pub fn to_string(&self) -> (s: String)
        ensures
            s@ == error_message(*self),
    {
        match self {
            OptimizerDistError::WorkerNotFound(id) => {
                let mut s = "worker not found: ".to_owned();
                s.append(id.as_str());
                s
            },
            OptimizerDistError::StaleUpdate { worker, step, current } => {
                let mut s = "stale update from worker ".to_owned();
                s.append(worker.as_str());
                s.append(": update step ");
                let st = decimal_string(*step);
                s.append(st.as_str());
                s.append(", current step ");
                let cu = decimal_string(*current);
                s.append(cu.as_str());
                s
            },
            OptimizerDistError::DimensionMismatch { layer, expected, got } => {
                let mut s = "dimension mismatch for layer ".to_owned();
                s.append(layer.as_str());
                s.append(": expected ");
                let ex = decimal_string(*expected as u64);
                s.append(ex.as_str());
                s.append(", got ");
                let g = decimal_string(*got as u64);
                s.append(g.as_str());
                s
            },
        }
    }
}

/// A point-in-time snapshot of optimizer statistics.
#[derive(Debug, Clone)]
pub struct DistOptimizerStats {
    pub total_workers: usize,
    pub active_workers: usize,
    pub current_step: u64,
    pub total_aggregations: u64,
    pub dropped_updates: u64,
    pub pending_layers: usize,
}

// ─── Updates and aggregates ──────────────────────────────────────────────────

/// A single gradient update submitted by one worker for one named layer.
#[derive(Debug)]
pub struct GradientUpdate<G> {
    /// The worker that produced this update.
    pub worker_id: WorkerId,
    /// The layer these gradients belong to.
    pub layer_id: String,
    /// Gradient values (one per parameter in the layer).
    pub gradients: Vec<G>,
    /// The training step at which these gradients were computed.
    pub step: u64,
    /// Timestamp at which the update was created.
    pub timestamp: u64,
}

/// The result of aggregating gradient updates for a single layer.
#[derive(Debug)]
pub struct AggregatedGradient<G> {
    /// The layer these gradients belong to.
    pub layer_id: String,
    /// Combination (element-wise mean) of all contributing worker gradients.
    pub values: Vec<G>,
    /// How many updates contributed to this aggregation.
    pub contributing_workers: usize,
    /// The global step at which this aggregation was produced.
    pub step: u64,
}

/// The pending updates of one layer, in order of submission.
#[derive(Debug)]
pub struct LayerQueue<G> {
    pub layer_id: String,
    pub updates: Vec<GradientUpdate<G>>,
}

fn copy_values<G: Copy>(v: &Vec<G>) -> (r: Vec<G>)
    ensures
        r@ == v@,
{
    let mut r: Vec<G> = Vec::new();
    let mut k: usize = 0;
    while k < v.len()
        invariant
            k <= v@.len(),
            r@ == v@.take(k as int),
        decreases v@.len() - k,
    {
        r.push(v[k]);
        proof {
            assert(r@ =~= v@.take(k + 1));
        }
        k += 1;
    }
    proof {
        assert(v@.take(v@.len() as int) =~= v@);
    }
    r
}

/// `a` and `b` hold the same aggregate.
pub open spec fn same_aggregate<G>(a: AggregatedGradient<G>, b: AggregatedGradient<G>) -> bool {
    &&& a.layer_id@ == b.layer_id@
    &&& a.values@ == b.values@
    &&& a.contributing_workers == b.contributing_workers
    &&& a.step == b.step
}

impl<G: Copy> AggregatedGradient<G> {
    /// A copy of the aggregate.
    pub fn duplicate(&self) -> (r: Self)
        ensures
            same_aggregate(r, *self),
    {
        AggregatedGradient {
            layer_id: self.layer_id.clone(),
            values: copy_values(&self.values),
            contributing_workers: self.contributing_workers,
            step: self.step,
        }
    }
}

// ─── The model ────────────────────────────────────────────────────────────────

/// Worker `k` of `ws` is the one named `id`.
pub open spec fn worker_at(ws: Seq<WorkerState>, id: Seq<char>, k: int) -> bool {
    0 <= k < ws.len() && ws[k].worker_id.0@ == id
}

/// A worker named `id` is registered.
pub open spec fn is_worker(ws: Seq<WorkerState>, id: Seq<char>) -> bool {
    exists|k: int| worker_at(ws, id, k)
}

/// Queue `k` of `ps` holds the pending updates of `layer`.
pub open spec fn queue_at<G>(ps: Seq<LayerQueue<G>>, layer: Seq<char>, k: int) -> bool {
    0 <= k < ps.len() && ps[k].layer_id@ == layer
}

/// Some updates of `layer` are pending.
pub open spec fn has_queue<G>(ps: Seq<LayerQueue<G>>, layer: Seq<char>) -> bool {
    exists|k: int| queue_at(ps, layer, k)
}

/// Aggregate `k` of `ags` is the last one of `layer`.
pub open spec fn agg_at<G>(ags: Seq<AggregatedGradient<G>>, layer: Seq<char>, k: int) -> bool {
    0 <= k < ags.len() && ags[k].layer_id@ == layer
}

/// Some aggregate of `layer` was produced.
pub open spec fn has_agg<G>(ags: Seq<AggregatedGradient<G>>, layer: Seq<char>) -> bool {
    exists|k: int| agg_at(ags, layer, k)
}

/// The number of active workers.
pub open spec fn active_count(ws: Seq<WorkerState>) -> nat
    decreases ws.len(),
{
    if ws.len() == 0 {
        0
    } else {
        active_count(ws.drop_last()) + if ws.last().active {
            1nat
        } else {
            0nat
        }
    }
}

/// The active workers, in order.
pub open spec fn active_of(ws: Seq<WorkerState>) -> Seq<WorkerState>
    decreases ws.len(),
{
    if ws.len() == 0 {
        seq![]
    } else if ws.last().active {
        active_of(ws.drop_last()).push(ws.last())
    } else {
        active_of(ws.drop_last())
    }
}

/// An update at `step` is too far behind `current` for the strategy.
pub open spec fn is_stale(strategy: AggregationStrategy, current: u64, step: u64) -> bool {
    match strategy {
        AggregationStrategy::Asynchronous { staleness_threshold } => (if current > step {
            current - step
        } else {
            0
        }) > staleness_threshold,
        _ => false,
    }
}

/// The layer of `u` has pending updates whose width differs from `u`'s.
pub open spec fn mismatched<G>(ps: Seq<LayerQueue<G>>, u: GradientUpdate<G>) -> bool {
    exists|k: int|
        queue_at(ps, u.layer_id@, k) && ps[k].updates@[0].gradients@.len() != u.gradients@.len()
}

/// Worker `id` submitted an update at step `current` among `q`.
pub open spec fn submitted_at<G>(q: Seq<GradientUpdate<G>>, id: Seq<char>, current: u64) -> bool {
    exists|j: int| 0 <= j < q.len() && q[j].step == current && q[j].worker_id.0@ == id
}

/// The pending updates `q` of a layer may be aggregated.
pub open spec fn quorum<G>(strategy: AggregationStrategy, ws: Seq<WorkerState>, q: Seq<GradientUpdate<G>>, current: u64) -> bool {
    match strategy {
        AggregationStrategy::Synchronous => active_count(ws) > 0 && forall|k: int|
            0 <= k < ws.len() && ws[k].active ==> submitted_at(q, #[trigger] ws[k].worker_id.0@, current),
        AggregationStrategy::Asynchronous { .. } => q.len() > 0,
        AggregationStrategy::FederatedAverage { rounds } => q.len() >= rounds,
        AggregationStrategy::GossipAverage { fanout } => q.len() >= fanout,
    }
}

/// A worker's state after one accepted update at `step`, seen at `now`.
pub open spec fn after_submit(w: WorkerState, step: u64, now: u64) -> WorkerState {
    WorkerState {
        latest_step: if step > w.latest_step {
            step
        } else {
            w.latest_step
        },
        last_seen: now,
        total_updates: (w.total_updates + 1) as u64,
        ..w
    }
}

/// A worker's state after an eviction pass with `cutoff`.
pub open spec fn after_evict(w: WorkerState, cutoff: u64) -> WorkerState {
    if w.active && w.last_seen < cutoff {
        WorkerState { active: false, ..w }
    } else {
        w
    }
}

/// The number of workers an eviction pass with `cutoff` deactivates.
pub open spec fn evicted_count(ws: Seq<WorkerState>, cutoff: u64) -> nat
    decreases ws.len(),
{
    if ws.len() == 0 {
        0
    } else {
        evicted_count(ws.drop_last(), cutoff) + if ws.last().active && ws.last().last_seen < cutoff {
            1nat
        } else {
            0nat
        }
    }
}

/// Registered workers have distinct names, pending layers are distinct and
/// each has an update, and each layer has at most one last aggregate.
pub open spec fn optimizer_wf<G>(ws: Seq<WorkerState>, ps: Seq<LayerQueue<G>>, ags: Seq<AggregatedGradient<G>>) -> bool {
    &&& forall|a: int, b: int| 0 <= a < b < ws.len() ==> ws[a].worker_id.0@ != ws[b].worker_id.0@
    &&& forall|a: int, b: int| 0 <= a < b < ps.len() ==> ps[a].layer_id@ != ps[b].layer_id@
    &&& forall|a: int| 0 <= a < ps.len() ==> (#[trigger] ps[a]).updates@.len() > 0
    &&& forall|a: int, b: int| 0 <= a < b < ags.len() ==> ags[a].layer_id@ != ags[b].layer_id@
}

/// `p1` is `p0` with update `u` appended to its layer's queue, a new queue
/// being added at the end for a layer with nothing pending.
pub open spec fn pushed_to_queue<G>(p0: Seq<LayerQueue<G>>, p1: Seq<LayerQueue<G>>, u: GradientUpdate<G>) -> bool {
    if has_queue(p0, u.layer_id@) {
        &&& p1.len() == p0.len()
        &&& forall|i: int|
            0 <= i < p0.len() ==> if queue_at(p0, u.layer_id@, i) {
                (#[trigger] p1[i]).layer_id == p0[i].layer_id && p1[i].updates@ == p0[i].updates@.push(u)
            } else {
                p1[i] == p0[i]
            }
    } else {
        &&& p1.len() == p0.len() + 1
        &&& forall|i: int| 0 <= i < p0.len() ==> #[trigger] p1[i] == p0[i]
        &&& p1[p0.len() as int].layer_id@ == u.layer_id@
        &&& p1[p0.len() as int].updates@ == seq![u]
    }
}

/// `a1` is `a0` with `agg` as the last aggregate of its layer.
pub open spec fn stored_aggregate<G>(a0: Seq<AggregatedGradient<G>>, a1: Seq<AggregatedGradient<G>>, agg: AggregatedGradient<G>) -> bool {
    if has_agg(a0, agg.layer_id@) {
        &&& a1.len() == a0.len()
        &&& forall|i: int|
            0 <= i < a0.len() ==> if agg_at(a0, agg.layer_id@, i) {
                same_aggregate(#[trigger] a1[i], agg)
            } else {
                a1[i] == a0[i]
            }
    } else {
        &&& a1.len() == a0.len() + 1
        &&& forall|i: int| 0 <= i < a0.len() ==> #[trigger] a1[i] == a0[i]
        &&& same_aggregate(a1[a0.len() as int], agg)
    }
}

// ─── The optimizer ────────────────────────────────────────────────────────────

/// Coordinator for distributed gradient aggregation across multiple workers.
pub struct DistributedOptimizer<G> {
    /// Aggregation strategy that governs when and how updates are combined.
    pub strategy: AggregationStrategy,
    /// Registered workers, in order of registration.
    workers: Vec<WorkerState>,
    /// Pending gradient updates, per layer.
    pending: Vec<LayerQueue<G>>,
    /// Most recently aggregated gradients, per layer.
    aggregated: Vec<AggregatedGradient<G>>,
    /// The global training step counter.
    pub current_step: u64,
    /// Number of updates that were rejected as stale.
    pub dropped_updates: u64,
    /// Cumulative number of successful aggregations.
    total_aggregations: u64,
}

impl<G: Copy> DistributedOptimizer<G> {
    /// The registered workers, in order of registration.
    pub closed spec fn workers_view(&self) -> Seq<WorkerState> {
        self.workers@
    }

    /// The pending updates, per layer.
    pub closed spec fn pending_view(&self) -> Seq<LayerQueue<G>> {
        self.pending@
    }

    /// The last aggregate of each layer.
    pub closed spec fn aggregated_view(&self) -> Seq<AggregatedGradient<G>> {
        self.aggregated@
    }

    /// The number of successful aggregations.
    pub closed spec fn total_aggregations_view(&self) -> u64 {
        self.total_aggregations
    }

    /// The aggregation strategy.
    pub closed spec fn strategy_view(&self) -> AggregationStrategy {
        self.strategy
    }

    /// The global training step.
    pub closed spec fn step_view(&self) -> u64 {
        self.current_step
    }

    /// The number of updates rejected as stale.
    pub closed spec fn dropped_view(&self) -> u64 {
        self.dropped_updates
    }

    /// The optimizer's bookkeeping is consistent.
    pub open spec fn wf(&self) -> bool {
        optimizer_wf(self.workers_view(), self.pending_view(), self.aggregated_view())
    }

    /// Create a new optimizer with the given aggregation strategy.
    pub fn new(strategy: AggregationStrategy) -> (o: Self)
        ensures
            o.wf(),
            o.strategy_view() == strategy,
            o.workers_view().len() == 0,
            o.pending_view().len() == 0,
            o.aggregated_view().len() == 0,
            o.step_view() == 0,
            o.dropped_view() == 0,
            o.total_aggregations_view() == 0,
    {
        DistributedOptimizer {
            strategy,
            workers: Vec::new(),
            pending: Vec::new(),
            aggregated: Vec::new(),
            current_step: 0,
            dropped_updates: 0,
            total_aggregations: 0,
        }
    }

    fn worker_position(&self, id: &WorkerId) -> (r: Option<usize>)
        ensures
            match r {
                Some(k) => worker_at(self.workers@, id.0@, k as int),
                None => !is_worker(self.workers@, id.0@),
            },
    {
        let mut k: usize = 0;
        while k < self.workers.len()
            invariant
                k <= self.workers@.len(),
                forall|j: int| 0 <= j < k ==> self.workers@[j].worker_id.0@ != id.0@,
            decreases self.workers@.len() - k,
        {
            if self.workers[k].worker_id.0 == id.0 {
                return Some(k);
            }
            k += 1;
        }
        None
    }

    fn queue_position(&self, layer: &String) -> (r: Option<usize>)
        ensures
            match r {
                Some(k) => queue_at(self.pending@, layer@, k as int),
                None => !has_queue(self.pending@, layer@),
            },
    {
        let mut k: usize = 0;
        while k < self.pending.len()
            invariant
                k <= self.pending@.len(),
                forall|j: int| 0 <= j < k ==> self.pending@[j].layer_id@ != layer@,
            decreases self.pending@.len() - k,
        {
            if self.pending[k].layer_id == *layer {
                return Some(k);
            }
            k += 1;
        }
        None
    }

    fn aggregate_position(&self, layer: &String) -> (r: Option<usize>)
        ensures
            match r {
                Some(k) => agg_at(self.aggregated@, layer@, k as int),
                None => !has_agg(self.aggregated@, layer@),
            },
    {
        let mut k: usize = 0;
        while k < self.aggregated.len()
            invariant
                k <= self.aggregated@.len(),
                forall|j: int| 0 <= j < k ==> self.aggregated@[j].layer_id@ != layer@,
            decreases self.aggregated@.len() - k,
        {
            if self.aggregated[k].layer_id == *layer {
                return Some(k);
            }
            k += 1;
        }
        None
    }

    /// Register a worker.
    ///
    /// Returns `true` if the worker was newly registered, `false` if it was
    /// already present (even if inactive).
    pub fn register_worker(&mut self, worker_id: WorkerId) -> (added: bool)
        requires
            old(self).wf(),
        ensures
            final(self).wf(),
            added == !is_worker(old(self).workers_view(), worker_id.0@),
            added ==> final(self).workers_view() == old(self).workers_view().push(
                WorkerState { worker_id, latest_step: 0, last_seen: 0, active: true, total_updates: 0 },
            ),
            !added ==> final(self).workers_view() == old(self).workers_view(),
            final(self).pending_view() == old(self).pending_view(),
            final(self).aggregated_view() == old(self).aggregated_view(),
            final(self).total_aggregations_view() == old(self).total_aggregations_view(),
            final(self).step_view() == old(self).step_view(),
            final(self).dropped_view() == old(self).dropped_view(),
            final(self).strategy_view() == old(self).strategy_view(),
    {
        if self.worker_position(&worker_id).is_some() {
            return false;
        }
        let ghost w0 = self.workers@;
        self.workers.push(
            WorkerState { worker_id, latest_step: 0, last_seen: 0, active: true, total_updates: 0 },
        );
        proof {
            assert forall|a: int, b: int| 0 <= a < b < self.workers@.len() implies self.workers@[a].worker_id.0@
                != self.workers@[b].worker_id.0@ by {
                if b == w0.len() {
                    assert(!worker_at(w0, self.workers@[b].worker_id.0@, a));
                } else {
                    assert(self.workers@[a] == w0[a] && self.workers@[b] == w0[b]);
                }
            }
        }
        true
    }

    /// Mark a worker as inactive (soft-deregister).
    ///
    /// Returns `true` if the worker existed and was marked inactive, `false`
    /// if it was not found.
    pub fn deregister_worker(&mut self, worker_id: &WorkerId) -> (found: bool)
        requires
            old(self).wf(),
        ensures
            final(self).wf(),
            found == is_worker(old(self).workers_view(), worker_id.0@),
            forall|k: int|
                worker_at(old(self).workers_view(), worker_id.0@, k) ==> final(self).workers_view()
                    == old(self).workers_view().update(
                    k,
                    WorkerState { active: false, ..#[trigger] old(self).workers_view()[k] },
                ),
            !found ==> final(self).workers_view() == old(self).workers_view(),
            final(self).pending_view() == old(self).pending_view(),
            final(self).aggregated_view() == old(self).aggregated_view(),
            final(self).total_aggregations_view() == old(self).total_aggregations_view(),
            final(self).step_view() == old(self).step_view(),
            final(self).dropped_view() == old(self).dropped_view(),
            final(self).strategy_view() == old(self).strategy_view(),
    {
        match self.worker_position(worker_id) {
            Some(k) => {
                let ghost w0 = self.workers@;
                let mut workers: Vec<WorkerState> = Vec::new();
                std::mem::swap(&mut workers, &mut self.workers);
                let w = workers.remove(k);
                let updated = WorkerState { active: false, ..w };
                workers.insert(k, updated);
                proof {
                    assert(workers@ =~= w0.update(k as int, WorkerState { active: false, ..w0[k as int] }));
                    assert forall|j: int| worker_at(w0, worker_id.0@, j) implies j == k by {
                        if j != k {
                            assert(w0[j].worker_id.0@ == w0[k as int].worker_id.0@);
                        }
                    }
                    assert forall|a: int, b: int| 0 <= a < b < workers@.len() implies workers@[a].worker_id.0@
                        != workers@[b].worker_id.0@ by {
                        assert(workers@[a].worker_id == w0[a].worker_id);
                        assert(workers@[b].worker_id == w0[b].worker_id);
                    }
                }
                self.workers = workers;
                true
            },
            None => false,
        }
    }

    /// Submit a gradient update from a worker, seen at `now`.
    ///
    /// # Errors
    ///
    /// - [`OptimizerDistError::WorkerNotFound`] if the worker is not registered.
    /// - [`OptimizerDistError::StaleUpdate`] for the asynchronous strategy when
    ///   the update is too far behind the global step; it counts as dropped.
    /// - [`OptimizerDistError::DimensionMismatch`] when the gradient width
    ///   differs from that of the updates already pending for the layer.
    pub fn submit_update(&mut self, update: GradientUpdate<G>, now: u64) -> (r: Result<(), OptimizerDistError>)
        requires
            old(self).wf(),
            is_worker(old(self).workers_view(), update.worker_id.0@) && is_stale(
                old(self).strategy_view(),
                old(self).step_view(),
                update.step,
            ) ==> old(self).dropped_view() < u64::MAX,
            forall|k: int|
                worker_at(old(self).workers_view(), update.worker_id.0@, k) ==> (#[trigger] old(
                    self,
                ).workers_view()[k]).total_updates < u64::MAX,
        ensures
            final(self).wf(),
            final(self).strategy_view() == old(self).strategy_view(),
            final(self).step_view() == old(self).step_view(),
            final(self).aggregated_view() == old(self).aggregated_view(),
            final(self).total_aggregations_view() == old(self).total_aggregations_view(),
            !is_worker(old(self).workers_view(), update.worker_id.0@) ==> {
                &&& final(self).workers_view() == old(self).workers_view()
                &&& final(self).pending_view() == old(self).pending_view()
                &&& final(self).dropped_view() == old(self).dropped_view()
                &&& match r {
                    Err(OptimizerDistError::WorkerNotFound(w)) => w@ == update.worker_id.0@,
                    _ => false,
                }
            },
            is_worker(old(self).workers_view(), update.worker_id.0@) && is_stale(
                old(self).strategy_view(),
                old(self).step_view(),
                update.step,
            ) ==> {
                &&& final(self).workers_view() == old(self).workers_view()
                &&& final(self).pending_view() == old(self).pending_view()
                &&& final(self).dropped_view() == old(self).dropped_view() + 1
                &&& match r {
                    Err(OptimizerDistError::StaleUpdate { worker, step, current }) => worker@
                        == update.worker_id.0@ && step == update.step && current == old(self).step_view(),
                    _ => false,
                }
            },
            is_worker(old(self).workers_view(), update.worker_id.0@) && !is_stale(
                old(self).strategy_view(),
                old(self).step_view(),
                update.step,
            ) && mismatched(old(self).pending_view(), update) ==> {
                &&& final(self).workers_view() == old(self).workers_view()
                &&& final(self).pending_view() == old(self).pending_view()
                &&& final(self).dropped_view() == old(self).dropped_view()
                &&& match r {
                    Err(OptimizerDistError::DimensionMismatch { layer, expected, got }) => layer@
                        == update.layer_id@ && got == update.gradients@.len() && forall|j: int|
                        queue_at(old(self).pending_view(), update.layer_id@, j) ==> expected == (
                        #[trigger] old(self).pending_view()[j]).updates@[0].gradients@.len(),
                    _ => false,
                }
            },
            is_worker(old(self).workers_view(), update.worker_id.0@) && !is_stale(
                old(self).strategy_view(),
                old(self).step_view(),
                update.step,
            ) && !mismatched(old(self).pending_view(), update) ==> {
                &&& r is Ok
                &&& final(self).dropped_view() == old(self).dropped_view()
                &&& forall|k: int|
                    worker_at(old(self).workers_view(), update.worker_id.0@, k) ==> final(self).workers_view()
                        == old(self).workers_view().update(
                        k,
                        after_submit(#[trigger] old(self).workers_view()[k], update.step, now),
                    )
                &&& pushed_to_queue(old(self).pending_view(), final(self).pending_view(), update)
            },
    {
        let wk = match self.worker_position(&update.worker_id) {
            Some(k) => k,
            None => {
                return Err(OptimizerDistError::WorkerNotFound(update.worker_id.0.clone()));
            },
        };
        proof {
            assert(is_worker(self.workers@, update.worker_id.0@));
            assert forall|j: int| worker_at(self.workers@, update.worker_id.0@, j) implies j == wk by {
                if j != wk {
                    assert(self.workers@[j].worker_id.0@ == self.workers@[wk as int].worker_id.0@);
                }
            }
        }
        match &self.strategy {
            AggregationStrategy::Asynchronous { staleness_threshold } => {
                let staleness = if self.current_step > update.step {
                    self.current_step - update.step
                } else {
                    0
                };
                if staleness > *staleness_threshold {
                    self.dropped_updates = self.dropped_updates + 1;
                    return Err(
                        OptimizerDistError::StaleUpdate {
                            worker: update.worker_id.0.clone(),
                            step: update.step,
                            current: self.current_step,
                        },
                    );
                }
            },
            _ => {},
        }
        let grad_len = update.gradients.len();
        let qpos = self.queue_position(&update.layer_id);
        proof {
            assert forall|j: int| queue_at(self.pending@, update.layer_id@, j) implies qpos == Some(
                j as usize,
            ) by {
                if qpos is Some {
                    let q = qpos->0 as int;
                    if j != q {
                        assert(self.pending@[j].layer_id@ == self.pending@[q].layer_id@);
                    }
                }
            }
        }
        match qpos {
            Some(j) => {
                let expected = self.pending[j].updates[0].gradients.len();
                if grad_len != expected {
                    return Err(
                        OptimizerDistError::DimensionMismatch {
                            layer: update.layer_id.clone(),
                            expected,
                            got: grad_len,
                        },
                    );
                }
            },
            None => {},
        }
        let ghost w0 = self.workers@;
        let ghost p0 = self.pending@;
        let w = self.workers.remove(wk);
        let latest = if update.step > w.latest_step {
            update.step
        } else {
            w.latest_step
        };
        let nw = WorkerState {
            worker_id: w.worker_id,
            latest_step: latest,
            last_seen: now,
            active: w.active,
            total_updates: w.total_updates + 1,
        };
        self.workers.insert(wk, nw);
        proof {
            assert(self.workers@ =~= w0.update(wk as int, after_submit(w0[wk as int], update.step, now)));
            assert forall|a: int, b: int| 0 <= a < b < self.workers@.len() implies self.workers@[a].worker_id.0@
                != self.workers@[b].worker_id.0@ by {
                assert(self.workers@[a].worker_id == w0[a].worker_id);
                assert(self.workers@[b].worker_id == w0[b].worker_id);
            }
        }
        let ghost u = update;
        match qpos {
            Some(j) => {
                let mut q = self.pending.remove(j);
                q.updates.push(update);
                self.pending.insert(j, q);
                proof {
                    assert forall|i: int| 0 <= i < p0.len() implies if queue_at(p0, u.layer_id@, i) {
                        (#[trigger] self.pending@[i]).layer_id == p0[i].layer_id && self.pending@[i].updates@
                            == p0[i].updates@.push(u)
                    } else {
                        self.pending@[i] == p0[i]
                    } by {
                        if i < j {
                            assert(self.pending@[i] == p0[i]);
                        } else if i > j {
                            assert(self.pending@[i] == p0[i]);
                        }
                    }
                    assert forall|a: int, b: int| 0 <= a < b < self.pending@.len() implies self.pending@[a].layer_id@
                        != self.pending@[b].layer_id@ by {
                        assert(self.pending@[a].layer_id == p0[a].layer_id);
                        assert(self.pending@[b].layer_id == p0[b].layer_id);
                    }
                    assert forall|a: int| 0 <= a < self.pending@.len() implies (#[trigger] self.pending@[a]).updates@.len() > 0 by {
                        if a != j {
                            assert(self.pending@[a] == p0[a]);
                        }
                    }
                }
            },
            None => {
                let layer = update.layer_id.clone();
                let mut v: Vec<GradientUpdate<G>> = Vec::new();
                v.push(update);
                self.pending.push(LayerQueue { layer_id: layer, updates: v });
                proof {
                    assert(self.pending@[p0.len() as int].updates@ =~= seq![u]);
                    assert forall|a: int, b: int| 0 <= a < b < self.pending@.len() implies self.pending@[a].layer_id@
                        != self.pending@[b].layer_id@ by {
                        if b == p0.len() {
                            assert(!queue_at(p0, u.layer_id@, a));
                        } else {
                            assert(self.pending@[a] == p0[a] && self.pending@[b] == p0[b]);
                        }
                    }
                    assert forall|a: int| 0 <= a < self.pending@.len() implies (#[trigger] self.pending@[a]).updates@.len() > 0 by {
                        if a < p0.len() {
                            assert(self.pending@[a] == p0[a]);
                        }
                    }
                }
            },
        }
        Ok(())
    }

    /// Number of currently active workers.
    pub fn active_worker_count(&self) -> (n: usize)
        ensures
            n == active_count(self.workers_view()),
    {
        let mut n: usize = 0;
        let mut k: usize = 0;
        while k < self.workers.len()
            invariant
                k <= self.workers@.len(),
                n == active_count(self.workers@.take(k as int)),
                n <= k,
            decreases self.workers@.len() - k,
        {
            proof {
                assert(self.workers@.take(k + 1).drop_last() =~= self.workers@.take(k as int));
            }
            if self.workers[k].active {
                n = n + 1;
            }
            k += 1;
        }
        proof {
            assert(self.workers@.take(self.workers@.len() as int) =~= self.workers@);
        }
        n
    }

    /// Worker `id` submitted for the current step among the pending updates
    /// of layer `j`.
    fn submitted_now(&self, j: usize, id: &WorkerId) -> (b: bool)
        requires
            j < self.pending@.len(),
        ensures
            b == submitted_at(self.pending@[j as int].updates@, id.0@, self.current_step),
    {
        let q = &self.pending[j].updates;
        let mut k: usize = 0;
        while k < q.len()
            invariant
                k <= q@.len(),
                q@ == self.pending@[j as int].updates@,
                forall|i: int| 0 <= i < k ==> !(q@[i].step == self.current_step && q@[i].worker_id.0@ == id.0@),
            decreases q@.len() - k,
        {
            if q[k].step == self.current_step && q[k].worker_id.0 == id.0 {
                return true;
            }
            k += 1;
        }
        false
    }

    /// The strategy's quorum holds for the pending updates of layer `j`.
    fn quorum_met(&self, j: usize) -> (b: bool)
        requires
            j < self.pending@.len(),
        ensures
            b == quorum(self.strategy, self.workers@, self.pending@[j as int].updates@, self.current_step),
    {
        let n = self.pending[j].updates.len();
        match &self.strategy {
            AggregationStrategy::Synchronous => {
                if self.active_worker_count() == 0 {
                    return false;
                }
                let mut k: usize = 0;
                while k < self.workers.len()
                    invariant
                        j < self.pending@.len(),
                        k <= self.workers@.len(),
                        self.strategy is Synchronous,
                        active_count(self.workers@) > 0,
                        forall|i: int|
                            0 <= i < k && self.workers@[i].active ==> submitted_at(
                                self.pending@[j as int].updates@,
                                #[trigger] self.workers@[i].worker_id.0@,
                                self.current_step,
                            ),
                    decreases self.workers@.len() - k,
                {
                    if self.workers[k].active && !self.submitted_now(j, &self.workers[k].worker_id) {
                        proof {
                            assert(self.workers@[k as int].active && !submitted_at(
                                self.pending@[j as int].updates@,
                                self.workers@[k as int].worker_id.0@,
                                self.current_step,
                            ));
                        }
                        return false;
                    }
                    k += 1;
                }
                true
            },
            AggregationStrategy::Asynchronous { .. } => n > 0,
            AggregationStrategy::FederatedAverage { rounds } => n >= *rounds as usize,
            AggregationStrategy::GossipAverage { fanout } => n >= *fanout,
        }
    }

    /// Attempt to aggregate the pending updates of `layer_id`, combining
    /// their gradients with `combine`.
    ///
    /// Returns the aggregate if the strategy's quorum condition is satisfied,
    /// `None` otherwise. On success the layer's pending queue is cleared and
    /// the result is kept as the layer's last aggregate.
    pub fn try_aggregate<F: Fn(&Vec<GradientUpdate<G>>) -> Vec<G>>(&mut self, layer_id: &str, combine: F) -> (r: Option<AggregatedGradient<G>>)
        requires
            old(self).wf(),
            forall|v: &Vec<GradientUpdate<G>>| combine.requires((v,)),
            old(self).total_aggregations_view() < u64::MAX,
        ensures
            final(self).wf(),
            final(self).strategy_view() == old(self).strategy_view(),
            final(self).step_view() == old(self).step_view(),
            final(self).dropped_view() == old(self).dropped_view(),
            final(self).workers_view() == old(self).workers_view(),
            (forall|j: int|
                queue_at(old(self).pending_view(), layer_id@, j) ==> !quorum(
                    old(self).strategy_view(),
                    old(self).workers_view(),
                    (#[trigger] old(self).pending_view()[j]).updates@,
                    old(self).step_view(),
                )) ==> {
                &&& r is None
                &&& final(self).pending_view() == old(self).pending_view()
                &&& final(self).aggregated_view() == old(self).aggregated_view()
                &&& final(self).total_aggregations_view() == old(self).total_aggregations_view()
            },
            forall|j: int|
                queue_at(old(self).pending_view(), layer_id@, j) && quorum(
                    old(self).strategy_view(),
                    old(self).workers_view(),
                    (#[trigger] old(self).pending_view()[j]).updates@,
                    old(self).step_view(),
                ) ==> match r {
                    Some(agg) => {
                        &&& agg.layer_id@ == layer_id@
                        &&& combine.ensures((&old(self).pending_view()[j].updates,), agg.values)
                        &&& agg.contributing_workers == old(self).pending_view()[j].updates@.len()
                        &&& agg.step == old(self).step_view()
                        &&& final(self).pending_view() == old(self).pending_view().remove(j)
                        &&& stored_aggregate(old(self).aggregated_view(), final(self).aggregated_view(), agg)
                        &&& final(self).total_aggregations_view() == old(self).total_aggregations_view() + 1
                    },
                    None => false,
                },
    {
        let layer = layer_id.to_owned();
        let j = match self.queue_position(&layer) {
            Some(j) => j,
            None => {
                return None;
            },
        };
        proof {
            assert forall|i: int| queue_at(self.pending@, layer_id@, i) implies i == j by {
                if i != j {
                    assert(self.pending@[i].layer_id@ == self.pending@[j as int].layer_id@);
                }
            }
        }
        if !self.quorum_met(j) {
            return None;
        }
        let ghost p0 = self.pending@;
        let ghost a0 = self.aggregated@;
        let q = self.pending.remove(j);
        proof {
            assert forall|a: int, b: int| 0 <= a < b < self.pending@.len() implies self.pending@[a].layer_id@
                != self.pending@[b].layer_id@ by {
                let ia = if a < j { a } else { a + 1 };
                let ib = if b < j { b } else { b + 1 };
                assert(self.pending@[a] == p0[ia] && self.pending@[b] == p0[ib]);
            }
            assert forall|a: int| 0 <= a < self.pending@.len() implies (#[trigger] self.pending@[a]).updates@.len() > 0 by {
                let ia = if a < j { a } else { a + 1 };
                assert(self.pending@[a] == p0[ia]);
            }
        }
        let updates = q.updates;
        let n = updates.len();
        let values = combine(&updates);
        let result = AggregatedGradient { layer_id: layer, values, contributing_workers: n, step: self.current_step };
        let kept = result.duplicate();
        match self.aggregate_position(&result.layer_id) {
            Some(a) => {
                self.aggregated.set(a, kept);
                proof {
                    assert forall|i: int| agg_at(a0, result.layer_id@, i) implies i == a by {
                        if i != a {
                            assert(a0[i].layer_id@ == a0[a as int].layer_id@);
                        }
                    }
                    assert forall|x: int, y: int| 0 <= x < y < self.aggregated@.len() implies self.aggregated@[x].layer_id@
                        != self.aggregated@[y].layer_id@ by {
                        if x != a && y != a {
                            assert(self.aggregated@[x] == a0[x] && self.aggregated@[y] == a0[y]);
                        } else if x == a {
                            assert(self.aggregated@[y] == a0[y]);
                            assert(a0[y].layer_id@ != a0[a as int].layer_id@);
                        } else {
                            assert(self.aggregated@[x] == a0[x]);
                            assert(a0[x].layer_id@ != a0[a as int].layer_id@);
                        }
                    }
                }
            },
            None => {
                self.aggregated.push(kept);
                proof {
                    assert forall|x: int, y: int| 0 <= x < y < self.aggregated@.len() implies self.aggregated@[x].layer_id@
                        != self.aggregated@[y].layer_id@ by {
                        if y == a0.len() {
                            assert(!agg_at(a0, result.layer_id@, x));
                            assert(self.aggregated@[x] == a0[x]);
                        } else {
                            assert(self.aggregated@[x] == a0[x] && self.aggregated@[y] == a0[y]);
                        }
                    }
                }
            },
        }
        self.total_aggregations = self.total_aggregations + 1;
        Some(result)
    }

    /// Advance the global training step by one. For the synchronous strategy
    /// this also clears all pending updates left over from the previous step.
    pub fn advance_step(&mut self)
        requires
            old(self).wf(),
            old(self).step_view() < u64::MAX,
        ensures
            final(self).wf(),
            final(self).step_view() == old(self).step_view() + 1,
            final(self).pending_view() == if old(self).strategy_view() is Synchronous {
                Seq::<LayerQueue<G>>::empty()
            } else {
                old(self).pending_view()
            },
            final(self).strategy_view() == old(self).strategy_view(),
            final(self).workers_view() == old(self).workers_view(),
            final(self).aggregated_view() == old(self).aggregated_view(),
            final(self).dropped_view() == old(self).dropped_view(),
            final(self).total_aggregations_view() == old(self).total_aggregations_view(),
    {
        match &self.strategy {
            AggregationStrategy::Synchronous => {
                self.pending = Vec::new();
            },
            _ => {},
        }
        self.current_step = self.current_step + 1;
    }

    /// The active workers, in order of registration.
    pub fn active_workers(&self) -> (r: Vec<WorkerState>)
        ensures
            r@ == active_of(self.workers_view()),
    {
        let mut r: Vec<WorkerState> = Vec::new();
        let mut k: usize = 0;
        while k < self.workers.len()
            invariant
                k <= self.workers@.len(),
                r@ == active_of(self.workers@.take(k as int)),
            decreases self.workers@.len() - k,
        {
            proof {
                assert(self.workers@.take(k + 1).drop_last() =~= self.workers@.take(k as int));
            }
            if self.workers[k].active {
                let w = &self.workers[k];
                r.push(
                    WorkerState {
                        worker_id: WorkerId(w.worker_id.0.clone()),
                        latest_step: w.latest_step,
                        last_seen: w.last_seen,
                        active: w.active,
                        total_updates: w.total_updates,
                    },
                );
            }
            k += 1;
        }
        proof {
            assert(self.workers@.take(self.workers@.len() as int) =~= self.workers@);
        }
        r
    }

    /// Total number of registered workers (active and inactive).
    pub fn worker_count(&self) -> (n: usize)
        ensures
            n == self.workers_view().len(),
    {
        self.workers.len()
    }

    /// Number of pending (not-yet-aggregated) updates for a layer.
    pub fn pending_updates_for(&self, layer_id: &str) -> (n: usize)
        requires
            self.wf(),
        ensures
            !has_queue(self.pending_view(), layer_id@) ==> n == 0,
            forall|j: int|
                queue_at(self.pending_view(), layer_id@, j) ==> n == (#[trigger] self.pending_view()[j]).updates@.len(),
    {
        let layer = layer_id.to_owned();
        match self.queue_position(&layer) {
            Some(j) => {
                proof {
                    assert forall|i: int| queue_at(self.pending@, layer_id@, i) implies i == j by {
                        if i != j {
                            assert(self.pending@[i].layer_id@ == self.pending@[j as int].layer_id@);
                        }
                    }
                }
                self.pending[j].updates.len()
            },
            None => 0,
        }
    }

    /// Returns the most recently aggregated gradient for a layer, if any.
    pub fn last_aggregated(&self, layer_id: &str) -> (r: Option<&AggregatedGradient<G>>)
        requires
            self.wf(),
        ensures
            !has_agg(self.aggregated_view(), layer_id@) ==> r is None,
            forall|k: int|
                agg_at(self.aggregated_view(), layer_id@, k) ==> r == Some(&#[trigger] self.aggregated_view()[k]),
    {
        let layer = layer_id.to_owned();
        match self.aggregate_position(&layer) {
            Some(k) => {
                proof {
                    assert forall|i: int| agg_at(self.aggregated@, layer_id@, i) implies i == k by {
                        if i != k {
                            assert(self.aggregated@[i].layer_id@ == self.aggregated@[k as int].layer_id@);
                        }
                    }
                }
                Some(&self.aggregated[k])
            },
            None => None,
        }
    }

    /// Mark workers inactive if their `last_seen` timestamp is older than
    /// `now - max_age_ms` (saturating). Returns the number of workers evicted.
    pub fn evict_stale_workers(&mut self, max_age_ms: u64, now: u64) -> (count: usize)
        requires
            old(self).wf(),
        ensures
            final(self).wf(),
            ({
                let cutoff = if now > max_age_ms { (now - max_age_ms) as u64 } else { 0u64 };
                &&& count == evicted_count(old(self).workers_view(), cutoff)
                &&& final(self).workers_view() == old(self).workers_view().map_values(
                    |w: WorkerState| after_evict(w, cutoff),
                )
            }),
            final(self).pending_view() == old(self).pending_view(),
            final(self).aggregated_view() == old(self).aggregated_view(),
            final(self).strategy_view() == old(self).strategy_view(),
            final(self).step_view() == old(self).step_view(),
            final(self).dropped_view() == old(self).dropped_view(),
            final(self).total_aggregations_view() == old(self).total_aggregations_view(),
    {
        let cutoff = if now > max_age_ms {
            now - max_age_ms
        } else {
            0
        };
        let mut workers: Vec<WorkerState> = Vec::new();
        std::mem::swap(&mut workers, &mut self.workers);
        let ghost w0 = workers@;
        let mut count: usize = 0;
        let mut k: usize = 0;
        while k < workers.len()
            invariant
                k <= workers@.len(),
                workers@.len() == w0.len(),
                forall|i: int| 0 <= i < k ==> #[trigger] workers@[i] == after_evict(w0[i], cutoff),
                forall|i: int| k <= i < w0.len() ==> #[trigger] workers@[i] == w0[i],
                count == evicted_count(w0.take(k as int), cutoff),
                count <= k,
            decreases workers@.len() - k,
        {
            proof {
                assert(w0.take(k + 1).drop_last() =~= w0.take(k as int));
            }
            if workers[k].active && workers[k].last_seen < cutoff {
                let w = workers.remove(k);
                let nw = WorkerState { active: false, ..w };
                workers.insert(k, nw);
                count = count + 1;
            }
            k += 1;
        }
        proof {
            assert(w0.take(w0.len() as int) =~= w0);
            assert(workers@ =~= w0.map_values(|w: WorkerState| after_evict(w, cutoff)));
            assert forall|a: int, b: int| 0 <= a < b < workers@.len() implies workers@[a].worker_id.0@
                != workers@[b].worker_id.0@ by {
                assert(workers@[a].worker_id == w0[a].worker_id);
                assert(workers@[b].worker_id == w0[b].worker_id);
            }
        }
        self.workers = workers;
        count
    }

    /// Snapshot current optimizer statistics.
    pub fn stats(&self) -> (s: DistOptimizerStats)
        ensures
            s.total_workers == self.workers_view().len(),
            s.active_workers == active_count(self.workers_view()),
            s.current_step == self.step_view(),
            s.total_aggregations == self.total_aggregations_view(),
            s.dropped_updates == self.dropped_view(),
            s.pending_layers == self.pending_view().len(),
    {
        DistOptimizerStats {
            total_workers: self.workers.len(),
            active_workers: self.active_worker_count(),
            current_step: self.current_step,
            total_aggregations: self.total_aggregations,
            dropped_updates: self.dropped_updates,
            pending_layers: self.pending.len(),
        }
    }
}

/// A deregistered worker stays registered (only inactive): registering it
/// again is refused.
pub proof fn law_deregistered_worker_cannot_reregister(ws: Seq<WorkerState>, id: Seq<char>, k: int)
    requires
        worker_at(ws, id, k),
    ensures
        is_worker(ws.update(k, WorkerState { active: false, ..ws[k] }), id),
{
    assert(worker_at(ws.update(k, WorkerState { active: false, ..ws[k] }), id, k));
}

/// Aggregating a layer clears its pending updates: once its queue is removed,
/// nothing is pending for the layer.
pub proof fn law_aggregation_clears_layer<G>(ps: Seq<LayerQueue<G>>, layer: Seq<char>, j: int)
    requires
        forall|a: int, b: int| 0 <= a < b < ps.len() ==> ps[a].layer_id@ != ps[b].layer_id@,
        queue_at(ps, layer, j),
    ensures
        !has_queue(ps.remove(j), layer),
{
    if has_queue(ps.remove(j), layer) {
        let i = choose|i: int| queue_at(ps.remove(j), layer, i);
        let oi = if i < j { i } else { i + 1 };
        assert(ps.remove(j)[i] == ps[oi]);
    }
}

} // verus!
