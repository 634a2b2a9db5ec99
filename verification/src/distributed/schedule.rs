//! Per-stage communication schedule for a partitioned computation graph.
//!
//! Given the partitions of a graph and its edges, every activation that must
//! move from one partition to another becomes a [`DataTransfer`]. The
//! partition-level graph (an edge `f → t` whenever some node of `f` feeds a
//! node of `t`) orders them: a transfer leaves its source partition at that
//! partition's level, the length of the longest path of partitions ending
//! there. Partitions that a cycle reaches get one level past every other.
//!
//! The model: `owner` says which partition holds a node, `crossing` which
//! partitions an edge joins, `walk_depth` bounds path lengths in the
//! partition graph, and `stage_level` is the level a transfer is scheduled at.

use crate::graph_partitioner::{GraphEdge, Partition};
use vstd::prelude::*;

verus! {

/// One activation that must move from a producing partition to a consuming one.
#[derive(Debug, Clone, Copy, PartialEq, Eq)]
pub struct DataTransfer {
    /// Partition that produced (and currently holds) the activation.
    pub from_partition: usize,
    /// Partition that needs the activation as input.
    pub to_partition: usize,
    /// Producing node whose output tensor is transferred.
    pub node_id: u64,
    /// Size of the transferred activation in bytes.
    pub data_bytes: u64,
}

/// A set of transfers that may all proceed once earlier stages have completed.
#[derive(Debug, Clone, PartialEq, Eq)]
pub struct CommunicationStage {
    /// Zero-based stage index; lower stages run first.
    pub stage_id: usize,
    /// Transfers belonging to this stage (independent of one another).
    pub transfers: Vec<DataTransfer>,
}

/// An ordered, staged plan for moving every cross-partition activation.
#[derive(Debug, Clone, PartialEq, Eq)]
pub struct CommunicationSchedule {
    /// Stages in execution order.
    pub stages: Vec<CommunicationStage>,
    /// Total bytes moved across all transfers.
    pub total_bytes: u64,
}

// ─── The model ────────────────────────────────────────────────────────────────

/// The partition that owns node `nid`: the last partition that lists it.
pub open spec fn owner(parts: Seq<Partition>, nid: u64) -> Option<usize>
    decreases parts.len(),
{
    if parts.len() == 0 {
        None
    } else if parts.last().node_ids@.contains(nid) {
        Some(parts.last().partition_id)
    } else {
        owner(parts.drop_last(), nid)
    }
}

/// The pair of partitions an edge joins, when its two endpoints are owned by
/// different partitions.
pub open spec fn crossing(parts: Seq<Partition>, e: GraphEdge) -> Option<(usize, usize)> {
    match (owner(parts, e.from), owner(parts, e.to)) {
        (Some(f), Some(t)) => if f != t {
            Some((f, t))
        } else {
            None
        },
        _ => None,
    }
}

/// The distinct partition identifiers, in order of first appearance.
pub open spec fn partition_ids(parts: Seq<Partition>) -> Seq<usize>
    decreases parts.len(),
{
    if parts.len() == 0 {
        Seq::empty()
    } else {
        let rest = partition_ids(parts.drop_last());
        if rest.contains(parts.last().partition_id) {
            rest
        } else {
            rest.push(parts.last().partition_id)
        }
    }
}

/// The number of partitions of the partition graph.
pub open spec fn node_count(parts: Seq<Partition>) -> nat {
    partition_ids(parts).len()
}

/// The length of the longest walk of at most `k` steps in the partition graph
/// that ends at partition `v`.
pub open spec fn walk_depth(parts: Seq<Partition>, edges: Seq<GraphEdge>, v: usize, k: nat) -> nat
    decreases k, edges.len() + 1,
{
    best_in(parts, edges, v, k, edges.len())
}

/// The longest walk of at most `k` steps ending at `v` whose last step is one
/// of the first `i` edges.
pub open spec fn best_in(
    parts: Seq<Partition>,
    edges: Seq<GraphEdge>,
    v: usize,
    k: nat,
    i: nat,
) -> nat
    decreases k, i,
{
    if i == 0 {
        0
    } else {
        let rest = best_in(parts, edges, v, k, (i - 1) as nat);
        match crossing(parts, edges[i - 1]) {
            Some((u, w)) => if w == v && k > 0 {
                let c = walk_depth(parts, edges, u, (k - 1) as nat) + 1;
                if c > rest {
                    c
                } else {
                    rest
                }
            } else {
                rest
            },
            None => rest,
        }
    }
}

/// No cycle of the partition graph reaches `v`: every walk ending at `v` is a
/// path, shorter than the number of partitions.
pub open spec fn settled(parts: Seq<Partition>, edges: Seq<GraphEdge>, v: usize) -> bool {
    walk_depth(parts, edges, v, node_count(parts)) < node_count(parts)
}

/// The length of the longest path ending at a settled partition.
pub open spec fn depth(parts: Seq<Partition>, edges: Seq<GraphEdge>, v: usize) -> nat {
    walk_depth(parts, edges, v, node_count(parts))
}

/// One past the deepest settled predecessor of `v` among the first `i` edges
/// (0 when there is none).
pub open spec fn settled_pred_depth(
    parts: Seq<Partition>,
    edges: Seq<GraphEdge>,
    v: usize,
    i: nat,
) -> nat
    decreases i,
{
    if i == 0 {
        0
    } else {
        let rest = settled_pred_depth(parts, edges, v, (i - 1) as nat);
        match crossing(parts, edges[i - 1]) {
            Some((u, w)) => if w == v && settled(parts, edges, u) {
                let c = depth(parts, edges, u) + 1;
                if c > rest {
                    c
                } else {
                    rest
                }
            } else {
                rest
            },
            None => rest,
        }
    }
}

/// The level a partition holds once every settled partition is placed: its
/// depth if settled, else one past its deepest settled predecessor.
pub open spec fn provisional_level(parts: Seq<Partition>, edges: Seq<GraphEdge>, v: usize) -> nat {
    if settled(parts, edges, v) {
        depth(parts, edges, v)
    } else {
        settled_pred_depth(parts, edges, v, edges.len())
    }
}

/// The largest provisional level among the partitions `ids`.
pub open spec fn max_provisional(parts: Seq<Partition>, edges: Seq<GraphEdge>, ids: Seq<usize>) -> nat
    decreases ids.len(),
{
    if ids.len() == 0 {
        0
    } else {
        let rest = max_provisional(parts, edges, ids.drop_last());
        let c = provisional_level(parts, edges, ids.last());
        if c > rest {
            c
        } else {
            rest
        }
    }
}

/// The level at which transfers out of partition `v` are scheduled: the
/// longest path ending at `v`, or, when a cycle reaches `v`, one past the
/// largest provisional level.
pub open spec fn stage_level(parts: Seq<Partition>, edges: Seq<GraphEdge>, v: usize) -> nat {
    if settled(parts, edges, v) {
        depth(parts, edges, v)
    } else {
        max_provisional(parts, edges, partition_ids(parts)) + 1
    }
}

/// The transfer an edge calls for: source partition, target partition and
/// producing node.
pub open spec fn transfer_key(parts: Seq<Partition>, e: GraphEdge) -> Option<(usize, usize, u64)> {
    match crossing(parts, e) {
        Some((f, t)) => Some((f, t, e.from)),
        None => None,
    }
}

/// Some edge calls for transfer `k`.
pub open spec fn is_transfer(parts: Seq<Partition>, edges: Seq<GraphEdge>, k: (usize, usize, u64)) -> bool {
    exists|j: int| 0 <= j < edges.len() && transfer_key(parts, #[trigger] edges[j]) == Some(k)
}

/// The size of transfer `k`: the largest size among the edges calling for it.
pub open spec fn transfer_size(parts: Seq<Partition>, edges: Seq<GraphEdge>, k: (usize, usize, u64)) -> u64
    decreases edges.len(),
{
    if edges.len() == 0 {
        0
    } else {
        let rest = transfer_size(parts, edges.drop_last(), k);
        if transfer_key(parts, edges.last()) == Some(k) && edges.last().data_bytes > rest {
            edges.last().data_bytes
        } else {
            rest
        }
    }
}

/// The identity of a transfer.
pub open spec fn key_of(t: DataTransfer) -> (usize, usize, u64) {
    (t.from_partition, t.to_partition, t.node_id)
}

/// `la`/`a` comes before `lb`/`b`: by level, then source, target and node.
pub open spec fn ordered(la: nat, a: DataTransfer, lb: nat, b: DataTransfer) -> bool {
    ||| la < lb
    ||| la == lb && a.from_partition < b.from_partition
    ||| la == lb && a.from_partition == b.from_partition && a.to_partition < b.to_partition
    ||| la == lb && a.from_partition == b.from_partition && a.to_partition == b.to_partition
        && a.node_id < b.node_id
}

/// `a` is scheduled before `b`: by level, then source, target and node.
pub open spec fn precedes(
    parts: Seq<Partition>,
    edges: Seq<GraphEdge>,
    a: DataTransfer,
    b: DataTransfer,
) -> bool {
    ordered(
        stage_level(parts, edges, a.from_partition),
        a,
        stage_level(parts, edges, b.from_partition),
        b,
    )
}

/// The transfers of all stages, in stage order.
pub open spec fn flatten(stages: Seq<CommunicationStage>) -> Seq<DataTransfer>
    decreases stages.len(),
{
    if stages.len() == 0 {
        Seq::empty()
    } else {
        flatten(stages.drop_last()) + stages.last().transfers@
    }
}

/// The total size of a sequence of transfers.
pub open spec fn byte_sum(ts: Seq<DataTransfer>) -> nat
    decreases ts.len(),
{
    if ts.len() == 0 {
        0
    } else {
        byte_sum(ts.drop_last()) + ts.last().data_bytes as nat
    }
}

/// No two transfers of `ts` share source, target and node.
pub open spec fn keys_unique(ts: Seq<DataTransfer>) -> bool {
    forall|a: int, b: int| 0 <= a < b < ts.len() ==> key_of(ts[a]) != key_of(ts[b])
}

/// `ts` holds each transfer the edges call for exactly once, with its size,
/// and nothing else.
pub open spec fn transfers_of(parts: Seq<Partition>, edges: Seq<GraphEdge>, ts: Seq<DataTransfer>) -> bool {
    &&& keys_unique(ts)
    &&& forall|a: int|
        0 <= a < ts.len() ==> is_transfer(parts, edges, key_of(#[trigger] ts[a])) && ts[a].data_bytes
            == transfer_size(parts, edges, key_of(ts[a]))
    &&& forall|k: (usize, usize, u64)|
        #[trigger] is_transfer(parts, edges, k) ==> exists|a: int| 0 <= a < ts.len() && key_of(#[trigger] ts[a]) == k
}

/// The level of a stage: that of its first transfer's source.
pub open spec fn level_of_stage(parts: Seq<Partition>, edges: Seq<GraphEdge>, st: CommunicationStage) -> nat {
    stage_level(parts, edges, st.transfers@[0].from_partition)
}

/// Stages are numbered in order and non-empty; a stage's transfers share one
/// level, and levels strictly increase from stage to stage.
pub open spec fn well_staged(parts: Seq<Partition>, edges: Seq<GraphEdge>, stages: Seq<CommunicationStage>) -> bool {
    &&& forall|i: int|
        0 <= i < stages.len() ==> (#[trigger] stages[i]).stage_id == i && stages[i].transfers@.len() > 0
    &&& forall|i: int, a: int|
        0 <= i < stages.len() && 0 <= a < stages[i].transfers@.len() ==> stage_level(
            parts,
            edges,
            (#[trigger] stages[i].transfers@[a]).from_partition,
        ) == level_of_stage(parts, edges, stages[i])
    &&& forall|i: int, j: int|
        0 <= i < j < stages.len() ==> level_of_stage(parts, edges, #[trigger] stages[i]) < level_of_stage(
            parts,
            edges,
            #[trigger] stages[j],
        )
}

/// The saturating total of the sizes of `ts`.
pub open spec fn capped_total(ts: Seq<DataTransfer>) -> nat {
    if byte_sum(ts) > u64::MAX {
        u64::MAX as nat
    } else {
        byte_sum(ts)
    }
}

/// `s` is the communication schedule of `parts` and `edges`: it carries every
/// transfer once, ordered by `precedes` and grouped into one stage per level,
/// and its total is the saturating sum of the transfer sizes.
pub open spec fn schedules(parts: Seq<Partition>, edges: Seq<GraphEdge>, s: CommunicationSchedule) -> bool {
    let flat = flatten(s.stages@);
    &&& well_staged(parts, edges, s.stages@)
    &&& forall|a: int, b: int| 0 <= a < b < flat.len() ==> precedes(parts, edges, flat[a], flat[b])
    &&& transfers_of(parts, edges, flat)
    &&& s.total_bytes == capped_total(flat)
}

impl CommunicationSchedule {
    /// Number of stages in the schedule.
    pub fn num_stages(&self) -> (n: usize)
        ensures
            n == self.stages@.len(),
    {
        self.stages.len()
    }

    /// Total number of transfers across all stages.
    pub fn num_transfers(&self) -> (n: usize)
        requires
            flatten(self.stages@).len() <= usize::MAX,
        ensures
            n == flatten(self.stages@).len(),
    {
        let mut n: usize = 0;
        let mut i: usize = 0;
        while i < self.stages.len()
            invariant
                i <= self.stages@.len(),
                flatten(self.stages@).len() <= usize::MAX,
                n == flatten(self.stages@.take(i as int)).len(),
            decreases self.stages@.len() - i,
        {
            proof {
                lemma_flatten_push(self.stages@.take(i as int), self.stages@[i as int]);
                assert(self.stages@.take(i + 1) =~= self.stages@.take(i as int).push(
                    self.stages@[i as int],
                ));
                lemma_flatten_prefix_len(self.stages@, i + 1);
            }
            n = n + self.stages[i].transfers.len();
            i += 1;
        }
        assert(self.stages@.take(i as int) =~= self.stages@);
        n
    }
}

impl Default for CommunicationSchedule {
    fn default() -> (s: Self)
        ensures
            s.stages@.len() == 0,
            s.total_bytes == 0,
    {
        CommunicationSchedule { stages: Vec::new(), total_bytes: 0 }
    }
}

// ─── Lemmas on the model ─────────────────────────────────────────────────────

proof fn lemma_flatten_push(s: Seq<CommunicationStage>, st: CommunicationStage)
    ensures
        flatten(s.push(st)) == flatten(s) + st.transfers@,
{
    assert(s.push(st).drop_last() =~= s);
}

proof fn lemma_flatten_prefix_len(s: Seq<CommunicationStage>, i: int)
    requires
        0 <= i <= s.len(),
    ensures
        flatten(s.take(i)).len() <= flatten(s).len(),
    decreases s.len(),
{
    if i < s.len() {
        assert(s.drop_last().take(i) =~= s.take(i));
        lemma_flatten_prefix_len(s.drop_last(), i);
    } else {
        assert(s.take(i) =~= s);
    }
}

proof fn lemma_owner_is_partition(parts: Seq<Partition>, nid: u64)
    ensures
        owner(parts, nid) matches Some(p) ==> partition_ids(parts).contains(p),
    decreases parts.len(),
{
    if parts.len() > 0 {
        lemma_owner_is_partition(parts.drop_last(), nid);
        let rest = partition_ids(parts.drop_last());
        if rest.contains(parts.last().partition_id) {
        } else {
            let r2 = rest.push(parts.last().partition_id);
            assert(r2[rest.len() as int] == parts.last().partition_id);
            if let Some(p) = owner(parts.drop_last(), nid) {
                if !parts.last().node_ids@.contains(nid) {
                    let k = choose|k: int| 0 <= k < rest.len() && rest[k] == p;
                    assert(r2[k] == p);
                }
            }
        }
    }
}

proof fn lemma_crossing_ends(parts: Seq<Partition>, e: GraphEdge)
    ensures
        crossing(parts, e) matches Some((f, t)) ==> partition_ids(parts).contains(f)
            && partition_ids(parts).contains(t),
{
    lemma_owner_is_partition(parts, e.from);
    lemma_owner_is_partition(parts, e.to);
}

proof fn lemma_partition_ids_unique(parts: Seq<Partition>)
    ensures
        partition_ids(parts).no_duplicates(),
        partition_ids(parts).len() <= parts.len(),
    decreases parts.len(),
{
    if parts.len() > 0 {
        lemma_partition_ids_unique(parts.drop_last());
    }
}

proof fn lemma_best_in_bounded(parts: Seq<Partition>, edges: Seq<GraphEdge>, v: usize, k: nat, i: nat)
    ensures
        best_in(parts, edges, v, k, i) <= k,
    decreases k, i,
{
    if i > 0 {
        lemma_best_in_bounded(parts, edges, v, k, (i - 1) as nat);
        if let Some((u, w)) = crossing(parts, edges[i - 1]) {
            if w == v && k > 0 {
                lemma_best_in_bounded(parts, edges, u, (k - 1) as nat, edges.len());
                assert(walk_depth(parts, edges, u, (k - 1) as nat) == best_in(
                    parts,
                    edges,
                    u,
                    (k - 1) as nat,
                    edges.len(),
                ));
            }
        }
    }
}

proof fn lemma_walk_depth_bounded(parts: Seq<Partition>, edges: Seq<GraphEdge>, v: usize, k: nat)
    ensures
        walk_depth(parts, edges, v, k) <= k,
{
    lemma_best_in_bounded(parts, edges, v, k, edges.len());
}

proof fn lemma_settled_pred_depth_bounded(parts: Seq<Partition>, edges: Seq<GraphEdge>, v: usize, i: nat)
    ensures
        settled_pred_depth(parts, edges, v, i) <= node_count(parts),
    decreases i,
{
    if i > 0 {
        lemma_settled_pred_depth_bounded(parts, edges, v, (i - 1) as nat);
    }
}

proof fn lemma_max_provisional_bounded(parts: Seq<Partition>, edges: Seq<GraphEdge>, ids: Seq<usize>)
    ensures
        max_provisional(parts, edges, ids) <= node_count(parts),
    decreases ids.len(),
{
    if ids.len() > 0 {
        lemma_max_provisional_bounded(parts, edges, ids.drop_last());
        lemma_walk_depth_bounded(parts, edges, ids.last(), node_count(parts));
        lemma_settled_pred_depth_bounded(parts, edges, ids.last(), edges.len());
    }
}

proof fn lemma_transfer_size_absent(parts: Seq<Partition>, edges: Seq<GraphEdge>, k: (usize, usize, u64))
    requires
        !is_transfer(parts, edges, k),
    ensures
        transfer_size(parts, edges, k) == 0,
    decreases edges.len(),
{
    if edges.len() > 0 {
        assert(!is_transfer(parts, edges.drop_last(), k)) by {
            if is_transfer(parts, edges.drop_last(), k) {
                let j = choose|j: int|
                    0 <= j < edges.drop_last().len() && transfer_key(
                        parts,
                        #[trigger] edges.drop_last()[j],
                    ) == Some(k);
                assert(edges[j] == edges.drop_last()[j]);
            }
        }
        lemma_transfer_size_absent(parts, edges.drop_last(), k);
        assert(transfer_key(parts, edges[edges.len() - 1]) != Some(k));
    }
}

// ─── Executable building blocks ───────────────────────────────────────────────

fn contains_node(ids: &Vec<u64>, nid: u64) -> (b: bool)
    ensures
        b == ids@.contains(nid),
{
    let mut i: usize = 0;
    while i < ids.len()
        invariant
            i <= ids@.len(),
            forall|k: int| 0 <= k < i ==> ids@[k] != nid,
        decreases ids@.len() - i,
    {
        if ids[i] == nid {
            return true;
        }
        i += 1;
    }
    false
}

fn owner_of(parts: &[Partition], nid: u64) -> (r: Option<usize>)
    ensures
        r == owner(parts@, nid),
{
    let mut i: usize = parts.len();
    assert(parts@.take(i as int) =~= parts@);
    while i > 0
        invariant
            i <= parts@.len(),
            owner(parts@, nid) == owner(parts@.take(i as int), nid),
        decreases i,
    {
        i -= 1;
        assert(parts@.take(i + 1).drop_last() =~= parts@.take(i as int));
        if contains_node(&parts[i].node_ids, nid) {
            return Some(parts[i].partition_id);
        }
    }
    None
}

fn crossing_of(parts: &[Partition], e: &GraphEdge) -> (r: Option<(usize, usize)>)
    ensures
        r == crossing(parts@, *e),
{
    match (owner_of(parts, e.from), owner_of(parts, e.to)) {
        (Some(f), Some(t)) => if f != t {
            Some((f, t))
        } else {
            None
        },
        _ => None,
    }
}

fn distinct_partition_ids(parts: &[Partition]) -> (ids: Vec<usize>)
    ensures
        ids@ == partition_ids(parts@),
{
    let mut ids: Vec<usize> = Vec::new();
    let mut i: usize = 0;
    while i < parts.len()
        invariant
            i <= parts@.len(),
            ids@ == partition_ids(parts@.take(i as int)),
        decreases parts@.len() - i,
    {
        assert(parts@.take(i + 1).drop_last() =~= parts@.take(i as int));
        let p = parts[i].partition_id;
        let mut j: usize = 0;
        let mut found = false;
        while j < ids.len()
            invariant
                j <= ids@.len(),
                found == (exists|k: int| 0 <= k < j && ids@[k] == p),
            decreases ids@.len() - j,
        {
            if ids[j] == p {
                found = true;
            }
            j += 1;
        }
        if !found {
            ids.push(p);
        }
        i += 1;
    }
    assert(parts@.take(parts@.len() as int) =~= parts@);
    ids
}

fn position_of(ids: &Vec<usize>, p: usize) -> (r: usize)
    requires
        ids@.contains(p),
    ensures
        r < ids@.len(),
        ids@[r as int] == p,
{
    let mut j: usize = 0;
    while j < ids.len()
        invariant
            j <= ids@.len(),
            ids@.contains(p),
            forall|k: int| 0 <= k < j ==> ids@[k] != p,
        decreases ids@.len() - j,
    {
        if ids[j] == p {
            return j;
        }
        j += 1;
    }
    proof {
        let k = choose|k: int| 0 <= k < ids@.len() && ids@[k] == p;
        assert(ids@[k] != p);
    }
    0
}

/// The crossing of every edge, in edge order.
fn crossings(parts: &[Partition], edges: &[GraphEdge]) -> (cross: Vec<Option<(usize, usize)>>)
    ensures
        cross@.len() == edges@.len(),
        forall|j: int| 0 <= j < edges@.len() ==> cross@[j] == crossing(parts@, #[trigger] edges@[j]),
{
    let mut cross: Vec<Option<(usize, usize)>> = Vec::new();
    let mut j: usize = 0;
    while j < edges.len()
        invariant
            j <= edges@.len(),
            cross@.len() == j,
            forall|i: int| 0 <= i < j ==> cross@[i] == crossing(parts@, #[trigger] edges@[i]),
        decreases edges@.len() - j,
    {
        let c = crossing_of(parts, &edges[j]);
        cross.push(c);
        j += 1;
    }
    cross
}

/// Walk depths with one more step of fuel: from `walk_depth(_, k)` for every
/// partition to `walk_depth(_, k + 1)`.
fn depth_round(
    parts: &[Partition],
    edges: &[GraphEdge],
    cross: &Vec<Option<(usize, usize)>>,
    ids: &Vec<usize>,
    prev: &Vec<usize>,
    Ghost(k): Ghost<nat>,
) -> (next: Vec<usize>)
    requires
        cross@.len() == edges@.len(),
        forall|j: int| 0 <= j < edges@.len() ==> cross@[j] == crossing(parts@, #[trigger] edges@[j]),
        ids@ == partition_ids(parts@),
        prev@.len() == ids@.len(),
        forall|q: int| 0 <= q < ids@.len() ==> prev@[q] == walk_depth(parts@, edges@, #[trigger] ids@[q], k),
        k < ids@.len(),
    ensures
        next@.len() == ids@.len(),
        forall|q: int| 0 <= q < ids@.len() ==> next@[q] == walk_depth(parts@, edges@, #[trigger] ids@[q], k + 1),
{
    let mut next: Vec<usize> = Vec::new();
    let n = ids.len();
    let mut q: usize = 0;
    while q < ids.len()
        invariant
            n == ids@.len(),
            q <= ids@.len(),
            next@.len() == q,
            cross@.len() == edges@.len(),
            forall|j: int| 0 <= j < edges@.len() ==> cross@[j] == crossing(parts@, #[trigger] edges@[j]),
            ids@ == partition_ids(parts@),
            prev@.len() == ids@.len(),
            forall|r: int| 0 <= r < ids@.len() ==> prev@[r] == walk_depth(parts@, edges@, #[trigger] ids@[r], k),
            k < ids@.len(),
            forall|r: int| 0 <= r < q ==> next@[r] == walk_depth(parts@, edges@, #[trigger] ids@[r], k + 1),
        decreases ids@.len() - q,
    {
        let v = ids[q];
        let mut best: usize = 0;
        let mut j: usize = 0;
        while j < edges.len()
            invariant
                j <= edges@.len(),
                n == ids@.len(),
                cross@.len() == edges@.len(),
                forall|i: int| 0 <= i < edges@.len() ==> cross@[i] == crossing(parts@, #[trigger] edges@[i]),
                ids@ == partition_ids(parts@),
                prev@.len() == ids@.len(),
                forall|r: int| 0 <= r < ids@.len() ==> prev@[r] == walk_depth(parts@, edges@, #[trigger] ids@[r], k),
                k < ids@.len(),
                best == best_in(parts@, edges@, v, k + 1, j as nat),
            decreases edges@.len() - j,
        {
            proof {
                lemma_crossing_ends(parts@, edges@[j as int]);
            }
            match cross[j] {
                Some((u, w)) => {
                    if w == v {
                        let pu = position_of(ids, u);
                        proof {
                            lemma_walk_depth_bounded(parts@, edges@, u, k);
                            assert(prev@[pu as int] == walk_depth(parts@, edges@, ids@[pu as int], k));
                        }
                        let c = prev[pu] + 1;
                        if c > best {
                            best = c;
                        }
                    }
                },
                None => {},
            }
            j += 1;
        }
        next.push(best);
        q += 1;
    }
    next
}

/// The walk depth with fuel 0 is 0 everywhere.
proof fn lemma_best_in_no_fuel(parts: Seq<Partition>, edges: Seq<GraphEdge>, v: usize, i: nat)
    ensures
        best_in(parts, edges, v, 0, i) == 0,
    decreases i,
{
    if i > 0 {
        lemma_best_in_no_fuel(parts, edges, v, (i - 1) as nat);
    }
}

/// The level of every partition of `ids`, aligned with `ids`.
fn partition_levels(
    parts: &[Partition],
    edges: &[GraphEdge],
    cross: &Vec<Option<(usize, usize)>>,
    ids: &Vec<usize>,
) -> (lv: Vec<usize>)
    requires
        parts@.len() < usize::MAX,
        cross@.len() == edges@.len(),
        forall|j: int| 0 <= j < edges@.len() ==> cross@[j] == crossing(parts@, #[trigger] edges@[j]),
        ids@ == partition_ids(parts@),
    ensures
        lv@.len() == ids@.len(),
        forall|q: int| 0 <= q < ids@.len() ==> lv@[q] == stage_level(parts@, edges@, #[trigger] ids@[q]),
{
    let n = ids.len();
    proof {
        lemma_partition_ids_unique(parts@);
    }
    // Walk depths with fuel 0, then n rounds of relaxation.
    let mut d: Vec<usize> = Vec::new();
    let mut q: usize = 0;
    while q < n
        invariant
            q <= n,
            n == ids@.len(),
            d@.len() == q,
            forall|r: int| 0 <= r < q ==> d@[r] == walk_depth(parts@, edges@, #[trigger] ids@[r], 0),
        decreases n - q,
    {
        proof {
            lemma_best_in_no_fuel(parts@, edges@, ids@[q as int], edges@.len());
        }
        d.push(0);
        q += 1;
    }
    let mut k: usize = 0;
    while k < n
        invariant
            k <= n,
            n == ids@.len(),
            cross@.len() == edges@.len(),
            forall|j: int| 0 <= j < edges@.len() ==> cross@[j] == crossing(parts@, #[trigger] edges@[j]),
            ids@ == partition_ids(parts@),
            d@.len() == n,
            forall|r: int| 0 <= r < n ==> d@[r] == walk_depth(parts@, edges@, #[trigger] ids@[r], k as nat),
        decreases n - k,
    {
        d = depth_round(parts, edges, cross, ids, &d, Ghost(k as nat));
        k += 1;
    }
    // Provisional levels and their maximum.
    let mut top: usize = 0;
    let mut prov: Vec<usize> = Vec::new();
    q = 0;
    while q < n
        invariant
            q <= n,
            n == ids@.len(),
            n == node_count(parts@),
            n <= parts@.len(),
            parts@.len() < usize::MAX,
            cross@.len() == edges@.len(),
            forall|j: int| 0 <= j < edges@.len() ==> cross@[j] == crossing(parts@, #[trigger] edges@[j]),
            ids@ == partition_ids(parts@),
            d@.len() == n,
            forall|r: int| 0 <= r < n ==> d@[r] == depth(parts@, edges@, #[trigger] ids@[r]),
            prov@.len() == q,
            forall|r: int| 0 <= r < q ==> prov@[r] == provisional_level(parts@, edges@, #[trigger] ids@[r]),
            top == max_provisional(parts@, edges@, ids@.take(q as int)),
        decreases n - q,
    {
        let v = ids[q];
        let mut p: usize = 0;
        if d[q] < n {
            p = d[q];
        } else {
            let mut j: usize = 0;
            while j < edges.len()
                invariant
                    j <= edges@.len(),
                    n == ids@.len(),
                    n == node_count(parts@),
                    cross@.len() == edges@.len(),
                    forall|i: int| 0 <= i < edges@.len() ==> cross@[i] == crossing(parts@, #[trigger] edges@[i]),
                    ids@ == partition_ids(parts@),
                    d@.len() == n,
                    forall|r: int| 0 <= r < n ==> d@[r] == depth(parts@, edges@, #[trigger] ids@[r]),
                    p == settled_pred_depth(parts@, edges@, v, j as nat),
                decreases edges@.len() - j,
            {
                proof {
                    lemma_crossing_ends(parts@, edges@[j as int]);
                }
                match cross[j] {
                    Some((u, w)) => {
                        if w == v {
                            let pu = position_of(ids, u);
                            if d[pu] < n {
                                let c = d[pu] + 1;
                                if c > p {
                                    p = c;
                                }
                            }
                        }
                    },
                    None => {},
                }
                j += 1;
            }
        }
        proof {
            assert(ids@.take(q + 1).drop_last() =~= ids@.take(q as int));
            lemma_walk_depth_bounded(parts@, edges@, v, n as nat);
            lemma_settled_pred_depth_bounded(parts@, edges@, v, edges@.len());
        }
        prov.push(p);
        if p > top {
            top = p;
        }
        q += 1;
    }
    proof {
        assert(ids@.take(n as int) =~= ids@);
        lemma_max_provisional_bounded(parts@, edges@, ids@);
    }
    let mut lv: Vec<usize> = Vec::new();
    q = 0;
    while q < n
        invariant
            q <= n,
            n == ids@.len(),
            n == node_count(parts@),
            n <= parts@.len(),
            parts@.len() < usize::MAX,
            d@.len() == n,
            forall|r: int| 0 <= r < n ==> d@[r] == depth(parts@, edges@, #[trigger] ids@[r]),
            top == max_provisional(parts@, edges@, partition_ids(parts@)),
            top <= n,
            lv@.len() == q,
            forall|r: int| 0 <= r < q ==> lv@[r] == stage_level(parts@, edges@, #[trigger] ids@[r]),
        decreases n - q,
    {
        if d[q] < n {
            lv.push(d[q]);
        } else {
            lv.push(top + 1);
        }
        q += 1;
    }
    lv
}

/// Appending an edge adds at most its own transfer, and raises that transfer's
/// size to the edge's size when larger.
proof fn lemma_transfer_push(parts: Seq<Partition>, pre: Seq<GraphEdge>, e: GraphEdge, k: (usize, usize, u64))
    ensures
        is_transfer(parts, pre.push(e), k) == (is_transfer(parts, pre, k) || transfer_key(parts, e)
            == Some(k)),
        transfer_size(parts, pre.push(e), k) == if transfer_key(parts, e) == Some(k) && e.data_bytes
            > transfer_size(parts, pre, k) {
            e.data_bytes
        } else {
            transfer_size(parts, pre, k)
        },
{
    let post = pre.push(e);
    assert(post.drop_last() =~= pre);
    if is_transfer(parts, post, k) {
        let j = choose|j: int| 0 <= j < post.len() && transfer_key(parts, #[trigger] post[j]) == Some(k);
        if j < pre.len() {
            assert(pre[j] == post[j]);
        }
    }
    if is_transfer(parts, pre, k) {
        let j = choose|j: int| 0 <= j < pre.len() && transfer_key(parts, #[trigger] pre[j]) == Some(k);
        assert(post[j] == pre[j]);
    }
    if transfer_key(parts, e) == Some(k) {
        assert(post[pre.len() as int] == e);
    }
}

/// The transfers the edges call for, each once, with its size.
fn collect_transfers(
    parts: &[Partition],
    edges: &[GraphEdge],
    cross: &Vec<Option<(usize, usize)>>,
) -> (ts: Vec<DataTransfer>)
    requires
        cross@.len() == edges@.len(),
        forall|j: int| 0 <= j < edges@.len() ==> cross@[j] == crossing(parts@, #[trigger] edges@[j]),
    ensures
        transfers_of(parts@, edges@, ts@),
{
    let mut ts: Vec<DataTransfer> = Vec::new();
    let mut j: usize = 0;
    while j < edges.len()
        invariant
            j <= edges@.len(),
            cross@.len() == edges@.len(),
            forall|i: int| 0 <= i < edges@.len() ==> cross@[i] == crossing(parts@, #[trigger] edges@[i]),
            transfers_of(parts@, edges@.take(j as int), ts@),
        decreases edges@.len() - j,
    {
        let ghost pre = edges@.take(j as int);
        let ghost post = edges@.take(j + 1);
        let e = edges[j];
        assert(post =~= pre.push(e));
        let ghost ts0 = ts@;
        match cross[j] {
            None => {
                proof {
                    assert(transfer_key(parts@, e) is None);
                    assert forall|a: int| 0 <= a < ts@.len() implies is_transfer(
                        parts@,
                        post,
                        key_of(#[trigger] ts@[a]),
                    ) && ts@[a].data_bytes == transfer_size(parts@, post, key_of(ts@[a])) by {
                        lemma_transfer_push(parts@, pre, e, key_of(ts@[a]));
                    }
                    assert forall|k: (usize, usize, u64)| #[trigger]
                        is_transfer(parts@, post, k) implies exists|a: int|
                        0 <= a < ts@.len() && key_of(#[trigger] ts@[a]) == k by {
                        lemma_transfer_push(parts@, pre, e, k);
                    }
                }
            },
            Some((f, t)) => {
                let ghost key = (f, t, e.from);
                assert(transfer_key(parts@, e) == Some(key));
                let mut a: usize = 0;
                while a < ts.len() && !(ts[a].from_partition == f && ts[a].to_partition == t
                    && ts[a].node_id == e.from)
                    invariant
                        a <= ts@.len(),
                        ts@ == ts0,
                        key == (f, t, e.from),
                        forall|b: int| 0 <= b < a ==> key_of(ts@[b]) != key,
                    decreases ts@.len() - a,
                {
                    a += 1;
                }
                let found = a < ts.len();
                if found {
                    proof {
                        lemma_transfer_push(parts@, pre, e, key);
                    }
                    if e.data_bytes > ts[a].data_bytes {
                        ts.set(
                            a,
                            DataTransfer {
                                from_partition: f,
                                to_partition: t,
                                node_id: e.from,
                                data_bytes: e.data_bytes,
                            },
                        );
                    }
                    proof {
                        assert forall|b: int| 0 <= b < ts@.len() implies is_transfer(
                            parts@,
                            post,
                            key_of(#[trigger] ts@[b]),
                        ) && ts@[b].data_bytes == transfer_size(parts@, post, key_of(ts@[b])) by {
                            lemma_transfer_push(parts@, pre, e, key_of(ts@[b]));
                            if b != a {
                                assert(key_of(ts0[b]) != key_of(ts0[a as int]));
                            }
                        }
                        assert forall|k: (usize, usize, u64)| #[trigger]
                            is_transfer(parts@, post, k) implies exists|b: int|
                            0 <= b < ts@.len() && key_of(#[trigger] ts@[b]) == k by {
                            lemma_transfer_push(parts@, pre, e, k);
                            if k == key {
                                assert(key_of(ts@[a as int]) == k);
                            } else {
                                let b = choose|b: int| 0 <= b < ts0.len() && key_of(#[trigger] ts0[b]) == k;
                                assert(key_of(ts@[b]) == k);
                            }
                        }
                    }
                } else {
                    proof {
                        assert(!is_transfer(parts@, pre, key)) by {
                            if is_transfer(parts@, pre, key) {
                                let b = choose|b: int| 0 <= b < ts0.len() && key_of(#[trigger] ts0[b]) == key;
                                assert(key_of(ts0[b]) != key);
                            }
                        }
                        lemma_transfer_size_absent(parts@, pre, key);
                        lemma_transfer_push(parts@, pre, e, key);
                    }
                    ts.push(
                        DataTransfer {
                            from_partition: f,
                            to_partition: t,
                            node_id: e.from,
                            data_bytes: e.data_bytes,
                        },
                    );
                    proof {
                        let n0 = ts0.len() as int;
                        assert(ts@[n0] == DataTransfer {
                            from_partition: f,
                            to_partition: t,
                            node_id: e.from,
                            data_bytes: e.data_bytes,
                        });
                        assert forall|b: int| 0 <= b < ts@.len() implies is_transfer(
                            parts@,
                            post,
                            key_of(#[trigger] ts@[b]),
                        ) && ts@[b].data_bytes == transfer_size(parts@, post, key_of(ts@[b])) by {
                            lemma_transfer_push(parts@, pre, e, key_of(ts@[b]));
                            if b < n0 {
                                assert(ts@[b] == ts0[b]);
                            }
                        }
                        assert forall|k: (usize, usize, u64)| #[trigger]
                            is_transfer(parts@, post, k) implies exists|b: int|
                            0 <= b < ts@.len() && key_of(#[trigger] ts@[b]) == k by {
                            lemma_transfer_push(parts@, pre, e, k);
                            if k == key {
                                assert(key_of(ts@[n0]) == k);
                            } else {
                                let b = choose|b: int| 0 <= b < ts0.len() && key_of(#[trigger] ts0[b]) == k;
                                assert(ts@[b] == ts0[b]);
                            }
                        }
                        assert forall|b: int, c: int| 0 <= b < c < ts@.len() implies key_of(ts@[b])
                            != key_of(ts@[c]) by {
                            if c == n0 {
                                assert(ts@[b] == ts0[b]);
                            } else {
                                assert(ts@[b] == ts0[b] && ts@[c] == ts0[c]);
                            }
                        }
                    }
                }
            },
        }
        j += 1;
    }
    assert(edges@.take(edges@.len() as int) =~= edges@);
    ts
}

fn ordered_exec(la: usize, a: &DataTransfer, lb: usize, b: &DataTransfer) -> (r: bool)
    ensures
        r == ordered(la as nat, *a, lb as nat, *b),
{
    la < lb || (la == lb && (a.from_partition < b.from_partition || (a.from_partition
        == b.from_partition && (a.to_partition < b.to_partition || (a.to_partition
        == b.to_partition && a.node_id < b.node_id)))))
}

/// `xs` and `ys` hold the same transfers.
pub open spec fn same_elements(xs: Seq<DataTransfer>, ys: Seq<DataTransfer>) -> bool {
    &&& forall|a: int| 0 <= a < xs.len() ==> ys.contains(#[trigger] xs[a])
    &&& forall|b: int| 0 <= b < ys.len() ==> xs.contains(#[trigger] ys[b])
}

/// Inserting `x` where the scan stopped keeps a schedule-ordered sequence
/// ordered.
proof fn lemma_insert_ordered(
    parts: Seq<Partition>,
    edges: Seq<GraphEdge>,
    s0: Seq<DataTransfer>,
    l0: Seq<usize>,
    x: DataTransfer,
    lx: usize,
    pos: int,
)
    requires
        l0.len() == s0.len(),
        0 <= pos <= s0.len(),
        forall|a: int| 0 <= a < s0.len() ==> l0[a] == stage_level(parts, edges, #[trigger] s0[a].from_partition),
        lx == stage_level(parts, edges, x.from_partition),
        forall|a: int, b: int| 0 <= a < b < s0.len() ==> precedes(parts, edges, s0[a], s0[b]),
        forall|a: int| 0 <= a < pos ==> !ordered(lx as nat, x, l0[a] as nat, #[trigger] s0[a]),
        pos < s0.len() ==> ordered(lx as nat, x, l0[pos] as nat, s0[pos]),
        forall|a: int| 0 <= a < s0.len() ==> key_of(#[trigger] s0[a]) != key_of(x),
    ensures
        forall|a: int| 0 <= a < s0.len() + 1 ==> l0.insert(pos, lx)[a] == stage_level(
            parts,
            edges,
            #[trigger] s0.insert(pos, x)[a].from_partition,
        ),
        forall|a: int, b: int| 0 <= a < b < s0.len() + 1 ==> precedes(parts, edges, s0.insert(pos, x)[a], s0.insert(pos, x)[b]),
{
    let s1 = s0.insert(pos, x);
    let l1 = l0.insert(pos, lx);
    assert forall|a: int| 0 <= a < s0.len() + 1 implies l1[a] == stage_level(
        parts,
        edges,
        #[trigger] s1[a].from_partition,
    ) by {
        if a < pos {
            assert(s1[a] == s0[a] && l1[a] == l0[a]);
        } else if a > pos {
            assert(s1[a] == s0[a - 1] && l1[a] == l0[a - 1]);
        }
    }
    assert forall|a: int, b: int| 0 <= a < b < s0.len() + 1 implies precedes(parts, edges, s1[a], s1[b]) by {
        if b < pos {
            assert(s1[a] == s0[a] && s1[b] == s0[b]);
        } else if b == pos {
            assert(s1[a] == s0[a]);
            assert(!ordered(lx as nat, x, l0[a] as nat, s0[a]));
            assert(key_of(s0[a]) != key_of(x));
        } else if a > pos {
            assert(s1[a] == s0[a - 1] && s1[b] == s0[b - 1]);
        } else if a == pos {
            assert(s1[b] == s0[b - 1]);
            if b - 1 > pos {
                assert(precedes(parts, edges, s0[pos], s0[b - 1]));
            }
        } else {
            assert(s1[a] == s0[a] && s1[b] == s0[b - 1]);
            assert(!ordered(lx as nat, x, l0[a] as nat, s0[a]));
            assert(key_of(s0[a]) != key_of(x));
            if b - 1 > pos {
                assert(precedes(parts, edges, s0[pos], s0[b - 1]));
            }
        }
    }
}

/// Inserting `x` into a sequence holding the first `i` elements of `ts` makes
/// it hold the first `i + 1`.
proof fn lemma_insert_same_elements(s0: Seq<DataTransfer>, ts: Seq<DataTransfer>, i: int, pos: int)
    requires
        0 <= i < ts.len(),
        0 <= pos <= s0.len(),
        same_elements(s0, ts.take(i)),
    ensures
        same_elements(s0.insert(pos, ts[i]), ts.take(i + 1)),
{
    let s1 = s0.insert(pos, ts[i]);
    let t1 = ts.take(i + 1);
    assert forall|a: int| 0 <= a < s1.len() implies t1.contains(#[trigger] s1[a]) by {
        if a == pos {
            assert(t1[i] == ts[i]);
        } else {
            let y = if a < pos {
                s0[a]
            } else {
                s0[a - 1]
            };
            assert(s1[a] == y);
            assert(ts.take(i).contains(y));
            let k = choose|k: int| 0 <= k < ts.take(i).len() && ts.take(i)[k] == y;
            assert(t1[k] == y);
        }
    }
    assert forall|b: int| 0 <= b < t1.len() implies s1.contains(#[trigger] t1[b]) by {
        if b == i {
            assert(s1[pos] == ts[i]);
        } else {
            assert(t1[b] == ts.take(i)[b]);
            let y = t1[b];
            assert(s0.contains(y));
            let k = choose|k: int| 0 <= k < s0.len() && s0[k] == y;
            if k < pos {
                assert(s1[k] == y);
            } else {
                assert(s1[k + 1] == y);
            }
        }
    }
}

/// `ts` in schedule order, each with the level of its source partition.
fn sort_transfers(
    parts: &[Partition],
    edges: &[GraphEdge],
    ts: &Vec<DataTransfer>,
    ids: &Vec<usize>,
    lv: &Vec<usize>,
) -> (res: (Vec<DataTransfer>, Vec<usize>))
    requires
        keys_unique(ts@),
        forall|a: int| 0 <= a < ts@.len() ==> ids@.contains(#[trigger] ts@[a].from_partition),
        lv@.len() == ids@.len(),
        forall|q: int| 0 <= q < ids@.len() ==> lv@[q] == stage_level(parts@, edges@, #[trigger] ids@[q]),
    ensures
        res.1@.len() == res.0@.len(),
        forall|a: int| 0 <= a < res.0@.len() ==> res.1@[a] == stage_level(parts@, edges@, #[trigger] res.0@[a].from_partition),
        forall|a: int, b: int| 0 <= a < b < res.0@.len() ==> precedes(parts@, edges@, res.0@[a], res.0@[b]),
        same_elements(res.0@, ts@),
{
    let mut sorted: Vec<DataTransfer> = Vec::new();
    let mut slv: Vec<usize> = Vec::new();
    let mut i: usize = 0;
    while i < ts.len()
        invariant
            i <= ts@.len(),
            keys_unique(ts@),
            forall|a: int| 0 <= a < ts@.len() ==> ids@.contains(#[trigger] ts@[a].from_partition),
            lv@.len() == ids@.len(),
            forall|q: int| 0 <= q < ids@.len() ==> lv@[q] == stage_level(parts@, edges@, #[trigger] ids@[q]),
            slv@.len() == sorted@.len(),
            forall|a: int| 0 <= a < sorted@.len() ==> slv@[a] == stage_level(parts@, edges@, #[trigger] sorted@[a].from_partition),
            forall|a: int, b: int| 0 <= a < b < sorted@.len() ==> precedes(parts@, edges@, sorted@[a], sorted@[b]),
            same_elements(sorted@, ts@.take(i as int)),
        decreases ts@.len() - i,
    {
        let x = ts[i];
        let px = position_of(ids, x.from_partition);
        let lx = lv[px];
        let mut pos: usize = 0;
        while pos < sorted.len() && !ordered_exec(lx, &x, slv[pos], &sorted[pos])
            invariant
                pos <= sorted@.len(),
                slv@.len() == sorted@.len(),
                forall|a: int| 0 <= a < pos ==> !ordered(lx as nat, x, slv@[a] as nat, #[trigger] sorted@[a]),
            decreases sorted@.len() - pos,
        {
            pos += 1;
        }
        let ghost s0 = sorted@;
        let ghost l0 = slv@;
        proof {
            assert forall|a: int| 0 <= a < s0.len() implies key_of(#[trigger] s0[a]) != key_of(x) by {
                assert(ts@.take(i as int).contains(s0[a]));
                let b = choose|b: int| 0 <= b < ts@.take(i as int).len() && ts@.take(i as int)[b] == s0[a];
                assert(ts@[b] == s0[a]);
                assert(key_of(ts@[b]) != key_of(ts@[i as int]));
            }
            lemma_insert_ordered(parts@, edges@, s0, l0, x, lx, pos as int);
            lemma_insert_same_elements(s0, ts@, i as int, pos as int);
        }
        sorted.insert(pos, x);
        slv.insert(pos, lx);
        i += 1;
    }
    assert(ts@.take(ts@.len() as int) =~= ts@);
    (sorted, slv)
}

/// Schedule-ordered transfers cut into stages, one per level.
fn group_stages(
    parts: &[Partition],
    edges: &[GraphEdge],
    sorted: &Vec<DataTransfer>,
    slv: &Vec<usize>,
) -> (stages: Vec<CommunicationStage>)
    requires
        slv@.len() == sorted@.len(),
        forall|a: int| 0 <= a < sorted@.len() ==> slv@[a] == stage_level(parts@, edges@, #[trigger] sorted@[a].from_partition),
        forall|a: int, b: int| 0 <= a < b < sorted@.len() ==> precedes(parts@, edges@, sorted@[a], sorted@[b]),
    ensures
        flatten(stages@) == sorted@,
        well_staged(parts@, edges@, stages@),
{
    let mut stages: Vec<CommunicationStage> = Vec::new();
    let mut cur: usize = 0;
    let mut i: usize = 0;
    while i < sorted.len()
        invariant
            i <= sorted@.len(),
            slv@.len() == sorted@.len(),
            forall|a: int| 0 <= a < sorted@.len() ==> slv@[a] == stage_level(parts@, edges@, #[trigger] sorted@[a].from_partition),
            forall|a: int, b: int| 0 <= a < b < sorted@.len() ==> precedes(parts@, edges@, sorted@[a], sorted@[b]),
            flatten(stages@) == sorted@.take(i as int),
            well_staged(parts@, edges@, stages@),
            i == 0 <==> stages@.len() == 0,
            i > 0 ==> cur == slv@[i - 1] && cur == level_of_stage(parts@, edges@, stages@.last()),
        decreases sorted@.len() - i,
    {
        let x = sorted[i];
        let lx = slv[i];
        let ghost st0 = stages@;
        proof {
            assert(sorted@.take(i + 1) =~= sorted@.take(i as int).push(x));
            if i > 0 {
                assert(precedes(parts@, edges@, sorted@[i - 1], sorted@[i as int]));
            }
        }
        if stages.len() == 0 || lx != cur {
            let mut transfers: Vec<DataTransfer> = Vec::new();
            transfers.push(x);
            let st = CommunicationStage { stage_id: stages.len(), transfers };
            stages.push(st);
            proof {
                lemma_flatten_push(st0, st);
                assert(st.transfers@ =~= seq![x]);
                assert(level_of_stage(parts@, edges@, st) == lx);
                assert forall|a: int, b: int| 0 <= a < b < stages@.len() implies level_of_stage(
                    parts@,
                    edges@,
                    #[trigger] stages@[a],
                ) < level_of_stage(parts@, edges@, #[trigger] stages@[b]) by {
                    if b == st0.len() {
                        assert(stages@[a] == st0[a]);
                        if a < st0.len() - 1 {
                            assert(level_of_stage(parts@, edges@, st0[a]) < level_of_stage(
                                parts@,
                                edges@,
                                st0[st0.len() - 1],
                            ));
                        }
                    } else {
                        assert(stages@[a] == st0[a] && stages@[b] == st0[b]);
                    }
                }
                assert forall|k: int, a: int|
                    0 <= k < stages@.len() && 0 <= a < stages@[k].transfers@.len() implies stage_level(
                    parts@,
                    edges@,
                    (#[trigger] stages@[k].transfers@[a]).from_partition,
                ) == level_of_stage(parts@, edges@, stages@[k]) by {
                    if k < st0.len() {
                        assert(stages@[k] == st0[k]);
                    }
                }
                assert forall|k: int| 0 <= k < stages@.len() implies (#[trigger] stages@[k]).stage_id
                    == k && stages@[k].transfers@.len() > 0 by {
                    if k < st0.len() {
                        assert(stages@[k] == st0[k]);
                    }
                }
            }
            cur = lx;
        } else {
            let mut last = stages.pop().unwrap();
            let ghost last0 = last;
            let ghost rest = stages@;
            last.transfers.push(x);
            let ghost last1 = last;
            stages.push(last);
            proof {
                assert(st0 =~= rest.push(last0));
                lemma_flatten_push(rest, last0);
                lemma_flatten_push(rest, last1);
                assert(last1.transfers@ =~= last0.transfers@.push(x));
                assert(flatten(stages@) =~= flatten(st0).push(x));
                assert(last1.transfers@[0] == last0.transfers@[0]);
                assert(level_of_stage(parts@, edges@, last1) == level_of_stage(parts@, edges@, last0));
                assert forall|a: int, b: int| 0 <= a < b < stages@.len() implies level_of_stage(
                    parts@,
                    edges@,
                    #[trigger] stages@[a],
                ) < level_of_stage(parts@, edges@, #[trigger] stages@[b]) by {
                    if b == rest.len() {
                        assert(stages@[a] == st0[a]);
                        assert(level_of_stage(parts@, edges@, st0[a]) < level_of_stage(
                            parts@,
                            edges@,
                            st0[b],
                        ));
                    } else {
                        assert(stages@[a] == st0[a] && stages@[b] == st0[b]);
                    }
                }
                assert forall|k: int, a: int|
                    0 <= k < stages@.len() && 0 <= a < stages@[k].transfers@.len() implies stage_level(
                    parts@,
                    edges@,
                    (#[trigger] stages@[k].transfers@[a]).from_partition,
                ) == level_of_stage(parts@, edges@, stages@[k]) by {
                    if k < rest.len() {
                        assert(stages@[k] == st0[k]);
                    } else if a < last0.transfers@.len() {
                        assert(stages@[k].transfers@[a] == st0[k].transfers@[a]);
                    }
                }
                assert forall|k: int| 0 <= k < stages@.len() implies (#[trigger] stages@[k]).stage_id
                    == k && stages@[k].transfers@.len() > 0 by {
                    if k < rest.len() {
                        assert(stages@[k] == st0[k]);
                    }
                }
            }
        }
        i += 1;
    }
    assert(sorted@.take(sorted@.len() as int) =~= sorted@);
    stages
}

/// The saturating sum of the sizes of `ts`.
fn total_size(ts: &Vec<DataTransfer>) -> (total: u64)
    ensures
        total == capped_total(ts@),
{
    let mut total: u64 = 0;
    let mut i: usize = 0;
    while i < ts.len()
        invariant
            i <= ts@.len(),
            total == capped_total(ts@.take(i as int)),
        decreases ts@.len() - i,
    {
        assert(ts@.take(i + 1).drop_last() =~= ts@.take(i as int));
        total = total.saturating_add(ts[i].data_bytes);
        i += 1;
    }
    assert(ts@.take(ts@.len() as int) =~= ts@);
    total
}

/// Build the staged communication schedule of `partitions` joined by `edges`.
///
/// Each distinct (source partition, target partition, producing node) triple
/// becomes one [`DataTransfer`], sized by the largest edge that calls for it.
/// Transfers leave their source partition at its level: the length of the
/// longest path of partitions ending there, or, for a partition that a cycle
/// reaches, one past every other level. One stage holds each level that
/// occurs, in increasing order, its transfers sorted by source, target and
/// node. The total is the saturating sum of the transfer sizes.
pub fn build_communication_schedule(partitions: &[Partition], edges: &[GraphEdge]) -> (s: CommunicationSchedule)
    requires
        partitions@.len() < usize::MAX,
    ensures
        schedules(partitions@, edges@, s),
{
    let cross = crossings(partitions, edges);
    let ids = distinct_partition_ids(partitions);
    let lv = partition_levels(partitions, edges, &cross, &ids);
    let ts = collect_transfers(partitions, edges, &cross);
    proof {
        assert forall|a: int| 0 <= a < ts@.len() implies ids@.contains(#[trigger] ts@[a].from_partition) by {
            let k = key_of(ts@[a]);
            assert(is_transfer(partitions@, edges@, k));
            let j = choose|j: int|
                0 <= j < edges@.len() && transfer_key(partitions@, #[trigger] edges@[j]) == Some(k);
            lemma_crossing_ends(partitions@, edges@[j]);
        }
    }
    let (sorted, slv) = sort_transfers(partitions, edges, &ts, &ids, &lv);
    let stages = group_stages(partitions, edges, &sorted, &slv);
    let total_bytes = total_size(&sorted);
    proof {
        let flat = flatten(stages@);
        assert(flat == sorted@);
        assert forall|a: int, b: int| 0 <= a < b < flat.len() implies key_of(flat[a]) != key_of(flat[b]) by {
            assert(precedes(partitions@, edges@, flat[a], flat[b]));
        }
        assert forall|a: int| 0 <= a < flat.len() implies is_transfer(
            partitions@,
            edges@,
            key_of(#[trigger] flat[a]),
        ) && flat[a].data_bytes == transfer_size(partitions@, edges@, key_of(flat[a])) by {
            assert(ts@.contains(flat[a]));
            let b = choose|b: int| 0 <= b < ts@.len() && ts@[b] == flat[a];
            assert(is_transfer(partitions@, edges@, key_of(ts@[b])));
        }
        assert forall|k: (usize, usize, u64)| #[trigger]
            is_transfer(partitions@, edges@, k) implies exists|a: int|
            0 <= a < flat.len() && key_of(#[trigger] flat[a]) == k by {
            let b = choose|b: int| 0 <= b < ts@.len() && key_of(#[trigger] ts@[b]) == k;
            assert(flat.contains(ts@[b]));
            let a = choose|a: int| 0 <= a < flat.len() && flat[a] == ts@[b];
            assert(key_of(flat[a]) == k);
        }
    }
    CommunicationSchedule { stages, total_bytes }
}

// ─── Dependencies are respected ──────────────────────────────────────────────

proof fn lemma_best_in_monotone_i(
    parts: Seq<Partition>,
    edges: Seq<GraphEdge>,
    v: usize,
    k: nat,
    i: nat,
    i2: nat,
)
    requires
        i <= i2,
    ensures
        best_in(parts, edges, v, k, i) <= best_in(parts, edges, v, k, i2),
    decreases i2,
{
    if i < i2 {
        lemma_best_in_monotone_i(parts, edges, v, k, i, (i2 - 1) as nat);
    }
}

/// A step along a crossing edge `u → v` lengthens the walks ending at `u`.
proof fn lemma_walk_depth_edge(parts: Seq<Partition>, edges: Seq<GraphEdge>, j: int, u: usize, v: usize, k: nat)
    requires
        0 <= j < edges.len(),
        crossing(parts, edges[j]) == Some((u, v)),
        k > 0,
    ensures
        walk_depth(parts, edges, v, k) >= walk_depth(parts, edges, u, (k - 1) as nat) + 1,
{
    lemma_best_in_monotone_i(parts, edges, v, k, (j + 1) as nat, edges.len());
}

/// A non-zero best is attained by some crossing edge into `v`.
proof fn lemma_best_in_attained(parts: Seq<Partition>, edges: Seq<GraphEdge>, v: usize, k: nat, i: nat)
    ensures
        best_in(parts, edges, v, k, i) == 0 || exists|j: int, u: usize|
            0 <= j < i && k > 0 && crossing(parts, edges[j]) == Some((u, v)) && best_in(
                parts,
                edges,
                v,
                k,
                i,
            ) == walk_depth(parts, edges, u, (k - 1) as nat) + 1,
    decreases i,
{
    if i > 0 {
        lemma_best_in_attained(parts, edges, v, k, (i - 1) as nat);
    }
}

/// More fuel never shortens the longest walk.
proof fn lemma_walk_depth_monotone(parts: Seq<Partition>, edges: Seq<GraphEdge>, v: usize, k: nat)
    ensures
        walk_depth(parts, edges, v, k) <= walk_depth(parts, edges, v, k + 1),
    decreases k,
{
    lemma_best_in_attained(parts, edges, v, k, edges.len());
    if walk_depth(parts, edges, v, k) > 0 {
        let (j, u) = choose|j: int, u: usize|
            0 <= j < edges.len() && k > 0 && crossing(parts, edges[j]) == Some((u, v)) && best_in(
                parts,
                edges,
                v,
                k,
                edges.len(),
            ) == walk_depth(parts, edges, u, (k - 1) as nat) + 1;
        lemma_walk_depth_monotone(parts, edges, u, (k - 1) as nat);
        lemma_walk_depth_edge(parts, edges, j, u, v, k + 1);
    }
}

/// Extra fuel lengthens the longest walk only while the fuel is what bounds it.
proof fn lemma_walk_depth_saturates(parts: Seq<Partition>, edges: Seq<GraphEdge>, v: usize, k: nat)
    ensures
        walk_depth(parts, edges, v, k + 1) == walk_depth(parts, edges, v, k) || walk_depth(
            parts,
            edges,
            v,
            k,
        ) == k,
    decreases k,
{
    lemma_walk_depth_monotone(parts, edges, v, k);
    lemma_walk_depth_bounded(parts, edges, v, k);
    lemma_walk_depth_bounded(parts, edges, v, k + 1);
    if k > 0 && walk_depth(parts, edges, v, k + 1) > walk_depth(parts, edges, v, k) {
        lemma_best_in_attained(parts, edges, v, k + 1, edges.len());
        let (j, u) = choose|j: int, u: usize|
            0 <= j < edges.len() && k + 1 > 0 && crossing(parts, edges[j]) == Some((u, v))
                && best_in(parts, edges, v, k + 1, edges.len()) == walk_depth(parts, edges, u, k) + 1;
        lemma_walk_depth_edge(parts, edges, j, u, v, k);
        lemma_walk_depth_saturates(parts, edges, u, (k - 1) as nat);
        lemma_walk_depth_monotone(parts, edges, u, (k - 1) as nat);
    }
}

proof fn lemma_flatten_contains(stages: Seq<CommunicationStage>, i: int, a: int)
    requires
        0 <= i < stages.len(),
        0 <= a < stages[i].transfers@.len(),
    ensures
        flatten(stages).contains(stages[i].transfers@[a]),
    decreases stages.len(),
{
    let rest = stages.drop_last();
    let f = flatten(rest) + stages.last().transfers@;
    if i == stages.len() - 1 {
        assert(f[flatten(rest).len() + a] == stages[i].transfers@[a]);
    } else {
        assert(rest[i] == stages[i]);
        lemma_flatten_contains(rest, i, a);
        let k = choose|k: int| 0 <= k < flatten(rest).len() && flatten(rest)[k] == stages[i].transfers@[a];
        assert(f[k] == flatten(rest)[k]);
    }
}

/// A schedule moves an activation into a partition before anything leaves
/// that partition: when transfer `x` delivers to the partition that transfer
/// `y` leaves, and no cycle of partitions reaches that partition, `x` is in an
/// earlier stage than `y`.
pub proof fn law_schedule_respects_dependencies(
    parts: Seq<Partition>,
    edges: Seq<GraphEdge>,
    s: CommunicationSchedule,
    i: int,
    a: int,
    j: int,
    b: int,
)
    requires
        schedules(parts, edges, s),
        0 <= i < s.stages@.len(),
        0 <= a < s.stages@[i].transfers@.len(),
        0 <= j < s.stages@.len(),
        0 <= b < s.stages@[j].transfers@.len(),
        s.stages@[i].transfers@[a].to_partition == s.stages@[j].transfers@[b].from_partition,
        settled(parts, edges, s.stages@[j].transfers@[b].from_partition),
    ensures
        i < j,
{
    let x = s.stages@[i].transfers@[a];
    let y = s.stages@[j].transfers@[b];
    let flat = flatten(s.stages@);
    lemma_flatten_contains(s.stages@, i, a);
    let p = choose|p: int| 0 <= p < flat.len() && flat[p] == x;
    assert(is_transfer(parts, edges, key_of(flat[p])));
    let jj = choose|jj: int|
        0 <= jj < edges.len() && transfer_key(parts, #[trigger] edges[jj]) == Some(key_of(x));
    let f = x.from_partition;
    let v = y.from_partition;
    assert(crossing(parts, edges[jj]) == Some((f, v)));
    let n = node_count(parts);
    lemma_crossing_ends(parts, edges[jj]);
    assert(n > 0) by {
        assert(partition_ids(parts).contains(f));
    }
    lemma_walk_depth_edge(parts, edges, jj, f, v, n);
    lemma_walk_depth_saturates(parts, edges, f, (n - 1) as nat);
    lemma_walk_depth_bounded(parts, edges, f, (n - 1) as nat);
    assert(settled(parts, edges, f));
    assert(stage_level(parts, edges, f) < stage_level(parts, edges, v));
    if i >= j {
        assert(level_of_stage(parts, edges, s.stages@[i]) == stage_level(parts, edges, f));
        assert(level_of_stage(parts, edges, s.stages@[j]) == stage_level(parts, edges, v));
        if i > j {
            assert(level_of_stage(parts, edges, s.stages@[j]) < level_of_stage(parts, edges, s.stages@[i]));
        }
    }
}

} // verus!
