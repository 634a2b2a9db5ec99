//! Build an ordered pipeline of self-contained stages from a node → peer
//! placement.
//!
//! Each peer becomes one stage that owns its placed nodes and lists, as
//! boundary inputs, every activation it consumes that is produced elsewhere
//! (or is a graph input, sourced from the pipeline's initial values), so a
//! stage can be executed on its own. Stages are emitted in dependency order:
//! a topological sort (Kahn's algorithm, seeded in order of first appearance)
//! of the peer-level graph, where peer `a` precedes peer `b` whenever a node
//! placed on `b` consumes an activation produced on `a`.
//!
//! The graph is read as a [`GraphLayout`]: its nodes in topological order,
//! each with the ids of its operands, and the ids of its inputs and outputs.
//! Node and peer ids are numeric handles.
//!
//! The model: `stage_order` is the list of peers by first appearance,
//! `all_events` the boundary, output and dependency facts in the order the
//! scan meets them, `kahn` the dependency ordering, and `planned_stage` the
//! stage built for a peer.

use crate::computation_graph::GraphError;
use crate::distributed_optimizer::{decimal, decimal_string};
use std::collections::HashMap;
use vstd::prelude::*;

verus! {

/// A node as the planner reads it: its id and the ids of its operands.
#[derive(Debug, Clone, PartialEq, Eq)]
pub struct PlanNode {
    pub id: u64,
    pub inputs: Vec<u64>,
}

/// The shape of a computation graph: its nodes in topological order, and the
/// ids of the graph's inputs and outputs.
#[derive(Debug, Clone, PartialEq, Eq)]
pub struct GraphLayout {
    pub topo: Vec<PlanNode>,
    pub inputs: Vec<u64>,
    pub outputs: Vec<u64>,
}

/// One stage of a distributed pipeline: the nodes pinned to a peer (in
/// topological order), the activation ids it consumes from upstream (or from
/// the initial values), and the ids it produces for downstream stages or as
/// graph outputs.
#[derive(Debug, Clone, PartialEq, Eq)]
pub struct PipelineStage {
    /// Peer that executes this stage.
    pub peer: u64,
    /// The stage's own nodes; every other operand is fed from `input_ids`.
    pub node_ids: Vec<u64>,
    /// Activation ids this stage needs, looked up in the running environment.
    pub input_ids: Vec<u64>,
    /// Node ids this stage produces and publishes back to the environment.
    pub output_ids: Vec<u64>,
}

impl PipelineStage {
    /// Construct a pipeline stage.
    pub fn new(peer: u64, node_ids: Vec<u64>, input_ids: Vec<u64>, output_ids: Vec<u64>) -> (s: Self)
        ensures
            s == (PipelineStage { peer, node_ids, input_ids, output_ids }),
    {
        PipelineStage { peer, node_ids, input_ids, output_ids }
    }
}

// ─── The model ────────────────────────────────────────────────────────────────

/// The id of the `i`-th node in topological order.
pub open spec fn nid(g: GraphLayout, i: int) -> u64 {
    g.topo@[i].id
}

/// The node ids, in topological order.
pub open spec fn node_ids(g: GraphLayout) -> Seq<u64> {
    Seq::new(g.topo@.len(), |i: int| nid(g, i))
}

/// The graph the planner accepts: node ids are distinct, and every operand is
/// a graph input or a node of the graph.
pub open spec fn well_formed(g: GraphLayout) -> bool {
    &&& forall|i: int, j: int| 0 <= i < j < g.topo@.len() ==> nid(g, i) != nid(g, j)
    &&& forall|i: int, k: int|
        0 <= i < g.topo@.len() && 0 <= k < g.topo@[i].inputs@.len() ==> {
            let op = #[trigger] g.topo@[i].inputs@[k];
            g.inputs@.contains(op) || node_ids(g).contains(op)
        }
}

/// Every node of the graph has a peer.
pub open spec fn all_placed(g: GraphLayout, p: Map<u64, u64>) -> bool {
    forall|i: int| 0 <= i < g.topo@.len() ==> p.contains_key(#[trigger] nid(g, i))
}

/// Node `i` is the first one without a peer.
pub open spec fn first_unplaced(g: GraphLayout, p: Map<u64, u64>, i: int) -> bool {
    &&& 0 <= i < g.topo@.len()
    &&& !p.contains_key(nid(g, i))
    &&& forall|j: int| 0 <= j < i ==> p.contains_key(#[trigger] nid(g, j))
}

/// `s` without repetitions, each element kept at its first occurrence.
pub open spec fn dedup_first<T>(s: Seq<T>) -> Seq<T>
    decreases s.len(),
{
    if s.len() == 0 {
        s
    } else {
        let d = dedup_first(s.drop_last());
        if d.contains(s.last()) {
            d
        } else {
            d.push(s.last())
        }
    }
}

/// The peer of every node, in topological order.
pub open spec fn peer_seq(g: GraphLayout, p: Map<u64, u64>) -> Seq<u64> {
    Seq::new(g.topo@.len(), |i: int| p[nid(g, i)])
}

/// The peers in order of first appearance: one stage each.
pub open spec fn stage_order(g: GraphLayout, p: Map<u64, u64>) -> Seq<u64> {
    dedup_first(peer_seq(g, p))
}

/// The position of the first `x` in `s`.
pub open spec fn first_pos(s: Seq<u64>, x: u64) -> int
    decreases s.len(),
{
    if s.len() == 0 || s[0] == x {
        0
    } else {
        1 + first_pos(s.drop_first(), x)
    }
}

/// The stage index of the peer that holds node `id`.
pub open spec fn stage_of(g: GraphLayout, p: Map<u64, u64>, id: u64) -> int {
    first_pos(stage_order(g, p), p[id])
}

/// `x` is an input of the graph.
pub open spec fn gin(g: GraphLayout, x: u64) -> bool {
    g.inputs@.contains(x)
}

/// `x` is an output of the graph.
pub open spec fn gout(g: GraphLayout, x: u64) -> bool {
    g.outputs@.contains(x)
}

/// The stage index of node `i`.
pub open spec fn node_stage(g: GraphLayout, p: Map<u64, u64>, i: int) -> int {
    stage_of(g, p, nid(g, i))
}

/// Operand `op` of a node on stage `st` is an activation produced on another
/// stage.
pub open spec fn crosses(g: GraphLayout, p: Map<u64, u64>, st: int, op: u64) -> bool {
    !gin(g, op) && stage_of(g, p, op) != st
}

/// The boundary inputs that operands `ops` of a node on stage `st` bring:
/// graph inputs, and activations produced on another stage.
pub open spec fn ops_ins(g: GraphLayout, p: Map<u64, u64>, st: int, ops: Seq<u64>) -> Seq<(usize, u64)>
    decreases ops.len(),
{
    if ops.len() == 0 {
        seq![]
    } else {
        let r = ops_ins(g, p, st, ops.drop_last());
        if gin(g, ops.last()) || crosses(g, p, st, ops.last()) {
            r.push((st as usize, ops.last()))
        } else {
            r
        }
    }
}

/// The activations that operands `ops` of a node on stage `st` require other
/// stages to publish, paired with their producing stage.
pub open spec fn ops_outs(g: GraphLayout, p: Map<u64, u64>, st: int, ops: Seq<u64>) -> Seq<(usize, u64)>
    decreases ops.len(),
{
    if ops.len() == 0 {
        seq![]
    } else {
        let r = ops_outs(g, p, st, ops.drop_last());
        if crosses(g, p, st, ops.last()) {
            r.push((stage_of(g, p, ops.last()) as usize, ops.last()))
        } else {
            r
        }
    }
}

/// The stage dependencies (producer, consumer) that operands `ops` of a node
/// on stage `st` bring.
pub open spec fn ops_deps(g: GraphLayout, p: Map<u64, u64>, st: int, ops: Seq<u64>) -> Seq<(usize, usize)>
    decreases ops.len(),
{
    if ops.len() == 0 {
        seq![]
    } else {
        let r = ops_deps(g, p, st, ops.drop_last());
        if crosses(g, p, st, ops.last()) {
            r.push((stage_of(g, p, ops.last()) as usize, st as usize))
        } else {
            r
        }
    }
}

/// The boundary inputs node `i` brings: itself when it is a graph input, then
/// those of its operands.
pub open spec fn node_ins(g: GraphLayout, p: Map<u64, u64>, i: int) -> Seq<(usize, u64)> {
    let st = node_stage(g, p, i);
    (if gin(g, nid(g, i)) {
        seq![(st as usize, nid(g, i))]
    } else {
        seq![]
    }) + ops_ins(g, p, st, g.topo@[i].inputs@)
}

/// The published activations node `i` brings: itself when it is a graph
/// output, then the cross-stage operands it consumes.
pub open spec fn node_outs(g: GraphLayout, p: Map<u64, u64>, i: int) -> Seq<(usize, u64)> {
    let st = node_stage(g, p, i);
    (if gout(g, nid(g, i)) {
        seq![(st as usize, nid(g, i))]
    } else {
        seq![]
    }) + ops_outs(g, p, st, g.topo@[i].inputs@)
}

/// The stage dependencies node `i` brings.
pub open spec fn node_deps(g: GraphLayout, p: Map<u64, u64>, i: int) -> Seq<(usize, usize)> {
    ops_deps(g, p, node_stage(g, p, i), g.topo@[i].inputs@)
}

/// The boundary inputs of the first `k` nodes, in scan order.
pub open spec fn ins_upto(g: GraphLayout, p: Map<u64, u64>, k: int) -> Seq<(usize, u64)>
    decreases k,
{
    if k <= 0 {
        seq![]
    } else {
        ins_upto(g, p, k - 1) + node_ins(g, p, k - 1)
    }
}

/// The published activations of the first `k` nodes, in scan order.
pub open spec fn outs_upto(g: GraphLayout, p: Map<u64, u64>, k: int) -> Seq<(usize, u64)>
    decreases k,
{
    if k <= 0 {
        seq![]
    } else {
        outs_upto(g, p, k - 1) + node_outs(g, p, k - 1)
    }
}

/// The stage dependencies of the first `k` nodes, in scan order.
pub open spec fn deps_upto(g: GraphLayout, p: Map<u64, u64>, k: int) -> Seq<(usize, usize)>
    decreases k,
{
    if k <= 0 {
        seq![]
    } else {
        deps_upto(g, p, k - 1) + node_deps(g, p, k - 1)
    }
}

/// The distinct (stage, activation) boundary inputs, in order of first
/// occurrence.
pub open spec fn boundary_pairs(g: GraphLayout, p: Map<u64, u64>) -> Seq<(usize, u64)> {
    dedup_first(ins_upto(g, p, g.topo@.len() as int))
}

/// The distinct (stage, activation) published outputs, in order of first
/// occurrence.
pub open spec fn output_pairs(g: GraphLayout, p: Map<u64, u64>) -> Seq<(usize, u64)> {
    dedup_first(outs_upto(g, p, g.topo@.len() as int))
}

/// The distinct stage dependencies (producer, consumer), in order of first
/// occurrence.
pub open spec fn stage_deps(g: GraphLayout, p: Map<u64, u64>) -> Seq<(usize, usize)> {
    dedup_first(deps_upto(g, p, g.topo@.len() as int))
}

// ─── Dependency order (Kahn's algorithm) ─────────────────────────────────────

/// The number of dependencies in `es` that end at stage `t`.
pub open spec fn count_into(es: Seq<(usize, usize)>, t: int) -> nat
    decreases es.len(),
{
    if es.len() == 0 {
        0
    } else {
        count_into(es.drop_last(), t) + if es.last().1 == t {
            1nat
        } else {
            0nat
        }
    }
}

/// The stages below `m` that no dependency ends at, in index order: the
/// initial queue.
pub open spec fn seeds(es: Seq<(usize, usize)>, m: int) -> Seq<usize>
    decreases m,
{
    if m <= 0 {
        seq![]
    } else if count_into(es, m - 1) == 0 {
        seeds(es, m - 1).push((m - 1) as usize)
    } else {
        seeds(es, m - 1)
    }
}

/// The in-degree of every stage below `m`.
pub open spec fn indeg0(es: Seq<(usize, usize)>, m: int) -> Seq<int> {
    Seq::new(m as nat, |t: int| count_into(es, t) as int)
}

/// Take stage `s`: every dependency `(s, t)` in `es`, in order, lowers the
/// count of `t`, and `t` joins the queue when its count reaches zero.
pub open spec fn relax(es: Seq<(usize, usize)>, s: usize, q: Seq<usize>, d: Seq<int>) -> (Seq<usize>, Seq<int>)
    decreases es.len(),
{
    if es.len() == 0 {
        (q, d)
    } else {
        let (q1, d1) = relax(es.drop_last(), s, q, d);
        let e = es.last();
        if e.0 == s {
            let d2 = d1.update(e.1 as int, d1[e.1 as int] - 1);
            if d2[e.1 as int] == 0 {
                (q1.push(e.1), d2)
            } else {
                (q1, d2)
            }
        } else {
            (q1, d1)
        }
    }
}

/// The queue (everything ever queued) and the counts after the first `k`
/// queued stages have been taken.
pub open spec fn kahn_steps(es: Seq<(usize, usize)>, m: int, k: nat) -> (Seq<usize>, Seq<int>)
    decreases k,
{
    if k == 0 {
        (seeds(es, m), indeg0(es, m))
    } else {
        let (q, d) = kahn_steps(es, m, (k - 1) as nat);
        if k - 1 < q.len() {
            relax(es, q[k - 1], q, d)
        } else {
            (q, d)
        }
    }
}

/// The stages of `m` in the order Kahn's algorithm takes them; it holds all
/// `m` stages exactly when the dependencies have no cycle.
pub open spec fn kahn_order(es: Seq<(usize, usize)>, m: int) -> Seq<usize> {
    kahn_steps(es, m, m as nat).0
}

/// The number of dependencies in `es` that end at `t` and start at a stage
/// not yet taken.
pub open spec fn count_live(es: Seq<(usize, usize)>, t: int, taken: Seq<usize>) -> nat
    decreases es.len(),
{
    if es.len() == 0 {
        0
    } else {
        count_live(es.drop_last(), t, taken) + if es.last().1 == t && !taken.contains(es.last().0) {
            1nat
        } else {
            0nat
        }
    }
}

/// The number of times `(s, t)` occurs in `es`.
pub open spec fn count_pair(es: Seq<(usize, usize)>, s: usize, t: int) -> nat
    decreases es.len(),
{
    if es.len() == 0 {
        0
    } else {
        count_pair(es.drop_last(), s, t) + if es.last().0 == s && es.last().1 == t {
            1nat
        } else {
            0nat
        }
    }
}

/// Every queued stage comes after the sources of all dependencies into it.
pub open spec fn waits_earlier(es: Seq<(usize, usize)>, q: Seq<usize>) -> bool {
    forall|y: int, j: int|
        #![trigger es[j], q[y]]
        0 <= y < q.len() && 0 <= j < es.len() && es[j].1 == q[y] ==> q.take(y).contains(es[j].0)
}

/// The Kahn state `(q, d)` after `k` takes: `q` is duplicate-free over stages
/// below `m`, each count is the number of dependencies into the stage from
/// stages not yet taken, and a stage is queued exactly when its count is zero.
pub open spec fn kahn_inv(es: Seq<(usize, usize)>, m: int, k: int, q: Seq<usize>, d: Seq<int>) -> bool {
    &&& 0 <= k <= q.len()
    &&& q.no_duplicates()
    &&& forall|a: int| 0 <= a < q.len() ==> q[a] < m
    &&& d.len() == m
    &&& forall|t: int| 0 <= t < m ==> #[trigger] d[t] == count_live(es, t, q.take(k)) as int
    &&& forall|t: int| 0 <= t < m ==> (q.contains(t as usize) <==> d[t] == 0)
    &&& waits_earlier(es, q)
}

// ─── Lemmas on the dependency order ──────────────────────────────────────────

/// Every dependency joins two stages below `m`.
pub open spec fn deps_in_range(es: Seq<(usize, usize)>, m: int) -> bool {
    forall|j: int| 0 <= j < es.len() ==> (#[trigger] es[j]).0 < m && es[j].1 < m
}

proof fn lemma_count_live_none(es: Seq<(usize, usize)>, t: int)
    ensures
        count_live(es, t, seq![]) == count_into(es, t),
    decreases es.len(),
{
    if es.len() > 0 {
        lemma_count_live_none(es.drop_last(), t);
    }
}

proof fn lemma_count_live_take(es: Seq<(usize, usize)>, t: int, taken: Seq<usize>, s: usize)
    requires
        !taken.contains(s),
    ensures
        count_live(es, t, taken.push(s)) + count_pair(es, s, t) == count_live(es, t, taken),
    decreases es.len(),
{
    if es.len() > 0 {
        lemma_count_live_take(es.drop_last(), t, taken, s);
        lemma_push_contains(taken, s, es.last().0);
    }
}

proof fn lemma_count_pair_prefix(es: Seq<(usize, usize)>, s: usize, t: int, j: int)
    requires
        0 <= j <= es.len(),
    ensures
        count_pair(es.take(j), s, t) <= count_pair(es, s, t),
    decreases es.len(),
{
    if j < es.len() {
        assert(es.drop_last().take(j) =~= es.take(j));
        lemma_count_pair_prefix(es.drop_last(), s, t, j);
    } else {
        assert(es.take(j) =~= es);
    }
}

proof fn lemma_count_into_zero(es: Seq<(usize, usize)>, t: int, j: int)
    requires
        count_into(es, t) == 0,
        0 <= j < es.len(),
    ensures
        es[j].1 != t,
    decreases es.len(),
{
    if j < es.len() - 1 {
        lemma_count_into_zero(es.drop_last(), t, j);
    }
}

proof fn lemma_count_live_zero(es: Seq<(usize, usize)>, t: int, taken: Seq<usize>, j: int)
    requires
        count_live(es, t, taken) == 0,
        0 <= j < es.len(),
        es[j].1 == t,
    ensures
        taken.contains(es[j].0),
    decreases es.len(),
{
    if j < es.len() - 1 {
        lemma_count_live_zero(es.drop_last(), t, taken, j);
    }
}

proof fn lemma_seeds(es: Seq<(usize, usize)>, m: int)
    requires
        0 <= m <= usize::MAX + 1,
    ensures
        seeds(es, m).no_duplicates(),
        forall|a: int| 0 <= a < seeds(es, m).len() ==> seeds(es, m)[a] < m,
        forall|t: int|
            0 <= t < m ==> (seeds(es, m).contains(t as usize) <==> count_into(es, t) == 0),
        forall|a: int| 0 <= a < seeds(es, m).len() ==> count_into(es, #[trigger] seeds(es, m)[a] as int) == 0,
    decreases m,
{
    if m > 0 {
        lemma_seeds(es, m - 1);
        let r = seeds(es, m - 1);
        assert forall|t: int| 0 <= t < m implies (seeds(es, m).contains(t as usize) <==> count_into(
            es,
            t,
        ) == 0) by {
            lemma_push_contains(r, (m - 1) as usize, t as usize);
            if t == m - 1 && r.contains(t as usize) {
                let a = choose|a: int| 0 <= a < r.len() && r[a] == t as usize;
                assert(r[a] < m - 1);
            }
        }
        if count_into(es, m - 1) == 0 {
            if r.contains((m - 1) as usize) {
                let a = choose|a: int| 0 <= a < r.len() && r[a] == (m - 1) as usize;
                assert(r[a] < m - 1);
            }
        }
    }
}

proof fn lemma_distinct_bounded(q: Seq<usize>, m: int)
    requires
        0 <= m <= usize::MAX + 1,
        q.no_duplicates(),
        forall|a: int| 0 <= a < q.len() ==> q[a] < m,
    ensures
        q.len() <= m,
    decreases m,
{
    if m > 0 {
        let top = (m - 1) as usize;
        if q.contains(top) {
            let k = choose|k: int| 0 <= k < q.len() && q[k] == top;
            let r = q.remove(k);
            q.remove_ensures(k);
            assert forall|a: int, b: int| 0 <= a < b < r.len() implies r[a] != r[b] by {
                let ia = if a < k { a } else { a + 1 };
                let ib = if b < k { b } else { b + 1 };
                assert(r[a] == q[ia] && r[b] == q[ib]);
            }
            assert forall|a: int| 0 <= a < r.len() implies r[a] < m - 1 by {
                let ia = if a < k { a } else { a + 1 };
                assert(r[a] == q[ia]);
            }
            lemma_distinct_bounded(r, m - 1);
            assert(r.len() == q.len() - 1);
            assert(q.len() <= m);
        } else {
            assert forall|a: int| 0 <= a < q.len() implies q[a] < m - 1 by {
                assert(q[a] != top);
            }
            lemma_distinct_bounded(q, m - 1);
            assert(q.len() <= m);
        }
    } else if q.len() > 0 {
        assert(q[0] < m);
    }
}

proof fn lemma_relax(es: Seq<(usize, usize)>, m: int, k: int, q: Seq<usize>, d: Seq<int>, j: int)
    requires
        0 <= m <= usize::MAX + 1,
        deps_in_range(es, m),
        kahn_inv(es, m, k, q, d),
        k < q.len(),
        0 <= j <= es.len(),
    ensures
        ({
            let (q2, d2) = relax(es.take(j), q[k], q, d);
            &&& q2.no_duplicates()
            &&& forall|a: int| 0 <= a < q2.len() ==> q2[a] < m
            &&& q.len() <= q2.len()
            &&& q2.take(q.len() as int) == q
            &&& d2.len() == m
            &&& forall|t: int|
                0 <= t < m ==> #[trigger] d2[t] == count_live(es, t, q.take(k)) - count_pair(
                    es.take(j),
                    q[k],
                    t,
                ) && d2[t] >= 0
            &&& forall|t: int| 0 <= t < m ==> (q2.contains(t as usize) <==> d2[t] == 0)
            &&& waits_earlier(es, q2)
        }),
    decreases j,
{
    let s = q[k];
    assert(!q.take(k).contains(s)) by {
        if q.take(k).contains(s) {
            let a = choose|a: int| 0 <= a < k && q.take(k)[a] == s;
            assert(q[a] == q[k]);
        }
    }
    if j == 0 {
        assert(es.take(0) =~= Seq::<(usize, usize)>::empty());
        assert(q.take(q.len() as int) =~= q);
        assert forall|t: int| 0 <= t < m implies #[trigger] d[t] == count_live(es, t, q.take(k))
            - count_pair(es.take(j), q[k], t) && d[t] >= 0 by {
        }
    } else {
        lemma_relax(es, m, k, q, d, j - 1);
        let (q1, d1) = relax(es.take(j - 1), s, q, d);
        assert(es.take(j).drop_last() =~= es.take(j - 1));
        let e = es[j - 1];
        assert(es.take(j).last() == e);
        assert forall|t: int| 0 <= t < m implies count_pair(es.take(j), s, t) <= count_pair(es, s, t)
            && count_pair(es, s, t) <= count_live(es, t, q.take(k)) by {
            lemma_count_pair_prefix(es, s, t, j);
            lemma_count_live_take(es, t, q.take(k), s);
        }
        if e.0 == s {
            let t0 = e.1 as int;
            assert(0 <= t0 < m);
            let d2 = d1.update(t0, d1[t0] - 1);
            assert(count_pair(es.take(j), s, t0) == count_pair(es.take(j - 1), s, t0) + 1);
            lemma_count_pair_prefix(es, s, t0, j);
            lemma_count_live_take(es, t0, q.take(k), s);
            assert(count_pair(es.take(j), s, t0) <= count_live(es, t0, q.take(k)));
            assert(d1[t0] >= 1);
            assert(!q1.contains(e.1));
            assert forall|t: int| 0 <= t < m implies #[trigger] d2[t] == count_live(es, t, q.take(k))
                - count_pair(es.take(j), q[k], t) && d2[t] >= 0 by {
            }
            if d2[t0] == 0 {
                let q2 = q1.push(e.1);
                assert(q2.take(q.len() as int) =~= q1.take(q.len() as int));
                lemma_count_live_take(es, t0, q.take(k), s);
                assert(count_live(es, t0, q.take(k).push(s)) == 0);
                assert(q.take(k).push(s) =~= q.take(k + 1));
                assert forall|y: int, jj: int|
                    #![trigger es[jj], q2[y]]
                    0 <= y < q2.len() && 0 <= jj < es.len() && es[jj].1 == q2[y] implies q2.take(y).contains(
                        es[jj].0,
                    ) by {
                    if y < q1.len() {
                        assert(q2[y] == q1[y]);
                        assert(q2.take(y) =~= q1.take(y));
                    } else {
                        lemma_count_live_zero(es, t0, q.take(k + 1), jj);
                        let a = choose|a: int| 0 <= a < k + 1 && #[trigger] q.take(k + 1)[a] == es[jj].0;
                        assert(q1.take(q.len() as int)[a] == q[a]);
                        assert(q2.take(y)[a] == es[jj].0);
                    }
                }
                assert forall|t: int| 0 <= t < m implies (q2.contains(t as usize) <==> d2[t] == 0) by {
                    lemma_push_contains(q1, e.1, t as usize);
                }
            } else {
                assert forall|t: int| 0 <= t < m implies (q1.contains(t as usize) <==> d2[t] == 0) by {
                }
            }
        } else {
            assert forall|t: int| 0 <= t < m implies #[trigger] d1[t] == count_live(es, t, q.take(k))
                - count_pair(es.take(j), q[k], t) && d1[t] >= 0 by {
            }
        }
    }
}

proof fn lemma_kahn_step(es: Seq<(usize, usize)>, m: int, k: int, q: Seq<usize>, d: Seq<int>)
    requires
        0 <= m <= usize::MAX + 1,
        deps_in_range(es, m),
        kahn_inv(es, m, k, q, d),
        k < q.len(),
    ensures
        kahn_inv(es, m, k + 1, relax(es, q[k], q, d).0, relax(es, q[k], q, d).1),
        relax(es, q[k], q, d).0.take(q.len() as int) == q,
{
    lemma_relax(es, m, k, q, d, es.len() as int);
    assert(es.take(es.len() as int) =~= es);
    let (q2, d2) = relax(es, q[k], q, d);
    assert(!q.take(k).contains(q[k])) by {
        if q.take(k).contains(q[k]) {
            let a = choose|a: int| 0 <= a < k && q.take(k)[a] == q[k];
            assert(q[a] == q[k]);
        }
    }
    assert(q2.take(k + 1) =~= q.take(k).push(q[k])) by {
        assert(q2.take(q.len() as int) == q);
        assert forall|a: int| 0 <= a < k + 1 implies q2.take(k + 1)[a] == q.take(k).push(q[k])[a] by {
            assert(q2[a] == q2.take(q.len() as int)[a]);
        }
    }
    assert forall|t: int| 0 <= t < m implies #[trigger] d2[t] == count_live(es, t, q2.take(k + 1)) as int by {
        lemma_count_live_take(es, t, q.take(k), q[k]);
    }
}

proof fn lemma_kahn_inv(es: Seq<(usize, usize)>, m: int, k: nat)
    requires
        deps_in_range(es, m),
        0 <= m <= usize::MAX + 1,
    ensures
        ({
            let (q, d) = kahn_steps(es, m, k);
            kahn_inv(es, m, if k <= q.len() { k as int } else { q.len() as int }, q, d)
        }),
    decreases k,
{
    if k == 0 {
        lemma_seeds(es, m);
        assert(seeds(es, m).take(0) =~= Seq::<usize>::empty());
        assert forall|y: int, j: int|
            #![trigger es[j], seeds(es, m)[y]]
            0 <= y < seeds(es, m).len() && 0 <= j < es.len() && es[j].1 == seeds(es, m)[y] implies seeds(
                es,
                m,
            ).take(y).contains(es[j].0) by {
            lemma_count_into_zero(es, seeds(es, m)[y] as int, j);
        }
        assert forall|t: int| 0 <= t < m implies #[trigger] indeg0(es, m)[t] == count_live(
            es,
            t,
            seeds(es, m).take(0),
        ) as int by {
            lemma_count_live_none(es, t);
        }
    } else {
        lemma_kahn_inv(es, m, (k - 1) as nat);
        let (q, d) = kahn_steps(es, m, (k - 1) as nat);
        if k - 1 < q.len() {
            lemma_kahn_step(es, m, k - 1, q, d);
        }
    }
}

proof fn lemma_kahn_stable(es: Seq<(usize, usize)>, m: int, k: nat, k2: nat)
    requires
        kahn_steps(es, m, k).0.len() == k,
        k <= k2,
    ensures
        kahn_steps(es, m, k2) == kahn_steps(es, m, k),
    decreases k2,
{
    if k2 > k {
        lemma_kahn_stable(es, m, k, (k2 - 1) as nat);
    }
}

/// The message for a node without a peer.
pub open spec fn unplaced_message(id: u64) -> Seq<char> {
    "plan_pipeline: node '"@ + decimal(id as nat) + "' has no placement"@
}

/// The message for a placement whose stage graph has a cycle.
pub open spec fn cycle_message() -> Seq<char> {
    "plan_pipeline: placement induces a cyclic stage graph"@
}

// ─── Lemmas on the model ──────────────────────────────────────────────────────

proof fn lemma_dedup_contains<T>(s: Seq<T>, x: T)
    ensures
        dedup_first(s).contains(x) <==> s.contains(x),
    decreases s.len(),
{
    if s.len() > 0 {
        let t = s.drop_last();
        let y = s.last();
        let d = dedup_first(t);
        lemma_dedup_contains(t, x);
        lemma_dedup_contains(t, y);
        lemma_push_contains(t, y, x);
        assert(s =~= t.push(y));
        lemma_push_contains(d, y, x);
    }
}

proof fn lemma_push_contains<T>(s: Seq<T>, y: T, x: T)
    ensures
        s.push(y).contains(x) <==> (s.contains(x) || x == y),
{
    if s.contains(x) {
        let k = choose|k: int| 0 <= k < s.len() && s[k] == x;
        assert(s.push(y)[k] == x);
    }
    if x == y {
        assert(s.push(y)[s.len() as int] == x);
    }
    if s.push(y).contains(x) {
        let k = choose|k: int| 0 <= k < s.len() + 1 && s.push(y)[k] == x;
        if k < s.len() {
            assert(s[k] == x);
        }
    }
}

proof fn lemma_dedup_distinct<T>(s: Seq<T>)
    ensures
        dedup_first(s).no_duplicates(),
    decreases s.len(),
{
    if s.len() > 0 {
        lemma_dedup_distinct(s.drop_last());
    }
}

proof fn lemma_first_pos(s: Seq<u64>, x: u64)
    requires
        s.contains(x),
    ensures
        0 <= first_pos(s, x) < s.len(),
        s[first_pos(s, x)] == x,
        forall|j: int| 0 <= j < first_pos(s, x) ==> s[j] != x,
    decreases s.len(),
{
    if s[0] != x {
        let k = choose|k: int| 0 <= k < s.len() && s[k] == x;
        assert(s.drop_first()[k - 1] == x);
        lemma_first_pos(s.drop_first(), x);
        assert forall|j: int| 0 <= j < first_pos(s, x) implies s[j] != x by {
            if j > 0 {
                assert(s[j] == s.drop_first()[j - 1]);
            }
        }
    }
}

proof fn lemma_first_pos_distinct(s: Seq<u64>, k: int)
    requires
        s.no_duplicates(),
        0 <= k < s.len(),
    ensures
        first_pos(s, s[k]) == k,
{
    lemma_first_pos(s, s[k]);
}

proof fn lemma_first_pos_push(s: Seq<u64>, y: u64, x: u64)
    ensures
        s.contains(x) ==> first_pos(s.push(y), x) == first_pos(s, x),
        !s.contains(x) && x == y ==> first_pos(s.push(y), x) == s.len(),
    decreases s.len(),
{
    if s.len() > 0 {
        assert(s.push(y).drop_first() =~= s.drop_first().push(y));
        if s[0] != x {
            if s.contains(x) {
                let k = choose|k: int| 0 <= k < s.len() && s[k] == x;
                assert(s.drop_first()[k - 1] == x);
            }
            if !s.contains(x) {
                assert forall|k: int| 0 <= k < s.drop_first().len() implies s.drop_first()[k] != x by {
                    assert(s[k + 1] == s.drop_first()[k]);
                }
            }
            lemma_first_pos_push(s.drop_first(), y, x);
        }
    }
}

// ─── Stage assignment ─────────────────────────────────────────────────────────

/// The position of the first `x` in `v`, if any.
fn find_u64(v: &Vec<u64>, x: u64) -> (r: Option<usize>)
    ensures
        match r {
            Some(k) => k < v@.len() && v@[k as int] == x && v@.contains(x) && k == first_pos(v@, x),
            None => !v@.contains(x),
        },
{
    let mut k: usize = 0;
    while k < v.len()
        invariant
            k <= v.len(),
            forall|j: int| 0 <= j < k ==> v@[j] != x,
        decreases v.len() - k,
    {
        if v[k] == x {
            proof {
                lemma_first_pos(v@, x);
            }
            return Some(k);
        }
        k += 1;
    }
    None
}

/// Give every node a stage: the peers in order of first appearance, and the
/// stage index of each node. Fails on the first node without a peer.
fn assign_stages(graph: &GraphLayout, placement: &HashMap<u64, u64>) -> (r: Result<
    (Vec<u64>, Vec<usize>),
    GraphError,
>)
    ensures
        match r {
            Ok((stages, sidx)) => {
                &&& all_placed(*graph, placement@)
                &&& stages@ == stage_order(*graph, placement@)
                &&& sidx@.len() == graph.topo@.len()
                &&& forall|i: int| 0 <= i < graph.topo@.len() ==> #[trigger] sidx@[i] < stages@.len()
                &&& forall|i: int|
                    0 <= i < graph.topo@.len() ==> #[trigger] sidx@[i] == stage_of(
                        *graph,
                        placement@,
                        nid(*graph, i),
                    )
            },
            Err(e) => exists|i: int|
                #[trigger] first_unplaced(*graph, placement@, i) && match e {
                    GraphError::InvalidGraph(m) => m@ == unplaced_message(nid(*graph, i)),
                    _ => false,
                },
        },
{
    broadcast use vstd::std_specs::hash::group_hash_axioms;

    let n = graph.topo.len();
    let mut stages: Vec<u64> = Vec::new();
    let mut sidx: Vec<usize> = Vec::new();
    let mut i: usize = 0;
    while i < n
        invariant
            n == graph.topo@.len(),
            i <= n,
            forall|j: int| 0 <= j < i ==> placement@.contains_key(#[trigger] nid(*graph, j)),
            stages@ == dedup_first(peer_seq(*graph, placement@).take(i as int)),
            sidx@.len() == i,
            forall|j: int| 0 <= j < i ==> #[trigger] sidx@[j] < stages@.len(),
            forall|j: int| 0 <= j < i ==> #[trigger] sidx@[j] == first_pos(stages@, placement@[nid(*graph, j)]),
        decreases n - i,
    {
        let id = graph.topo[i].id;
        let p = match placement.get(&id) {
            Some(p) => *p,
            None => {
                let mut m = "plan_pipeline: node '".to_owned();
                let d = decimal_string(id);
                m.append(d.as_str());
                m.append("' has no placement");
                proof {
                    assert(first_unplaced(*graph, placement@, i as int));
                }
                return Err(GraphError::InvalidGraph(m));
            },
        };
        proof {
            assert(peer_seq(*graph, placement@).take(i + 1) =~= peer_seq(*graph, placement@).take(
                i as int,
            ).push(p));
            assert(peer_seq(*graph, placement@).take(i as int).push(p).drop_last() =~= peer_seq(
                *graph,
                placement@,
            ).take(i as int));
        }
        let ghost old_stages = stages@;
        match find_u64(&stages, p) {
            Some(k) => {
                sidx.push(k);
            },
            None => {
                sidx.push(stages.len());
                stages.push(p);
                proof {
                    assert forall|j: int| 0 <= j < i + 1 implies #[trigger] sidx@[j] < stages@.len() by {
                        if j < i {
                            assert(sidx@[j] < old_stages.len());
                        }
                    }
                    assert forall|j: int| 0 <= j < i implies #[trigger] sidx@[j] == first_pos(
                        stages@,
                        placement@[nid(*graph, j)],
                    ) by {
                        let q = placement@[nid(*graph, j)];
                        assert(peer_seq(*graph, placement@).take(i as int)[j] == q);
                        lemma_dedup_contains(peer_seq(*graph, placement@).take(i as int), q);
                        lemma_first_pos_push(old_stages, p, q);
                    }
                    lemma_first_pos_push(old_stages, p, p);
                }
            },
        }
        i += 1;
    }
    proof {
        assert(peer_seq(*graph, placement@).take(n as int) =~= peer_seq(*graph, placement@));
    }
    Ok((stages, sidx))
}

fn push_unique_pair(v: &mut Vec<(usize, u64)>, x: (usize, u64))
    ensures
        final(v)@ == if old(v)@.contains(x) {
            old(v)@
        } else {
            old(v)@.push(x)
        },
{
    let mut k: usize = 0;
    while k < v.len()
        invariant
            k <= v.len(),
            forall|j: int| 0 <= j < k ==> v@[j] != x,
        decreases v.len() - k,
    {
        if v[k].0 == x.0 && v[k].1 == x.1 {
            return;
        }
        k += 1;
    }
    v.push(x);
}

fn push_unique_dep(v: &mut Vec<(usize, usize)>, x: (usize, usize))
    ensures
        final(v)@ == if old(v)@.contains(x) {
            old(v)@
        } else {
            old(v)@.push(x)
        },
{
    let mut k: usize = 0;
    while k < v.len()
        invariant
            k <= v.len(),
            forall|j: int| 0 <= j < k ==> v@[j] != x,
        decreases v.len() - k,
    {
        if v[k].0 == x.0 && v[k].1 == x.1 {
            return;
        }
        k += 1;
    }
    v.push(x);
}

proof fn lemma_dedup_push<T>(s: Seq<T>, x: T)
    ensures
        dedup_first(s.push(x)) == if dedup_first(s).contains(x) {
            dedup_first(s)
        } else {
            dedup_first(s).push(x)
        },
{
    assert(s.push(x).drop_last() =~= s);
}

/// Scan the nodes in topological order and collect the boundary inputs, the
/// published outputs and the stage dependencies.
fn collect_pairs(
    graph: &GraphLayout,
    placement: &HashMap<u64, u64>,
    stages: &Vec<u64>,
    sidx: &Vec<usize>,
) -> (r: (Vec<(usize, u64)>, Vec<(usize, u64)>, Vec<(usize, usize)>))
    requires
        well_formed(*graph),
        all_placed(*graph, placement@),
        stages@ == stage_order(*graph, placement@),
        sidx@.len() == graph.topo@.len(),
        forall|i: int| 0 <= i < graph.topo@.len() ==> #[trigger] sidx@[i] < stages@.len(),
        forall|i: int|
            0 <= i < graph.topo@.len() ==> #[trigger] sidx@[i] == stage_of(
                *graph,
                placement@,
                nid(*graph, i),
            ),
    ensures
        deps_in_range(r.2@, stages@.len() as int),
        r.0@ == boundary_pairs(*graph, placement@),
        r.1@ == output_pairs(*graph, placement@),
        r.2@ == stage_deps(*graph, placement@),
{
    broadcast use vstd::std_specs::hash::group_hash_axioms;

    let ghost g = *graph;
    let ghost pm = placement@;
    let n = graph.topo.len();
    let mut ins: Vec<(usize, u64)> = Vec::new();
    let mut outs: Vec<(usize, u64)> = Vec::new();
    let mut deps: Vec<(usize, usize)> = Vec::new();
    let mut i: usize = 0;
    while i < n
        invariant
            n == g.topo@.len(),
            g == *graph,
            pm == placement@,
            i <= n,
            well_formed(g),
            all_placed(g, pm),
            stages@ == stage_order(g, pm),
            sidx@.len() == n,
            forall|j: int| 0 <= j < n ==> #[trigger] sidx@[j] == stage_of(g, pm, nid(g, j)),
            forall|j: int| 0 <= j < n ==> #[trigger] sidx@[j] < stages@.len(),
            deps_in_range(deps@, stages@.len() as int),
            ins@ == dedup_first(ins_upto(g, pm, i as int)),
            outs@ == dedup_first(outs_upto(g, pm, i as int)),
            deps@ == dedup_first(deps_upto(g, pm, i as int)),
        decreases n - i,
    {
        let id = graph.topo[i].id;
        let st = sidx[i];
        let ghost gi0 = ins_upto(g, pm, i as int);
        let ghost go0 = outs_upto(g, pm, i as int);
        let ghost pre_i: Seq<(usize, u64)> = if gin(g, id) { seq![(st, id)] } else { seq![] };
        let ghost pre_o: Seq<(usize, u64)> = if gout(g, id) { seq![(st, id)] } else { seq![] };
        if find_u64(&graph.inputs, id).is_some() {
            proof {
                lemma_dedup_push(gi0, (st, id));
            }
            push_unique_pair(&mut ins, (st, id));
        }
        if find_u64(&graph.outputs, id).is_some() {
            proof {
                lemma_dedup_push(go0, (st, id));
            }
            push_unique_pair(&mut outs, (st, id));
        }
        proof {
            assert(gi0 + pre_i =~= if gin(g, id) { gi0.push((st, id)) } else { gi0 });
            assert(go0 + pre_o =~= if gout(g, id) { go0.push((st, id)) } else { go0 });
        }
        let ops = &graph.topo[i].inputs;
        let ghost ops_s = ops@;
        let mut k: usize = 0;
        while k < ops.len()
            invariant
                n == g.topo@.len(),
                g == *graph,
                pm == placement@,
                i < n,
                id == nid(g, i as int),
                st == node_stage(g, pm, i as int),
                ops@ == ops_s,
                ops_s == g.topo@[i as int].inputs@,
                k <= ops_s.len(),
                st < stages@.len(),
                deps_in_range(deps@, stages@.len() as int),
                well_formed(g),
                all_placed(g, pm),
                stages@ == stage_order(g, pm),
                ins@ == dedup_first(gi0 + pre_i + ops_ins(g, pm, st as int, ops_s.take(k as int))),
                outs@ == dedup_first(go0 + pre_o + ops_outs(g, pm, st as int, ops_s.take(k as int))),
                deps@ == dedup_first(
                    deps_upto(g, pm, i as int) + ops_deps(g, pm, st as int, ops_s.take(k as int)),
                ),
            decreases ops_s.len() - k,
        {
            let op = ops[k];
            let ghost ti = gi0 + pre_i + ops_ins(g, pm, st as int, ops_s.take(k as int));
            let ghost to = go0 + pre_o + ops_outs(g, pm, st as int, ops_s.take(k as int));
            let ghost td = deps_upto(g, pm, i as int) + ops_deps(g, pm, st as int, ops_s.take(k as int));
            proof {
                assert(ops_s.take(k + 1).drop_last() =~= ops_s.take(k as int));
                assert(ops_s.take(k + 1).last() == op);
            }
            if find_u64(&graph.inputs, op).is_some() {
                proof {
                    lemma_dedup_push(ti, (st, op));
                    assert(ti.push((st, op)) =~= gi0 + pre_i + ops_ins(g, pm, st as int, ops_s.take(k + 1)));
                    assert(to =~= go0 + pre_o + ops_outs(g, pm, st as int, ops_s.take(k + 1)));
                    assert(td =~= deps_upto(g, pm, i as int) + ops_deps(g, pm, st as int, ops_s.take(k + 1)));
                }
                push_unique_pair(&mut ins, (st, op));
            } else {
                proof {
                    assert(node_ids(g).contains(op));
                    let j = choose|j: int| 0 <= j < node_ids(g).len() && node_ids(g)[j] == op;
                    assert(nid(g, j) == op);
                    assert(pm.contains_key(op));
                }
                let q = match placement.get(&op) {
                    Some(q) => *q,
                    None => 0,
                };
                proof {
                    let j = choose|j: int| 0 <= j < node_ids(g).len() && node_ids(g)[j] == op;
                    assert(peer_seq(g, pm)[j] == q);
                    lemma_dedup_contains(peer_seq(g, pm), q);
                }
                let prod = match find_u64(stages, q) {
                    Some(t) => t,
                    None => 0,
                };
                if prod != st {
                    proof {
                        lemma_dedup_push(ti, (st, op));
                        lemma_dedup_push(to, (prod, op));
                        lemma_dedup_push(td, (prod, st));
                        assert(ti.push((st, op)) =~= gi0 + pre_i + ops_ins(g, pm, st as int, ops_s.take(k + 1)));
                        assert(to.push((prod, op)) =~= go0 + pre_o + ops_outs(g, pm, st as int, ops_s.take(k + 1)));
                        assert(td.push((prod, st)) =~= deps_upto(g, pm, i as int) + ops_deps(g, pm, st as int, ops_s.take(k + 1)));
                    }
                    push_unique_pair(&mut ins, (st, op));
                    push_unique_pair(&mut outs, (prod, op));
                    let ghost deps0 = deps@;
                    push_unique_dep(&mut deps, (prod, st));
                    proof {
                        assert forall|a: int| 0 <= a < deps@.len() implies (#[trigger] deps@[a]).0 < stages@.len()
                            && deps@[a].1 < stages@.len() by {
                            if a < deps0.len() {
                                assert(deps@[a] == deps0[a]);
                            }
                        }
                    }
                } else {
                    proof {
                        assert(ti =~= gi0 + pre_i + ops_ins(g, pm, st as int, ops_s.take(k + 1)));
                        assert(to =~= go0 + pre_o + ops_outs(g, pm, st as int, ops_s.take(k + 1)));
                        assert(td =~= deps_upto(g, pm, i as int) + ops_deps(g, pm, st as int, ops_s.take(k + 1)));
                    }
                }
            }
            k += 1;
        }
        proof {
            assert(ops_s.take(ops_s.len() as int) =~= ops_s);
            assert(ins_upto(g, pm, i + 1) =~= gi0 + pre_i + ops_ins(g, pm, st as int, ops_s));
            assert(outs_upto(g, pm, i + 1) =~= go0 + pre_o + ops_outs(g, pm, st as int, ops_s));
            assert(deps_upto(g, pm, i + 1) =~= deps_upto(g, pm, i as int) + ops_deps(g, pm, st as int, ops_s));
        }
        i += 1;
    }
    (ins, outs, deps)
}

proof fn lemma_count_into_bound(es: Seq<(usize, usize)>, t: int)
    ensures
        count_into(es, t) <= es.len(),
    decreases es.len(),
{
    if es.len() > 0 {
        lemma_count_into_bound(es.drop_last(), t);
    }
}

/// The counts of `v`, as integers.
pub open spec fn as_ints(v: Seq<usize>) -> Seq<int> {
    v.map_values(|x: usize| x as int)
}

/// Order the `m` stages by Kahn's algorithm over the dependencies: the queue
/// starts with the stages nothing depends on, in index order; taking a stage
/// releases the stages whose last pending dependency it was, in dependency
/// order.
fn order_stages(m: usize, deps: &Vec<(usize, usize)>) -> (r: Vec<usize>)
    requires
        deps_in_range(deps@, m as int),
    ensures
        r@ == kahn_order(deps@, m as int),
        r@.no_duplicates(),
        forall|a: int| 0 <= a < r@.len() ==> r@[a] < m,
{
    let ghost es = deps@;
    let mut indeg: Vec<usize> = Vec::new();
    let mut t: usize = 0;
    while t < m
        invariant
            t <= m,
            indeg@.len() == t,
            forall|u: int| 0 <= u < t ==> indeg@[u] == 0,
        decreases m - t,
    {
        indeg.push(0);
        t += 1;
    }
    let mut j: usize = 0;
    while j < deps.len()
        invariant
            es == deps@,
            deps_in_range(es, m as int),
            j <= deps.len(),
            indeg@.len() == m,
            forall|u: int| 0 <= u < m ==> #[trigger] indeg@[u] == count_into(es.take(j as int), u),
        decreases deps.len() - j,
    {
        let e = deps[j];
        proof {
            assert(es.take(j + 1).drop_last() =~= es.take(j as int));
            assert(es[j as int] == e);
            lemma_count_into_bound(es.take(j as int), e.1 as int);
        }
        let c = indeg[e.1];
        indeg.set(e.1, c + 1);
        j += 1;
    }
    proof {
        assert(es.take(es.len() as int) =~= es);
    }
    let mut queue: Vec<usize> = Vec::new();
    t = 0;
    while t < m
        invariant
            t <= m,
            indeg@.len() == m,
            forall|u: int| 0 <= u < m ==> #[trigger] indeg@[u] == count_into(es, u),
            queue@ == seeds(es, t as int),
        decreases m - t,
    {
        if indeg[t] == 0 {
            queue.push(t);
        }
        t += 1;
    }
    proof {
        assert(as_ints(indeg@) =~= indeg0(es, m as int));
        lemma_kahn_inv(es, m as int, 0);
    }
    let mut head: usize = 0;
    while head < queue.len()
        invariant
            es == deps@,
            deps_in_range(es, m as int),
            head <= queue@.len(),
            kahn_steps(es, m as int, head as nat) == (queue@, as_ints(indeg@)),
            kahn_inv(es, m as int, head as int, queue@, as_ints(indeg@)),
        decreases m - head,
    {
        proof {
            lemma_distinct_bounded(queue@, m as int);
        }
        let s = queue[head];
        let ghost q0 = queue@;
        let ghost d0 = as_ints(indeg@);
        let mut j: usize = 0;
        while j < deps.len()
            invariant
                es == deps@,
                deps_in_range(es, m as int),
                head < q0.len(),
                s == q0[head as int],
                kahn_inv(es, m as int, head as int, q0, d0),
                j <= deps.len(),
                relax(es.take(j as int), s, q0, d0) == (queue@, as_ints(indeg@)),
            decreases deps.len() - j,
        {
            let e = deps[j];
            proof {
                assert(es.take(j + 1).drop_last() =~= es.take(j as int));
                assert(es.take(j + 1).last() == e);
                lemma_relax(es, m as int, head as int, q0, d0, j + 1);
                lemma_relax(es, m as int, head as int, q0, d0, j as int);
            }
            if e.0 == s {
                let c = indeg[e.1];
                proof {
                    assert(as_ints(indeg@)[e.1 as int] == c);
                }
                indeg.set(e.1, c - 1);
                if c - 1 == 0 {
                    queue.push(e.1);
                }
                proof {
                    let (q1, d1) = relax(es.take(j as int), s, q0, d0);
                    assert(as_ints(indeg@) =~= d1.update(e.1 as int, d1[e.1 as int] - 1));
                }
            }
            j += 1;
        }
        proof {
            assert(es.take(es.len() as int) =~= es);
            lemma_kahn_step(es, m as int, head as int, q0, d0);
        }
        head += 1;
    }
    proof {
        lemma_distinct_bounded(queue@, m as int);
        lemma_kahn_stable(es, m as int, head as nat, m as nat);
    }
    queue
}

/// The nodes placed on stage `k` among the first `i`, in topological order.
pub open spec fn nodes_on(g: GraphLayout, p: Map<u64, u64>, k: int, i: int) -> Seq<u64>
    decreases i,
{
    if i <= 0 {
        seq![]
    } else if node_stage(g, p, i - 1) == k {
        nodes_on(g, p, k, i - 1).push(nid(g, i - 1))
    } else {
        nodes_on(g, p, k, i - 1)
    }
}

/// The activations of the pairs that belong to stage `k`, in order.
pub open spec fn ids_of(pairs: Seq<(usize, u64)>, k: int) -> Seq<u64>
    decreases pairs.len(),
{
    if pairs.len() == 0 {
        seq![]
    } else if pairs.last().0 == k {
        ids_of(pairs.drop_last(), k).push(pairs.last().1)
    } else {
        ids_of(pairs.drop_last(), k)
    }
}

/// `st` is the stage built for stage index `k`: its peer, its own nodes in
/// topological order, its distinct boundary inputs and its distinct published
/// outputs, each in order of first occurrence in the scan.
pub open spec fn is_planned_stage(g: GraphLayout, p: Map<u64, u64>, k: int, st: PipelineStage) -> bool {
    &&& st.peer == stage_order(g, p)[k]
    &&& st.node_ids@ == nodes_on(g, p, k, g.topo@.len() as int)
    &&& st.input_ids@ == ids_of(boundary_pairs(g, p), k)
    &&& st.output_ids@ == ids_of(output_pairs(g, p), k)
}

/// The stage dependencies have no cycle: Kahn's algorithm takes every stage.
pub open spec fn stages_acyclic(g: GraphLayout, p: Map<u64, u64>) -> bool {
    kahn_order(stage_deps(g, p), stage_order(g, p).len() as int).len() == stage_order(g, p).len()
}

/// What `plan_pipeline` returns for a graph whose nodes all have a peer.
pub open spec fn plans(g: GraphLayout, p: Map<u64, u64>, r: Result<Vec<PipelineStage>, GraphError>) -> bool {
    let m = stage_order(g, p).len() as int;
    let order = kahn_order(stage_deps(g, p), m);
    match r {
        Ok(stages) => {
            &&& stages_acyclic(g, p)
            &&& stages@.len() == m
            &&& forall|j: int| 0 <= j < m ==> is_planned_stage(g, p, order[j] as int, #[trigger] stages@[j])
        },
        Err(e) => !stages_acyclic(g, p) && match e {
            GraphError::InvalidGraph(msg) => msg@ == cycle_message(),
            _ => false,
        },
    }
}

fn nodes_on_stage(graph: &GraphLayout, sidx: &Vec<usize>, k: usize, Ghost(p): Ghost<Map<u64, u64>>) -> (r: Vec<u64>)
    requires
        sidx@.len() == graph.topo@.len(),
        forall|i: int|
            0 <= i < graph.topo@.len() ==> #[trigger] sidx@[i] == node_stage(*graph, p, i),
    ensures
        r@ == nodes_on(*graph, p, k as int, graph.topo@.len() as int),
{
    let mut r: Vec<u64> = Vec::new();
    let mut i: usize = 0;
    while i < graph.topo.len()
        invariant
            i <= graph.topo@.len(),
            sidx@.len() == graph.topo@.len(),
            forall|j: int|
                0 <= j < graph.topo@.len() ==> #[trigger] sidx@[j] == node_stage(*graph, p, j),
            r@ == nodes_on(*graph, p, k as int, i as int),
        decreases graph.topo@.len() - i,
    {
        if sidx[i] == k {
            r.push(graph.topo[i].id);
        }
        i += 1;
    }
    r
}

fn ids_on_stage(pairs: &Vec<(usize, u64)>, k: usize) -> (r: Vec<u64>)
    ensures
        r@ == ids_of(pairs@, k as int),
{
    let mut r: Vec<u64> = Vec::new();
    let mut j: usize = 0;
    while j < pairs.len()
        invariant
            j <= pairs@.len(),
            r@ == ids_of(pairs@.take(j as int), k as int),
        decreases pairs@.len() - j,
    {
        proof {
            assert(pairs@.take(j + 1).drop_last() =~= pairs@.take(j as int));
        }
        if pairs[j].0 == k {
            r.push(pairs[j].1);
        }
        j += 1;
    }
    proof {
        assert(pairs@.take(pairs@.len() as int) =~= pairs@);
    }
    r
}

/// Build an ordered, self-contained pipeline from `placement` (node id →
/// peer).
///
/// Every node of `graph` must have a peer. Returns one stage per peer, in
/// dependency order.
///
/// # Errors
/// - [`GraphError::InvalidGraph`] if a node lacks a placement, or if the
///   placement induces a cycle at the peer level (no valid stage ordering
///   exists).
pub fn plan_pipeline(graph: &GraphLayout, placement: &HashMap<u64, u64>) -> (r: Result<
    Vec<PipelineStage>,
    GraphError,
>)
    requires
        well_formed(*graph),
    ensures
        all_placed(*graph, placement@) ==> plans(*graph, placement@, r),
        !all_placed(*graph, placement@) ==> match r {
            Ok(_) => false,
            Err(e) => exists|i: int|
                #[trigger] first_unplaced(*graph, placement@, i) && match e {
                    GraphError::InvalidGraph(m) => m@ == unplaced_message(nid(*graph, i)),
                    _ => false,
                },
        },
{
    let (stages, sidx) = match assign_stages(graph, placement) {
        Ok(v) => v,
        Err(e) => {
            return Err(e);
        },
    };
    let (ins, outs, deps) = collect_pairs(graph, placement, &stages, &sidx);
    let m = stages.len();
    let order = order_stages(m, &deps);
    if order.len() != m {
        return Err(GraphError::InvalidGraph("plan_pipeline: placement induces a cyclic stage graph".to_owned()));
    }
    let mut out: Vec<PipelineStage> = Vec::new();
    let mut j: usize = 0;
    while j < m
        invariant
            m == stages@.len(),
            stages@ == stage_order(*graph, placement@),
            order@ == kahn_order(deps@, m as int),
            order@.len() == m,
            forall|a: int| 0 <= a < order@.len() ==> order@[a] < m,
            sidx@.len() == graph.topo@.len(),
            forall|i: int|
                0 <= i < graph.topo@.len() ==> #[trigger] sidx@[i] == stage_of(
                    *graph,
                    placement@,
                    nid(*graph, i),
                ),
            ins@ == boundary_pairs(*graph, placement@),
            outs@ == output_pairs(*graph, placement@),
            j <= m,
            out@.len() == j,
            forall|a: int|
                0 <= a < j ==> is_planned_stage(
                    *graph,
                    placement@,
                    order@[a] as int,
                    #[trigger] out@[a],
                ),
        decreases m - j,
    {
        let k = order[j];
        let node_ids = nodes_on_stage(graph, &sidx, k, Ghost(placement@));
        let input_ids = ids_on_stage(&ins, k);
        let output_ids = ids_on_stage(&outs, k);
        out.push(PipelineStage::new(stages[k], node_ids, input_ids, output_ids));
        j += 1;
    }
    Ok(out)
}

/// The chunk of node `i` when `n` nodes are cut into `k` contiguous chunks in
/// topological order, the first `n % k` chunks one node longer than the rest:
/// chunk `c` holds the nodes from `c * (n / k) + min(c, n % k)` on.
pub open spec fn contiguous_chunk(n: int, k: int, i: int) -> int {
    let base = n / k;
    let rem = n % k;
    if i < rem * (base + 1) {
        i / (base + 1)
    } else {
        rem + (i - rem * (base + 1)) / base
    }
}

/// The placement that gives node `i` (in topological order) the peer of its
/// contiguous chunk.
pub open spec fn contiguous_placement(g: GraphLayout, peers: Seq<u64>) -> Map<u64, u64> {
    Map::new(
        |id: u64| node_ids(g).contains(id),
        |id: u64|
            peers[contiguous_chunk(
                g.topo@.len() as int,
                peers.len() as int,
                first_pos(node_ids(g), id),
            )],
    )
}

/// The message for an empty peer list.
pub open spec fn no_peers_message() -> Seq<char> {
    "plan_pipeline_contiguous: no peers"@
}

proof fn lemma_chunk_bounds(n: int, k: int, i: int)
    requires
        k > 0,
        0 <= i < n,
    ensures
        0 <= contiguous_chunk(n, k, i) < k,
{
    let base = n / k;
    let rem = n % k;
    assert(n == k * base + rem && 0 <= rem < k && base >= 0) by (nonlinear_arith)
        requires
            k > 0,
            n >= 0,
            base == n / k,
            rem == n % k,
    ;
    if i < rem * (base + 1) {
        assert(0 <= i / (base + 1) < rem) by (nonlinear_arith)
            requires
                0 <= i < rem * (base + 1),
                base >= 0,
        ;
    } else {
        assert(base > 0) by (nonlinear_arith)
            requires
                rem * (base + 1) <= i < n,
                n == k * base + rem,
                0 <= rem < k,
                base >= 0,
        ;
        assert(0 <= (i - rem * (base + 1)) / base < k - rem) by (nonlinear_arith)
            requires
                rem * (base + 1) <= i < n,
                n == k * base + rem,
                base > 0,
        ;
    }
}

fn chunk_of(n: usize, k: usize, i: usize) -> (c: usize)
    requires
        k > 0,
        i < n,
    ensures
        c == contiguous_chunk(n as int, k as int, i as int),
{
    proof {
        lemma_chunk_bounds(n as int, k as int, i as int);
    }
    let base = n / k;
    let rem = n % k;
    proof {
        assert(n == k * base + rem && rem < k) by (nonlinear_arith)
            requires
                k > 0,
                base == n / k,
                rem == n % k,
        ;
        assert(rem > 0 ==> base < n && rem * (base + 1) <= n) by (nonlinear_arith)
            requires
                k > 0,
                n == k * base + rem,
                rem < k,
        ;
        assert(rem == 0 ==> rem * (base + 1) == 0) by (nonlinear_arith);
        assert(i >= rem * (base + 1) ==> base > 0) by (nonlinear_arith)
            requires
                n == k * base + rem,
                i < n,
                rem < k,
        ;
    }
    if rem == 0 {
        i / base
    } else if i < rem * (base + 1) {
        i / (base + 1)
    } else {
        rem + (i - rem * (base + 1)) / base
    }
}

/// Split `graph` into `peers.len()` contiguous topological chunks (one stage
/// per peer, the first `n % k` chunks one node longer) and plan the pipeline.
/// Consecutive layers stay together.
///
/// # Errors
/// - [`GraphError::InvalidGraph`] if `peers` is empty, or as
///   [`plan_pipeline`] for the contiguous placement.
pub fn plan_pipeline_contiguous(graph: &GraphLayout, peers: &Vec<u64>) -> (r: Result<
    Vec<PipelineStage>,
    GraphError,
>)
    requires
        well_formed(*graph),
    ensures
        peers@.len() > 0 ==> plans(*graph, contiguous_placement(*graph, peers@), r),
        peers@.len() == 0 ==> match r {
            Err(GraphError::InvalidGraph(m)) => m@ == no_peers_message(),
            _ => false,
        },
{
    broadcast use vstd::std_specs::hash::group_hash_axioms;

    if peers.len() == 0 {
        return Err(GraphError::InvalidGraph("plan_pipeline_contiguous: no peers".to_owned()));
    }
    let ghost g = *graph;
    let n = graph.topo.len();
    let k = peers.len();
    let mut placement: HashMap<u64, u64> = HashMap::new();
    let mut i: usize = 0;
    proof {
        assert forall|a: int, b: int| 0 <= a < b < node_ids(g).len() implies node_ids(g)[a] != node_ids(g)[b] by {
        }
    }
    while i < n
        invariant
            g == *graph,
            n == g.topo@.len(),
            k == peers@.len(),
            k > 0,
            i <= n,
            well_formed(g),
            node_ids(g).no_duplicates(),
            placement@ == Map::new(
                |id: u64| node_ids(g).take(i as int).contains(id),
                |id: u64| peers@[contiguous_chunk(n as int, k as int, first_pos(node_ids(g), id))],
            ),
        decreases n - i,
    {
        let c = chunk_of(n, k, i);
        proof {
            lemma_chunk_bounds(n as int, k as int, i as int);
        }
        let id = graph.topo[i].id;
        let ghost before = placement@;
        placement.insert(id, peers[c]);
        proof {
            assert(node_ids(g)[i as int] == id);
            lemma_first_pos_distinct(node_ids(g), i as int);
            assert(node_ids(g).take(i + 1) =~= node_ids(g).take(i as int).push(id));
            assert forall|x: u64| #[trigger] node_ids(g).take(i + 1).contains(x) <==> (node_ids(g).take(
                i as int,
            ).contains(x) || x == id) by {
                lemma_push_contains(node_ids(g).take(i as int), id, x);
            }
            assert(placement@ =~= Map::new(
                |x: u64| node_ids(g).take(i + 1).contains(x),
                |x: u64| peers@[contiguous_chunk(n as int, k as int, first_pos(node_ids(g), x))],
            ));
        }
        i += 1;
    }
    proof {
        assert(node_ids(g).take(n as int) =~= node_ids(g));
        assert(placement@ =~= contiguous_placement(g, peers@));
        assert forall|j: int| 0 <= j < g.topo@.len() implies placement@.contains_key(#[trigger] nid(g, j)) by {
            assert(node_ids(g)[j] == nid(g, j));
        }
    }
    plan_pipeline(graph, &placement)
}

// ─── Laws ─────────────────────────────────────────────────────────────────────

/// `r` is a nonempty set of stages below `m`, each with a dependency into it
/// from a member of `r`.
pub open spec fn cyclic_set(es: Seq<(usize, usize)>, m: int, r: Set<usize>) -> bool {
    &&& exists|t: usize| r.contains(t)
    &&& forall|t: usize|
        #[trigger] r.contains(t) ==> t < m && exists|j: int|
            0 <= j < es.len() && es[j].1 == t && r.contains(es[j].0)
}

/// The dependencies among stages below `m` have a cycle.
pub open spec fn has_cycle(es: Seq<(usize, usize)>, m: int) -> bool {
    exists|r: Set<usize>| cyclic_set(es, m, r)
}

proof fn lemma_kahn_final(es: Seq<(usize, usize)>, m: int)
    requires
        deps_in_range(es, m),
        0 <= m <= usize::MAX + 1,
    ensures
        ({
            let (q, d) = kahn_steps(es, m, m as nat);
            &&& q.len() <= m
            &&& kahn_inv(es, m, q.len() as int, q, d)
        }),
{
    lemma_kahn_inv(es, m, m as nat);
    let (q, d) = kahn_steps(es, m, m as nat);
    lemma_distinct_bounded(q, m);
}

proof fn lemma_count_live_witness(es: Seq<(usize, usize)>, t: int, taken: Seq<usize>) -> (j: int)
    requires
        count_live(es, t, taken) > 0,
    ensures
        0 <= j < es.len(),
        es[j].1 == t,
        !taken.contains(es[j].0),
    decreases es.len(),
{
    if count_live(es.drop_last(), t, taken) > 0 {
        lemma_count_live_witness(es.drop_last(), t, taken)
    } else {
        (es.len() - 1) as int
    }
}

proof fn lemma_cover_len(q: Seq<usize>, m: int)
    requires
        0 <= m <= usize::MAX + 1,
        forall|t: usize| t < m ==> #[trigger] q.contains(t),
    ensures
        q.len() >= m,
    decreases m,
{
    if m > 0 {
        let top = (m - 1) as usize;
        assert(q.contains(top));
        let k = choose|k: int| 0 <= k < q.len() && q[k] == top;
        let r = q.remove(k);
        q.remove_ensures(k);
        assert forall|t: usize| t < m - 1 implies #[trigger] r.contains(t) by {
            assert(q.contains(t));
            let a = choose|a: int| 0 <= a < q.len() && q[a] == t;
            if a < k {
                assert(r[a] == q[a]);
            } else {
                assert(a != k);
                assert(r[a - 1] == q[a]);
            }
        }
        lemma_cover_len(r, m - 1);
    }
}

proof fn lemma_full_covers(q: Seq<usize>, m: int, t: usize)
    requires
        0 <= m <= usize::MAX + 1,
        q.no_duplicates(),
        q.len() == m,
        forall|a: int| 0 <= a < q.len() ==> q[a] < m,
        t < m,
    ensures
        q.contains(t),
{
    if !q.contains(t) {
        let f = q.map_values(|x: usize| if x > t { (x - 1) as usize } else { x });
        assert forall|a: int, b: int| 0 <= a < b < f.len() implies f[a] != f[b] by {
            assert(q[a] != t && q[b] != t) by {
                if q[a] == t {
                    assert(q.contains(t));
                }
                if q[b] == t {
                    assert(q.contains(t));
                }
            }
        }
        assert forall|a: int| 0 <= a < f.len() implies f[a] < m - 1 by {
            if q[a] == t {
                assert(q.contains(t));
            }
        }
        lemma_distinct_bounded(f, m - 1);
    }
}

proof fn lemma_no_cyclic_member(es: Seq<(usize, usize)>, m: int, q: Seq<usize>, r: Set<usize>, y: int)
    requires
        waits_earlier(es, q),
        cyclic_set(es, m, r),
        0 <= y < q.len(),
    ensures
        !r.contains(q[y]),
    decreases y,
{
    if r.contains(q[y]) {
        let j = choose|j: int| 0 <= j < es.len() && es[j].1 == q[y] && r.contains(es[j].0);
        assert(q.take(y).contains(es[j].0));
        let y2 = choose|y2: int| 0 <= y2 < y && #[trigger] q.take(y)[y2] == es[j].0;
        assert(q[y2] == es[j].0);
        lemma_no_cyclic_member(es, m, q, r, y2);
    }
}

/// Kahn's algorithm takes every stage exactly when the dependencies have no
/// cycle.
pub proof fn lemma_kahn_complete_iff_acyclic(es: Seq<(usize, usize)>, m: int)
    requires
        deps_in_range(es, m),
        0 <= m <= usize::MAX + 1,
    ensures
        kahn_order(es, m).len() == m <==> !has_cycle(es, m),
{
    lemma_kahn_final(es, m);
    let (q, d) = kahn_steps(es, m, m as nat);
    assert(q.take(q.len() as int) =~= q);
    if q.len() == m {
        if has_cycle(es, m) {
            let r = choose|r: Set<usize>| cyclic_set(es, m, r);
            let t = choose|t: usize| r.contains(t);
            lemma_full_covers(q, m, t);
            let y = choose|y: int| 0 <= y < q.len() && q[y] == t;
            lemma_no_cyclic_member(es, m, q, r, y);
        }
    } else {
        let r = Set::new(|t: usize| t < m && !q.contains(t));
        if forall|t: usize| t < m ==> #[trigger] q.contains(t) {
            lemma_cover_len(q, m);
        }
        let t0 = choose|t: usize| t < m && !#[trigger] q.contains(t);
        assert(r.contains(t0));
        assert forall|t: usize| #[trigger] r.contains(t) implies t < m && exists|j: int|
            0 <= j < es.len() && es[j].1 == t && r.contains(es[j].0) by {
            assert(d[t as int] != 0);
            let j = lemma_count_live_witness(es, t as int, q);
            assert(es[j].0 < m);
            assert(r.contains(es[j].0));
        }
        assert(cyclic_set(es, m, r));
    }
}

proof fn lemma_concat_contains<T>(a: Seq<T>, b: Seq<T>, x: T)
    ensures
        (a + b).contains(x) <==> (a.contains(x) || b.contains(x)),
{
    if a.contains(x) {
        let k = choose|k: int| 0 <= k < a.len() && a[k] == x;
        assert((a + b)[k] == x);
    }
    if b.contains(x) {
        let k = choose|k: int| 0 <= k < b.len() && b[k] == x;
        assert((a + b)[a.len() + k] == x);
    }
    if (a + b).contains(x) {
        let k = choose|k: int| 0 <= k < a.len() + b.len() && (a + b)[k] == x;
        if k < a.len() {
            assert(a[k] == x);
        } else {
            assert(b[k - a.len()] == x);
        }
    }
}

proof fn lemma_first_pos_bound(s: Seq<u64>, x: u64)
    ensures
        0 <= first_pos(s, x) <= s.len(),
    decreases s.len(),
{
    if s.len() > 0 && s[0] != x {
        lemma_first_pos_bound(s.drop_first(), x);
    }
}

proof fn lemma_dedup_len<T>(s: Seq<T>)
    ensures
        dedup_first(s).len() <= s.len(),
    decreases s.len(),
{
    if s.len() > 0 {
        lemma_dedup_len(s.drop_last());
    }
}

/// A node's stage lies among the stages.
proof fn lemma_stage_of_bound(g: GraphLayout, p: Map<u64, u64>, y: u64)
    requires
        all_placed(g, p),
        node_ids(g).contains(y),
    ensures
        0 <= stage_of(g, p, y) < stage_order(g, p).len(),
        stage_order(g, p).len() <= g.topo@.len(),
        stage_order(g, p)[stage_of(g, p, y)] == p[y],
{
    let j = choose|j: int| 0 <= j < node_ids(g).len() && node_ids(g)[j] == y;
    assert(peer_seq(g, p)[j] == p[y]);
    lemma_dedup_contains(peer_seq(g, p), p[y]);
    lemma_first_pos(stage_order(g, p), p[y]);
    lemma_dedup_len(peer_seq(g, p));
}

proof fn lemma_node_stage_bound(g: GraphLayout, p: Map<u64, u64>, i: int)
    requires
        all_placed(g, p),
        0 <= i < g.topo@.len(),
    ensures
        0 <= node_stage(g, p, i) < stage_order(g, p).len(),
        stage_order(g, p).len() <= g.topo@.len(),
{
    assert(node_ids(g)[i] == nid(g, i));
    lemma_stage_of_bound(g, p, nid(g, i));
}

proof fn lemma_ops_deps_range(g: GraphLayout, p: Map<u64, u64>, i: int, ops: Seq<u64>, e: (usize, usize))
    requires
        well_formed(g),
        all_placed(g, p),
        0 <= i < g.topo@.len(),
        ops.len() <= g.topo@[i].inputs@.len(),
        ops == g.topo@[i].inputs@.take(ops.len() as int),
        ops_deps(g, p, node_stage(g, p, i), ops).contains(e),
    ensures
        e.0 < stage_order(g, p).len(),
        e.1 < stage_order(g, p).len(),
    decreases ops.len(),
{
    let st = node_stage(g, p, i);
    let r = ops_deps(g, p, st, ops.drop_last());
    assert(ops.drop_last() == g.topo@[i].inputs@.take(ops.len() - 1));
    lemma_node_stage_bound(g, p, i);
    if crosses(g, p, st, ops.last()) && e == (stage_of(g, p, ops.last()) as usize, st as usize) {
        let op = ops.last();
        assert(op == g.topo@[i].inputs@[ops.len() - 1]);
        assert(node_ids(g).contains(op));
        lemma_stage_of_bound(g, p, op);
    } else {
        if crosses(g, p, st, ops.last()) {
            lemma_push_contains(r, (stage_of(g, p, ops.last()) as usize, st as usize), e);
        }
        lemma_ops_deps_range(g, p, i, ops.drop_last(), e);
    }
}

proof fn lemma_deps_upto_range(g: GraphLayout, p: Map<u64, u64>, k: int, e: (usize, usize))
    requires
        well_formed(g),
        all_placed(g, p),
        0 <= k <= g.topo@.len(),
        deps_upto(g, p, k).contains(e),
    ensures
        e.0 < stage_order(g, p).len(),
        e.1 < stage_order(g, p).len(),
    decreases k,
{
    lemma_concat_contains(deps_upto(g, p, k - 1), node_deps(g, p, k - 1), e);
    if deps_upto(g, p, k - 1).contains(e) {
        lemma_deps_upto_range(g, p, k - 1, e);
    } else {
        assert(g.topo@[k - 1].inputs@ == g.topo@[k - 1].inputs@.take(g.topo@[k - 1].inputs@.len() as int));
        lemma_ops_deps_range(g, p, k - 1, g.topo@[k - 1].inputs@, e);
    }
}

/// Every stage dependency joins two stages.
proof fn lemma_stage_deps_range(g: GraphLayout, p: Map<u64, u64>)
    requires
        well_formed(g),
        all_placed(g, p),
    ensures
        deps_in_range(stage_deps(g, p), stage_order(g, p).len() as int),
        stage_order(g, p).len() <= g.topo@.len(),
{
    lemma_dedup_len(peer_seq(g, p));
    assert forall|j: int| 0 <= j < stage_deps(g, p).len() implies (#[trigger] stage_deps(g, p)[j]).0
        < stage_order(g, p).len() && stage_deps(g, p)[j].1 < stage_order(g, p).len() by {
        let e = stage_deps(g, p)[j];
        lemma_dedup_contains(deps_upto(g, p, g.topo@.len() as int), e);
        lemma_deps_upto_range(g, p, g.topo@.len() as int, e);
    }
}

proof fn lemma_ids_of(pairs: Seq<(usize, u64)>, k: usize, x: u64)
    ensures
        ids_of(pairs, k as int).contains(x) <==> pairs.contains((k, x)),
    decreases pairs.len(),
{
    if pairs.len() > 0 {
        lemma_ids_of(pairs.drop_last(), k, x);
        assert(pairs =~= pairs.drop_last().push(pairs.last()));
        lemma_push_contains(pairs.drop_last(), pairs.last(), (k, x));
        if pairs.last().0 == k {
            lemma_push_contains(ids_of(pairs.drop_last(), k as int), pairs.last().1, x);
        }
    }
}

proof fn lemma_ops_ins_dep(g: GraphLayout, p: Map<u64, u64>, st: int, ops: Seq<u64>, b: usize, x: u64)
    requires
        0 <= st <= usize::MAX,
        ops_ins(g, p, st, ops).contains((b, x)),
        !gin(g, x),
    ensures
        b == st,
        crosses(g, p, st, x),
        ops_deps(g, p, st, ops).contains((stage_of(g, p, x) as usize, st as usize)),
    decreases ops.len(),
{
    let r = ops_ins(g, p, st, ops.drop_last());
    let rd = ops_deps(g, p, st, ops.drop_last());
    let last = ops.last();
    if gin(g, last) || crosses(g, p, st, last) {
        lemma_push_contains(r, (st as usize, last), (b, x));
    }
    if crosses(g, p, st, last) {
        lemma_push_contains(rd, (stage_of(g, p, last) as usize, st as usize), (
            stage_of(g, p, x) as usize,
            st as usize,
        ));
    }
    if r.contains((b, x)) {
        lemma_ops_ins_dep(g, p, st, ops.drop_last(), b, x);
    }
}

proof fn lemma_ins_dep(g: GraphLayout, p: Map<u64, u64>, k: int, b: usize, x: u64)
    requires
        g.topo@.len() <= usize::MAX,
        all_placed(g, p),
        0 <= k <= g.topo@.len(),
        ins_upto(g, p, k).contains((b, x)),
        !gin(g, x),
    ensures
        stage_of(g, p, x) != b,
        deps_upto(g, p, k).contains((stage_of(g, p, x) as usize, b)),
    decreases k,
{
    let i = k - 1;
    let st = node_stage(g, p, i);
    lemma_node_stage_bound(g, p, i);
    lemma_concat_contains(ins_upto(g, p, i), node_ins(g, p, i), (b, x));
    lemma_concat_contains(deps_upto(g, p, i), node_deps(g, p, i), (stage_of(g, p, x) as usize, b));
    if ins_upto(g, p, i).contains((b, x)) {
        lemma_ins_dep(g, p, i, b, x);
    } else {
        let pre: Seq<(usize, u64)> = if gin(g, nid(g, i)) {
            seq![(st as usize, nid(g, i))]
        } else {
            seq![]
        };
        lemma_concat_contains(pre, ops_ins(g, p, st, g.topo@[i].inputs@), (b, x));
        if pre.contains((b, x)) {
            assert(pre[0] == (b, x));
        }
        lemma_ops_ins_dep(g, p, st, g.topo@[i].inputs@, b, x);
    }
}

proof fn lemma_nodes_on(g: GraphLayout, p: Map<u64, u64>, k: int, i: int, x: u64)
    requires
        0 <= i <= g.topo@.len(),
    ensures
        nodes_on(g, p, k, i).contains(x) <==> exists|j: int|
            0 <= j < i && nid(g, j) == x && #[trigger] node_stage(g, p, j) == k,
    decreases i,
{
    if i > 0 {
        lemma_nodes_on(g, p, k, i - 1, x);
        if node_stage(g, p, i - 1) == k {
            lemma_push_contains(nodes_on(g, p, k, i - 1), nid(g, i - 1), x);
        }
        if exists|j: int| 0 <= j < i && nid(g, j) == x && #[trigger] node_stage(g, p, j) == k {
            let j = choose|j: int| 0 <= j < i && nid(g, j) == x && #[trigger] node_stage(g, p, j) == k;
            if j < i - 1 {
                assert(exists|j2: int| 0 <= j2 < i - 1 && nid(g, j2) == x && #[trigger] node_stage(g, p, j2) == k);
            }
        }
    }
}

proof fn lemma_ops_ins_member(g: GraphLayout, p: Map<u64, u64>, st: int, ops: Seq<u64>, a: int)
    requires
        0 <= a < ops.len(),
        gin(g, ops[a]) || crosses(g, p, st, ops[a]),
    ensures
        ops_ins(g, p, st, ops).contains((st as usize, ops[a])),
    decreases ops.len(),
{
    let r = ops_ins(g, p, st, ops.drop_last());
    if a < ops.len() - 1 {
        assert(ops.drop_last()[a] == ops[a]);
        lemma_ops_ins_member(g, p, st, ops.drop_last(), a);
        if gin(g, ops.last()) || crosses(g, p, st, ops.last()) {
            lemma_push_contains(r, (st as usize, ops.last()), (st as usize, ops[a]));
        }
    } else {
        lemma_push_contains(r, (st as usize, ops.last()), (st as usize, ops[a]));
    }
}

proof fn lemma_ins_upto_member(g: GraphLayout, p: Map<u64, u64>, i: int, k: int, e: (usize, u64))
    requires
        0 <= i < k,
        node_ins(g, p, i).contains(e),
    ensures
        ins_upto(g, p, k).contains(e),
    decreases k,
{
    lemma_concat_contains(ins_upto(g, p, k - 1), node_ins(g, p, k - 1), e);
    if i < k - 1 {
        lemma_ins_upto_member(g, p, i, k - 1, e);
    }
}

/// Kahn's order of the stage dependencies, for a placement of every node.
pub open spec fn plan_order(g: GraphLayout, p: Map<u64, u64>) -> Seq<usize> {
    kahn_order(stage_deps(g, p), stage_order(g, p).len() as int)
}

/// The planner succeeds exactly when the stage dependencies have no cycle: a
/// placement is refused only when some set of stages each waits on another
/// stage of the set.
pub proof fn law_plan_succeeds_iff_acyclic(g: GraphLayout, p: Map<u64, u64>)
    requires
        g.topo@.len() <= usize::MAX,
        well_formed(g),
        all_placed(g, p),
    ensures
        stages_acyclic(g, p) <==> !has_cycle(stage_deps(g, p), stage_order(g, p).len() as int),
{
    lemma_stage_deps_range(g, p);
    lemma_kahn_complete_iff_acyclic(stage_deps(g, p), stage_order(g, p).len() as int);
}

/// Stages come in dependency order: when stage `j2` of the plan consumes an
/// activation `x` (not a graph input) that a node of stage `j1` produces, and
/// the two stages differ, stage `j1` comes first.
pub proof fn law_plan_dependency_order(g: GraphLayout, p: Map<u64, u64>, j1: int, j2: int, x: u64)
    requires
        g.topo@.len() <= usize::MAX,
        well_formed(g),
        all_placed(g, p),
        stages_acyclic(g, p),
        0 <= j1 < plan_order(g, p).len(),
        0 <= j2 < plan_order(g, p).len(),
        j1 != j2,
        !gin(g, x),
        ids_of(boundary_pairs(g, p), plan_order(g, p)[j2] as int).contains(x),
        nodes_on(g, p, plan_order(g, p)[j1] as int, g.topo@.len() as int).contains(x),
    ensures
        j1 < j2,
{
    let m = stage_order(g, p).len() as int;
    let es = stage_deps(g, p);
    let o = plan_order(g, p);
    let b = o[j2];
    let a = o[j1];
    let n = g.topo@.len() as int;
    lemma_stage_deps_range(g, p);
    lemma_kahn_final(es, m);
    assert(o.take(o.len() as int) =~= o);
    lemma_ids_of(boundary_pairs(g, p), b, x);
    lemma_dedup_contains(ins_upto(g, p, n), (b, x));
    lemma_ins_dep(g, p, n, b, x);
    lemma_nodes_on(g, p, a as int, n, x);
    let jn = choose|jn: int| 0 <= jn < n && nid(g, jn) == x && #[trigger] node_stage(g, p, jn) == a as int;
    assert(stage_of(g, p, x) == a);
    lemma_node_stage_bound(g, p, jn);
    assert((stage_of(g, p, x) as usize) == a);
    lemma_dedup_contains(deps_upto(g, p, n), (a, b));
    let je = choose|je: int| 0 <= je < es.len() && es[je] == (a, b);
    assert(o.take(j2).contains(es[je].0));
    let y = choose|y: int| 0 <= y < j2 && #[trigger] o.take(j2)[y] == a;
    assert(o[y] == o[j1]);
}

/// Every stage is self-contained: each operand of one of its own nodes is an
/// own node too, or one of the stage's boundary inputs.
pub proof fn law_plan_stage_self_contained(g: GraphLayout, p: Map<u64, u64>, i: int, a: int)
    requires
        g.topo@.len() <= usize::MAX,
        well_formed(g),
        all_placed(g, p),
        0 <= i < g.topo@.len(),
        0 <= a < g.topo@[i].inputs@.len(),
    ensures
        ({
            let k = node_stage(g, p, i);
            let op = g.topo@[i].inputs@[a];
            nodes_on(g, p, k, g.topo@.len() as int).contains(op) || ids_of(boundary_pairs(g, p), k).contains(op)
        }),
{
    let k = node_stage(g, p, i);
    let ops = g.topo@[i].inputs@;
    let op = ops[a];
    let n = g.topo@.len() as int;
    lemma_node_stage_bound(g, p, i);
    if gin(g, op) || crosses(g, p, k, op) {
        lemma_ops_ins_member(g, p, k, ops, a);
        let pre: Seq<(usize, u64)> = if gin(g, nid(g, i)) {
            seq![(k as usize, nid(g, i))]
        } else {
            seq![]
        };
        lemma_concat_contains(pre, ops_ins(g, p, k, ops), (k as usize, op));
        lemma_ins_upto_member(g, p, i, n, (k as usize, op));
        lemma_dedup_contains(ins_upto(g, p, n), (k as usize, op));
        lemma_ids_of(boundary_pairs(g, p), k as usize, op);
    } else {
        assert(node_ids(g).contains(op));
        let j = choose|j: int| 0 <= j < node_ids(g).len() && node_ids(g)[j] == op;
        assert(nid(g, j) == op && node_stage(g, p, j) == k);
        lemma_nodes_on(g, p, k, n, op);
    }
}

/// Every node belongs to exactly one stage of the plan: the stage of its peer.
pub proof fn law_plan_node_in_one_stage(g: GraphLayout, p: Map<u64, u64>, i: int)
    requires
        g.topo@.len() <= usize::MAX,
        well_formed(g),
        all_placed(g, p),
        stages_acyclic(g, p),
        0 <= i < g.topo@.len(),
    ensures
        exists|j: int| 0 <= j < plan_order(g, p).len() && plan_order(g, p)[j] == node_stage(g, p, i),
        forall|j: int|
            0 <= j < plan_order(g, p).len() ==> (#[trigger] nodes_on(
                g,
                p,
                plan_order(g, p)[j] as int,
                g.topo@.len() as int,
            ).contains(nid(g, i)) <==> plan_order(g, p)[j] == node_stage(g, p, i)),
{
    let m = stage_order(g, p).len() as int;
    let es = stage_deps(g, p);
    let o = plan_order(g, p);
    let n = g.topo@.len() as int;
    lemma_stage_deps_range(g, p);
    lemma_kahn_final(es, m);
    lemma_node_stage_bound(g, p, i);
    lemma_full_covers(o, m, node_stage(g, p, i) as usize);
    assert forall|j: int| 0 <= j < o.len() implies (#[trigger] nodes_on(g, p, o[j] as int, n).contains(
        nid(g, i),
    ) <==> o[j] == node_stage(g, p, i)) by {
        lemma_nodes_on(g, p, o[j] as int, n, nid(g, i));
        if o[j] == node_stage(g, p, i) {
            assert(nid(g, i) == nid(g, i) && node_stage(g, p, i) == o[j] as int);
        }
        if nodes_on(g, p, o[j] as int, n).contains(nid(g, i)) {
            let jj = choose|jj: int| 0 <= jj < n && nid(g, jj) == nid(g, i) && #[trigger] node_stage(g, p, jj) == o[j] as int;
            if jj != i {
                if jj < i {
                    assert(nid(g, jj) != nid(g, i));
                } else {
                    assert(nid(g, i) != nid(g, jj));
                }
            }
        }
    }
}

proof fn lemma_ops_ins_out(g: GraphLayout, p: Map<u64, u64>, st: int, ops: Seq<u64>, b: usize, x: u64)
    requires
        0 <= st <= usize::MAX,
        ops_ins(g, p, st, ops).contains((b, x)),
        !gin(g, x),
    ensures
        ops_outs(g, p, st, ops).contains((stage_of(g, p, x) as usize, x)),
        ops.contains(x),
    decreases ops.len(),
{
    let r = ops_ins(g, p, st, ops.drop_last());
    let ro = ops_outs(g, p, st, ops.drop_last());
    let last = ops.last();
    if gin(g, last) || crosses(g, p, st, last) {
        lemma_push_contains(r, (st as usize, last), (b, x));
    }
    if crosses(g, p, st, last) {
        lemma_push_contains(ro, (stage_of(g, p, last) as usize, last), (stage_of(g, p, x) as usize, x));
    }
    if r.contains((b, x)) {
        lemma_ops_ins_out(g, p, st, ops.drop_last(), b, x);
        if crosses(g, p, st, last) {
            lemma_push_contains(ro, (stage_of(g, p, last) as usize, last), (stage_of(g, p, x) as usize, x));
        }
        let a = choose|a: int| 0 <= a < ops.drop_last().len() && ops.drop_last()[a] == x;
        assert(ops[a] == x);
    } else {
        assert(ops[ops.len() - 1] == x);
    }
}

/// A boundary input that is not a graph input is an operand of some node, and
/// its producing stage publishes it.
proof fn lemma_ins_out(g: GraphLayout, p: Map<u64, u64>, k: int, b: usize, x: u64)
    requires
        g.topo@.len() <= usize::MAX,
        all_placed(g, p),
        0 <= k <= g.topo@.len(),
        ins_upto(g, p, k).contains((b, x)),
        !gin(g, x),
    ensures
        outs_upto(g, p, k).contains((stage_of(g, p, x) as usize, x)),
        exists|i: int| 0 <= i < k && #[trigger] g.topo@[i].inputs@.contains(x),
    decreases k,
{
    let i = k - 1;
    let st = node_stage(g, p, i);
    let e = (stage_of(g, p, x) as usize, x);
    lemma_node_stage_bound(g, p, i);
    lemma_concat_contains(ins_upto(g, p, i), node_ins(g, p, i), (b, x));
    lemma_concat_contains(outs_upto(g, p, i), node_outs(g, p, i), e);
    if ins_upto(g, p, i).contains((b, x)) {
        lemma_ins_out(g, p, i, b, x);
        let i1 = choose|i1: int| 0 <= i1 < i && #[trigger] g.topo@[i1].inputs@.contains(x);
        assert(0 <= i1 < k && g.topo@[i1].inputs@.contains(x));
    } else {
        let pre: Seq<(usize, u64)> = if gin(g, nid(g, i)) {
            seq![(st as usize, nid(g, i))]
        } else {
            seq![]
        };
        let preo: Seq<(usize, u64)> = if gout(g, nid(g, i)) {
            seq![(st as usize, nid(g, i))]
        } else {
            seq![]
        };
        lemma_concat_contains(pre, ops_ins(g, p, st, g.topo@[i].inputs@), (b, x));
        if pre.contains((b, x)) {
            assert(pre[0] == (b, x));
        }
        lemma_ops_ins_out(g, p, st, g.topo@[i].inputs@, b, x);
        lemma_concat_contains(preo, ops_outs(g, p, st, g.topo@[i].inputs@), e);
    }
}

/// Every activation a planned stage consumes is a graph input or is published
/// by a stage that comes before it in the plan.
pub proof fn law_plan_inputs_published_earlier(g: GraphLayout, p: Map<u64, u64>, j: int, x: u64)
    requires
        g.topo@.len() <= usize::MAX,
        well_formed(g),
        all_placed(g, p),
        stages_acyclic(g, p),
        0 <= j < plan_order(g, p).len(),
        ids_of(boundary_pairs(g, p), plan_order(g, p)[j] as int).contains(x),
    ensures
        gin(g, x) || exists|j1: int|
            0 <= j1 < j && #[trigger] ids_of(output_pairs(g, p), plan_order(g, p)[j1] as int).contains(x),
{
    if !gin(g, x) {
        let o = plan_order(g, p);
        let k = o[j];
        let n = g.topo@.len() as int;
        lemma_ids_of(boundary_pairs(g, p), k, x);
        lemma_dedup_contains(ins_upto(g, p, n), (k, x));
        lemma_ins_out(g, p, n, k, x);
        lemma_ins_dep(g, p, n, k, x);
        let i = choose|i: int| 0 <= i < n && #[trigger] g.topo@[i].inputs@.contains(x);
        let a = choose|a: int| 0 <= a < g.topo@[i].inputs@.len() && g.topo@[i].inputs@[a] == x;
        assert(g.inputs@.contains(x) || node_ids(g).contains(x));
        let i0 = choose|i0: int| 0 <= i0 < node_ids(g).len() && node_ids(g)[i0] == x;
        assert(nid(g, i0) == x);
        law_plan_node_in_one_stage(g, p, i0);
        let j1 = choose|j1: int| 0 <= j1 < o.len() && o[j1] == node_stage(g, p, i0);
        assert(nodes_on(g, p, o[j1] as int, n).contains(nid(g, i0)));
        assert(o[j1] as int == stage_of(g, p, x));
        law_plan_dependency_order(g, p, j1, j, x);
        let e = (stage_of(g, p, x) as usize, x);
        lemma_dedup_contains(outs_upto(g, p, n), e);
        lemma_ids_of(output_pairs(g, p), o[j1], x);
        assert(ids_of(output_pairs(g, p), o[j1] as int).contains(x));
    }
}

/// A stage as plain values: its peer, own nodes, inputs and outputs.
pub open spec fn stage_view(s: PipelineStage) -> (u64, Seq<u64>, Seq<u64>, Seq<u64>) {
    (s.peer, s.node_ids@, s.input_ids@, s.output_ids@)
}

/// Two planning results describe the same plan: the same stages in the same
/// order, or the same `InvalidGraph` message.
pub open spec fn same_plan(r1: Result<Vec<PipelineStage>, GraphError>, r2: Result<Vec<PipelineStage>, GraphError>) -> bool {
    match (r1, r2) {
        (Ok(a), Ok(b)) => a@.len() == b@.len() && forall|j: int|
            0 <= j < a@.len() ==> stage_view(#[trigger] a@[j]) == stage_view(b@[j]),
        (Err(GraphError::InvalidGraph(m1)), Err(GraphError::InvalidGraph(m2))) => m1@ == m2@,
        _ => false,
    }
}

/// Planning over contiguous chunks is planning over the contiguous placement:
/// for non-empty `peers`, what `plan_pipeline_contiguous` returns (`r1`) and
/// what `plan_pipeline` returns for `contiguous_placement` (`r2`) describe the
/// same plan.
pub proof fn law_contiguous_plan_matches_plan_pipeline(
    g: GraphLayout,
    peers: Seq<u64>,
    r1: Result<Vec<PipelineStage>, GraphError>,
    r2: Result<Vec<PipelineStage>, GraphError>,
)
    requires
        well_formed(g),
        peers.len() > 0,
        plans(g, contiguous_placement(g, peers), r1),
        all_placed(g, contiguous_placement(g, peers)) ==> plans(g, contiguous_placement(g, peers), r2),
    ensures
        all_placed(g, contiguous_placement(g, peers)),
        same_plan(r1, r2),
{
    let p = contiguous_placement(g, peers);
    assert forall|j: int| 0 <= j < g.topo@.len() implies p.contains_key(#[trigger] nid(g, j)) by {
        assert(node_ids(g)[j] == nid(g, j));
    }
    match (r1, r2) {
        (Ok(a), Ok(b)) => {
            assert forall|j: int| 0 <= j < a@.len() implies stage_view(#[trigger] a@[j]) == stage_view(b@[j]) by {
                let order = kahn_order(stage_deps(g, p), stage_order(g, p).len() as int);
                assert(is_planned_stage(g, p, order[j] as int, a@[j]));
                assert(is_planned_stage(g, p, order[j] as int, b@[j]));
            }
        },
        _ => {},
    }
}

} // verus!
