//! Driving a planned pipeline: run the stages in order and thread activations
//! between them.
//!
//! The runner that owns the transport performs each stage on its peer; the
//! decisions are made here. [`PipelineDriver`] holds the position in the
//! pipeline and the ids of the activations available so far (the initial
//! values, then everything each stage has produced). Before a stage runs,
//! [`PipelineDriver::next_step`] checks that every activation it consumes is
//! available; after it ran, [`PipelineDriver::on_response`] either stops the
//! pipeline with the stage's error or publishes its outputs and moves on. The
//! pipeline fails fast: the first missing input or stage error ends it.

use crate::computation_graph::GraphError;
use crate::distributed::planner::{
    all_placed, boundary_pairs, ids_of, law_plan_inputs_published_earlier, output_pairs, plan_order, plans,
    well_formed, GraphLayout, PipelineStage,
};
use crate::distributed_optimizer::{decimal, decimal_string};
use vstd::prelude::*;

verus! {

/// What the runner does next.
#[derive(Debug, Clone, PartialEq, Eq)]
pub enum PipelineStep {
    /// Run the stage at this index; all its inputs are available.
    Run(usize),
    /// Every stage has run.
    Finished,
    /// The pipeline stops with this error.
    Failed(GraphError),
}

/// Input `k` of `inputs` is the first that `available` lacks.
pub open spec fn first_missing(inputs: Seq<u64>, available: Seq<u64>, k: int) -> bool {
    &&& 0 <= k < inputs.len()
    &&& !available.contains(inputs[k])
    &&& forall|j: int| 0 <= j < k ==> available.contains(#[trigger] inputs[j])
}

/// Every id of `inputs` is in `available`.
pub open spec fn all_available(inputs: Seq<u64>, available: Seq<u64>) -> bool {
    forall|j: int| 0 <= j < inputs.len() ==> available.contains(#[trigger] inputs[j])
}

/// The message for an activation that stage `i` needs and nobody produced.
pub open spec fn missing_message(i: nat, peer: u64, id: u64) -> Seq<char> {
    "stage "@ + decimal(i) + " (peer "@ + decimal(peer as nat) + "): activation '"@ + decimal(
        id as nat,
    ) + "' not yet available"@
}

/// The message for stage `i` reporting the error `err`.
pub open spec fn failed_message(i: nat, peer: u64, err: Seq<char>) -> Seq<char> {
    "stage "@ + decimal(i) + " (peer "@ + decimal(peer as nat) + ") failed: "@ + err
}

/// The next step for a driver at stage `next` with `available` activations.
pub open spec fn step_for(stages: Seq<PipelineStage>, next: nat, available: Seq<u64>, s: PipelineStep) -> bool {
    if next >= stages.len() {
        s == PipelineStep::Finished
    } else {
        let st = stages[next as int];
        if all_available(st.input_ids@, available) {
            s == PipelineStep::Run(next as usize)
        } else {
            exists|k: int|
                #[trigger] first_missing(st.input_ids@, available, k) && match s {
                    PipelineStep::Failed(GraphError::MissingInput(m)) => m@ == missing_message(
                        next,
                        st.peer,
                        st.input_ids@[k],
                    ),
                    _ => false,
                }
        }
    }
}

/// The state of a pipeline run: the index of the next stage and the ids of
/// the activations available so far.
pub struct PipelineDriver {
    next_stage: usize,
    available: Vec<u64>,
}

impl PipelineDriver {
    /// Index of the next stage to run.
    pub closed spec fn next_view(&self) -> nat {
        self.next_stage as nat
    }

    /// Ids of the available activations, in the order they became available.
    pub closed spec fn available_view(&self) -> Seq<u64> {
        self.available@
    }

    /// Start a run at the first stage, with the pipeline's initial values
    /// available.
    pub fn new(initial: Vec<u64>) -> (d: Self)
        ensures
            d.next_view() == 0,
            d.available_view() == initial@,
    {
        PipelineDriver { next_stage: 0, available: initial }
    }

    /// Index of the next stage to run.
    pub fn next_stage(&self) -> (i: usize)
        ensures
            i == self.next_view(),
    {
        self.next_stage
    }

    /// Whether activation `id` is available.
    pub fn is_available(&self, id: u64) -> (b: bool)
        ensures
            b == self.available_view().contains(id),
    {
        let mut k: usize = 0;
        while k < self.available.len()
            invariant
                k <= self.available@.len(),
                forall|j: int| 0 <= j < k ==> self.available@[j] != id,
            decreases self.available@.len() - k,
        {
            if self.available[k] == id {
                return true;
            }
            k += 1;
        }
        false
    }

    /// Decide the next step: `Finished` after the last stage; `Run` when
    /// every input of the next stage is available; otherwise `Failed` with
    /// `MissingInput` naming the first input that is not.
    pub fn next_step(&self, stages: &Vec<PipelineStage>) -> (s: PipelineStep)
        ensures
            step_for(stages@, self.next_view(), self.available_view(), s),
    {
        if self.next_stage >= stages.len() {
            return PipelineStep::Finished;
        }
        let st = &stages[self.next_stage];
        let mut k: usize = 0;
        while k < st.input_ids.len()
            invariant
                self.next_stage < stages@.len(),
                *st == stages@[self.next_stage as int],
                k <= st.input_ids@.len(),
                all_available(st.input_ids@.take(k as int), self.available@),
            decreases st.input_ids@.len() - k,
        {
            let id = st.input_ids[k];
            if !self.is_available(id) {
                let mut m = "stage ".to_owned();
                let a = decimal_string(self.next_stage as u64);
                m.append(a.as_str());
                m.append(" (peer ");
                let b = decimal_string(st.peer);
                m.append(b.as_str());
                m.append("): activation '");
                let c = decimal_string(id);
                m.append(c.as_str());
                m.append("' not yet available");
                proof {
                    reveal_strlit("stage ");
                    reveal_strlit(" (peer ");
                    reveal_strlit("): activation '");
                    reveal_strlit("' not yet available");
                    assert forall|j: int| 0 <= j < k implies self.available@.contains(
                        #[trigger] st.input_ids@[j],
                    ) by {
                        assert(st.input_ids@.take(k as int)[j] == st.input_ids@[j]);
                    }
                    assert(first_missing(st.input_ids@, self.available@, k as int));
                    assert(m@ == missing_message(self.next_view(), st.peer, st.input_ids@[k as int]));
                    assert(!all_available(st.input_ids@, self.available@));
                    assert(stages@[self.next_view() as int] == *st);
                }
                return PipelineStep::Failed(GraphError::MissingInput(m));
            }
            proof {
                assert forall|j: int| 0 <= j < k + 1 implies self.available@.contains(
                    #[trigger] st.input_ids@.take(k + 1)[j],
                ) by {
                    if j < k {
                        assert(st.input_ids@.take(k + 1)[j] == st.input_ids@.take(k as int)[j]);
                    }
                }
            }
            k += 1;
        }
        proof {
            assert(st.input_ids@.take(k as int) =~= st.input_ids@);
        }
        PipelineStep::Run(self.next_stage)
    }

    /// Take the response of the stage just run. With an `error`, the pipeline
    /// stops: the result is `ExecutionError` naming the stage and its peer,
    /// and the driver is unchanged. Otherwise the `produced` activations
    /// become available, after those already there, and the driver moves to
    /// the next stage.
    pub fn on_response(&mut self, stages: &Vec<PipelineStage>, error: Option<String>, produced: Vec<u64>) -> (r: Result<(), GraphError>)
        requires
            old(self).next_view() < stages@.len(),
        ensures
            match error {
                Some(e) => {
                    &&& *final(self) == *old(self)
                    &&& r matches Err(GraphError::ExecutionError(m)) && m@ == failed_message(
                        old(self).next_view(),
                        stages@[old(self).next_view() as int].peer,
                        e@,
                    )
                },
                None => {
                    &&& r is Ok
                    &&& final(self).next_view() == old(self).next_view() + 1
                    &&& final(self).available_view() == old(self).available_view() + produced@
                },
            },
    {
        match error {
            Some(e) => {
                let st = &stages[self.next_stage];
                let mut m = "stage ".to_owned();
                let a = decimal_string(self.next_stage as u64);
                m.append(a.as_str());
                m.append(" (peer ");
                let b = decimal_string(st.peer);
                m.append(b.as_str());
                m.append(") failed: ");
                m.append(e.as_str());
                proof {
                    reveal_strlit("stage ");
                    reveal_strlit(" (peer ");
                    reveal_strlit(") failed: ");
                }
                Err(GraphError::ExecutionError(m))
            },
            None => {
                let i = self.next_stage;
                proof {
                    assert(i < stages.len());
                }
                let mut produced = produced;
                self.available.append(&mut produced);
                self.next_stage = i + 1;
                Ok(())
            },
        }
    }
}

/// The activations the first `j` stages publish, in stage order.
pub open spec fn published(stages: Seq<PipelineStage>, j: int) -> Seq<u64>
    decreases j,
{
    if j <= 0 {
        seq![]
    } else {
        published(stages, j - 1) + stages[j - 1].output_ids@
    }
}

proof fn lemma_published_contains(stages: Seq<PipelineStage>, j: int, j1: int, x: u64)
    requires
        0 <= j1 < j,
        stages[j1].output_ids@.contains(x),
    ensures
        published(stages, j).contains(x),
    decreases j,
{
    let pre = published(stages, j - 1);
    let outs = stages[j - 1].output_ids@;
    if j1 < j - 1 {
        lemma_published_contains(stages, j - 1, j1, x);
        let k = choose|k: int| 0 <= k < pre.len() && pre[k] == x;
        assert((pre + outs)[k] == x);
    } else {
        let k = choose|k: int| 0 <= k < outs.len() && outs[k] == x;
        assert((pre + outs)[pre.len() + k] == x);
    }
}

/// A plan of `plan_pipeline` runs to the end: driven from the graph's inputs,
/// with every stage before it publishing its `output_ids`, the driver runs
/// each stage in turn and never stops on a missing input.
pub proof fn law_planned_pipeline_runs_every_stage(
    g: GraphLayout,
    p: Map<u64, u64>,
    stages: Vec<PipelineStage>,
    j: int,
)
    requires
        g.topo@.len() <= usize::MAX,
        well_formed(g),
        all_placed(g, p),
        plans(g, p, Ok(stages)),
        0 <= j < stages@.len(),
    ensures
        step_for(stages@, j as nat, g.inputs@ + published(stages@, j), PipelineStep::Run(j as usize)),
{
    let avail = g.inputs@ + published(stages@, j);
    let o = plan_order(g, p);
    let ins = stages@[j].input_ids@;
    assert forall|a: int| 0 <= a < ins.len() implies avail.contains(#[trigger] ins[a]) by {
        let x = ins[a];
        assert(ins == ids_of(boundary_pairs(g, p), o[j] as int));
        assert(ids_of(boundary_pairs(g, p), o[j] as int).contains(x));
        law_plan_inputs_published_earlier(g, p, j, x);
        if g.inputs@.contains(x) {
            let k = choose|k: int| 0 <= k < g.inputs@.len() && g.inputs@[k] == x;
            assert(avail[k] == x);
        } else {
            let j1 = choose|j1: int|
                0 <= j1 < j && #[trigger] ids_of(output_pairs(g, p), o[j1] as int).contains(x);
            assert(stages@[j1].output_ids@ == ids_of(output_pairs(g, p), o[j1] as int));
            lemma_published_contains(stages@, j, j1, x);
            let k = choose|k: int| 0 <= k < published(stages@, j).len() && published(stages@, j)[k] == x;
            assert(avail[g.inputs@.len() + k] == x);
        }
    }
}

} // verus!
