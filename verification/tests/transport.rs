use ipfrs_tensorlogic::computation_graph::GraphError;
use ipfrs_tensorlogic::distributed::planner::{plan_pipeline, GraphLayout, PipelineStage, PlanNode};
use ipfrs_tensorlogic::distributed::transport::{PipelineDriver, PipelineStep};
use std::collections::HashMap;

fn stage(peer: u64, inputs: &[u64], outputs: &[u64]) -> PipelineStage {
    PipelineStage::new(peer, outputs.to_vec(), inputs.to_vec(), outputs.to_vec())
}

fn plan_node(id: u64, inputs: &[u64]) -> PlanNode {
    PlanNode { id, inputs: inputs.to_vec() }
}

#[test]
fn driver_runs_stages_in_order_and_finishes() {
    let stages = vec![stage(10, &[1], &[2]), stage(20, &[2], &[3])];
    let mut d = PipelineDriver::new(vec![1]);
    assert_eq!(d.next_step(&stages), PipelineStep::Run(0));
    assert!(d.on_response(&stages, None, vec![2]).is_ok());
    assert_eq!(d.next_stage(), 1);
    assert!(d.is_available(1));
    assert!(d.is_available(2));
    assert_eq!(d.next_step(&stages), PipelineStep::Run(1));
    assert!(d.on_response(&stages, None, vec![3]).is_ok());
    assert_eq!(d.next_step(&stages), PipelineStep::Finished);
}

#[test]
fn driver_reports_first_missing_input() {
    let stages = vec![stage(10, &[1], &[2]), stage(20, &[2, 7, 8], &[3])];
    let mut d = PipelineDriver::new(vec![1]);
    assert!(d.on_response(&stages, None, vec![2]).is_ok());
    match d.next_step(&stages) {
        PipelineStep::Failed(GraphError::MissingInput(m)) => {
            assert_eq!(m, "stage 1 (peer 20): activation '7' not yet available");
        }
        other => panic!("unexpected {:?}", other),
    }
}

#[test]
fn missing_initial_value_stops_first_stage() {
    let stages = vec![stage(5, &[42], &[43])];
    let d = PipelineDriver::new(Vec::new());
    match d.next_step(&stages) {
        PipelineStep::Failed(GraphError::MissingInput(m)) => {
            assert_eq!(m, "stage 0 (peer 5): activation '42' not yet available");
        }
        other => panic!("unexpected {:?}", other),
    }
}

#[test]
fn stage_error_stops_pipeline_and_keeps_state() {
    let stages = vec![stage(10, &[1], &[2]), stage(20, &[2], &[3])];
    let mut d = PipelineDriver::new(vec![1]);
    match d.on_response(&stages, Some("boom".to_string()), vec![2]) {
        Err(GraphError::ExecutionError(m)) => assert_eq!(m, "stage 0 (peer 10) failed: boom"),
        other => panic!("unexpected {:?}", other),
    }
    assert_eq!(d.next_stage(), 0);
    assert!(!d.is_available(2));
}

#[test]
fn empty_pipeline_is_finished_at_once() {
    let d = PipelineDriver::new(vec![1, 2]);
    assert_eq!(d.next_step(&Vec::new()), PipelineStep::Finished);
}

#[test]
fn planned_pipeline_runs_to_completion() {
    // y = relu(x + b) * w, split over two peers.
    let g = GraphLayout {
        topo: vec![
            plan_node(1, &[]),
            plan_node(2, &[]),
            plan_node(3, &[]),
            plan_node(4, &[1, 2]),
            plan_node(5, &[4]),
            plan_node(6, &[5, 3]),
        ],
        inputs: vec![1, 2, 3],
        outputs: vec![6],
    };
    let placement: HashMap<u64, u64> =
        [(1, 100), (2, 100), (4, 100), (5, 100), (3, 200), (6, 200)].into_iter().collect();
    let stages = plan_pipeline(&g, &placement).unwrap();
    let mut d = PipelineDriver::new(g.inputs.clone());
    let mut ran = Vec::new();
    loop {
        match d.next_step(&stages) {
            PipelineStep::Run(i) => {
                ran.push(i);
                let produced = stages[i].output_ids.clone();
                assert!(d.on_response(&stages, None, produced).is_ok());
            }
            PipelineStep::Finished => break,
            PipelineStep::Failed(e) => panic!("unexpected {:?}", e),
        }
    }
    assert_eq!(ran, vec![0, 1]);
    assert!(d.is_available(6));
}
