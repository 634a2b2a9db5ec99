use ipfrs_tensorlogic::computation_graph::GraphError;
use ipfrs_tensorlogic::distributed::planner::{
    plan_pipeline, plan_pipeline_contiguous, GraphLayout, PipelineStage, PlanNode,
};
use std::collections::HashMap;

// Node ids of the chain graph y = silu(relu(x + b) * w).
const X: u64 = 1;
const B: u64 = 2;
const W: u64 = 3;
const S: u64 = 4;
const H: u64 = 5;
const M: u64 = 6;
const Y: u64 = 7;

// Peers.
const PA: u64 = 100;
const PB: u64 = 200;

fn node(id: u64, inputs: &[u64]) -> PlanNode {
    PlanNode { id, inputs: inputs.to_vec() }
}

/// y = silu(relu(x + b) * w) — a short chain that splits cleanly into stages.
fn chain_graph() -> GraphLayout {
    GraphLayout {
        topo: vec![
            node(X, &[]),
            node(B, &[]),
            node(W, &[]),
            node(S, &[X, B]),
            node(H, &[S]),
            node(M, &[H, W]),
            node(Y, &[M]),
        ],
        inputs: vec![X, B, W],
        outputs: vec![Y],
    }
}

fn placement(pairs: &[(u64, u64)]) -> HashMap<u64, u64> {
    pairs.iter().copied().collect()
}

fn invalid_message(r: Result<Vec<PipelineStage>, GraphError>) -> String {
    match r {
        Err(GraphError::InvalidGraph(m)) => m,
        other => panic!("expected InvalidGraph, got {:?}", other),
    }
}

#[test]
fn explicit_placement_builds_self_contained_subgraphs() {
    let g = chain_graph();
    // Stage A: inputs + add + relu; Stage B: mul + silu.
    let p = placement(&[(X, PA), (B, PA), (S, PA), (H, PA), (W, PB), (M, PB), (Y, PB)]);
    let stages = plan_pipeline(&g, &p).unwrap();
    assert_eq!(stages.len(), 2);
    assert_eq!(stages[0].peer, PA);
    assert_eq!(stages[1].peer, PB);
    // A outputs h (consumed by B); B needs h as a boundary input.
    assert!(stages[0].output_ids.contains(&H));
    assert!(stages[1].input_ids.contains(&H));
    // h is fed to B from outside: it is not one of B's own nodes.
    assert!(!stages[1].node_ids.contains(&H));
}

#[test]
fn explicit_placement_exact_stages() {
    let g = chain_graph();
    let p = placement(&[(X, PA), (B, PA), (S, PA), (H, PA), (W, PB), (M, PB), (Y, PB)]);
    let stages = plan_pipeline(&g, &p).unwrap();
    assert_eq!(
        stages,
        vec![
            PipelineStage::new(PA, vec![X, B, S, H], vec![X, B], vec![H]),
            PipelineStage::new(PB, vec![W, M, Y], vec![W, H], vec![Y]),
        ]
    );
}

#[test]
fn missing_placement_errors() {
    let g = chain_graph();
    let p = placement(&[(X, PA)]); // incomplete
    let r = plan_pipeline(&g, &p);
    // The first node in topological order without a peer is named.
    assert_eq!(invalid_message(r), "plan_pipeline: node '2' has no placement");
}

#[test]
fn cyclic_placement_errors() {
    // a, c on S1 and b on S2: S1 → S2 (a → b) and S2 → S1 (b → c).
    let g = GraphLayout {
        topo: vec![node(10, &[]), node(11, &[10]), node(12, &[11]), node(13, &[11, 12])],
        inputs: vec![10],
        outputs: vec![13],
    };
    let p = placement(&[(10, 1), (11, 1), (12, 2), (13, 1)]);
    let r = plan_pipeline(&g, &p);
    assert_eq!(
        invalid_message(r),
        "plan_pipeline: placement induces a cyclic stage graph"
    );
}

#[test]
fn stage_order_follows_dependencies_not_first_appearance() {
    // u on A is seen first, but A's node w consumes v from B: B runs first.
    let g = GraphLayout {
        topo: vec![node(20, &[]), node(21, &[]), node(22, &[20, 21])],
        inputs: vec![20],
        outputs: vec![22],
    };
    let p = placement(&[(20, PA), (21, PB), (22, PA)]);
    let stages = plan_pipeline(&g, &p).unwrap();
    assert_eq!(
        stages,
        vec![
            PipelineStage::new(PB, vec![21], vec![], vec![21]),
            PipelineStage::new(PA, vec![20, 22], vec![20, 21], vec![22]),
        ]
    );
}

#[test]
fn single_peer_holds_everything() {
    let g = chain_graph();
    let p = placement(&[(X, 9), (B, 9), (W, 9), (S, 9), (H, 9), (M, 9), (Y, 9)]);
    let stages = plan_pipeline(&g, &p).unwrap();
    assert_eq!(
        stages,
        vec![PipelineStage::new(9, vec![X, B, W, S, H, M, Y], vec![X, B, W], vec![Y])]
    );
}

#[test]
fn empty_graph_plans_no_stage() {
    let g = GraphLayout { topo: vec![], inputs: vec![], outputs: vec![] };
    let stages = plan_pipeline(&g, &HashMap::new()).unwrap();
    assert!(stages.is_empty());
}

#[test]
fn contiguous_placement_splits_chain() {
    // 7 nodes over 3 peers: chunks of 3, 2 and 2 nodes.
    let g = chain_graph();
    let peers = vec![30, 31, 32];
    let stages = plan_pipeline_contiguous(&g, &peers).unwrap();
    assert_eq!(
        stages,
        vec![
            PipelineStage::new(30, vec![X, B, W], vec![X, B, W], vec![]),
            PipelineStage::new(31, vec![S, H], vec![X, B], vec![H]),
            PipelineStage::new(32, vec![M, Y], vec![H, W], vec![Y]),
        ]
    );
}

#[test]
fn contiguous_more_peers_than_nodes() {
    // Two nodes over three peers: the last peer gets nothing and no stage.
    let g = GraphLayout {
        topo: vec![node(1, &[]), node(2, &[1])],
        inputs: vec![1],
        outputs: vec![2],
    };
    let stages = plan_pipeline_contiguous(&g, &vec![7, 8, 9]).unwrap();
    assert_eq!(
        stages,
        vec![
            PipelineStage::new(7, vec![1], vec![1], vec![]),
            PipelineStage::new(8, vec![2], vec![1], vec![2]),
        ]
    );
}

#[test]
fn contiguous_without_peers_errors() {
    let g = chain_graph();
    let r = plan_pipeline_contiguous(&g, &vec![]);
    assert_eq!(invalid_message(r), "plan_pipeline_contiguous: no peers");
}

#[test]
fn contiguous_plan_equals_plan_of_contiguous_placement() {
    let g = chain_graph();
    let peers = vec![10, 20, 30];
    let a = plan_pipeline_contiguous(&g, &peers).unwrap();
    // 7 nodes over 3 peers: chunks of 3, 2 and 2 in topological order.
    let p = placement(&[(X, 10), (B, 10), (W, 10), (S, 20), (H, 20), (M, 30), (Y, 30)]);
    let b = plan_pipeline(&g, &p).unwrap();
    assert!(a.len() >= 2);
    assert_eq!(a.len(), b.len());
    for (x, y) in a.iter().zip(b.iter()) {
        assert_eq!(x.peer, y.peer);
        assert_eq!(x.node_ids, y.node_ids);
        assert_eq!(x.input_ids, y.input_ids);
        assert_eq!(x.output_ids, y.output_ids);
    }
}
