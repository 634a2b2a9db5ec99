use ipfrs_tensorlogic::computation_graph::GraphError;
use ipfrs_tensorlogic::distributed::collectives::{all_gather, check_same_shape, scatter_leading, ReduceOp};
use ipfrs_tensorlogic::numeric_exec::NumTensor;

fn t(data: Vec<f32>, shape: Vec<usize>) -> NumTensor<f32> {
    NumTensor::new(data, shape).unwrap()
}

#[test]
fn all_gather_stacks_rows() {
    let s0 = t(vec![1.0, 2.0], vec![1, 2]);
    let s1 = t(vec![3.0, 4.0, 5.0, 6.0], vec![2, 2]);
    let g = all_gather(&[s0, s1]).unwrap();
    assert_eq!(g.shape, vec![3, 2]);
    assert_eq!(g.data, vec![1.0, 2.0, 3.0, 4.0, 5.0, 6.0]);
}

#[test]
fn all_gather_trailing_mismatch_errs() {
    let s0 = t(vec![1.0, 2.0], vec![1, 2]);
    let s1 = t(vec![3.0, 4.0, 5.0], vec![1, 3]);
    assert!(all_gather(&[s0, s1]).is_err());
}

#[test]
fn all_gather_edge_cases() {
    let none: Vec<NumTensor<f32>> = Vec::new();
    assert!(matches!(all_gather(&none), Err(GraphError::ExecutionError(_))));
    let scalar = t(vec![1.0], Vec::new());
    assert!(matches!(all_gather(&[scalar]), Err(GraphError::ShapeMismatch(_))));
    let a = t(vec![1.0, 2.0, 3.0], vec![3]);
    let b = t(vec![4.0], vec![1]);
    let g = all_gather(&[a, b]).unwrap();
    assert_eq!(g.shape, vec![4]);
    assert_eq!(g.data, vec![1.0, 2.0, 3.0, 4.0]);
    let c = t(vec![1.0, 2.0, 3.0, 4.0], vec![1, 2, 2]);
    let d = t(vec![5.0, 6.0, 7.0, 8.0], vec![1, 2, 2]);
    let g3 = all_gather(&[c, d]).unwrap();
    assert_eq!(g3.shape, vec![2, 2, 2]);
}

#[test]
fn same_shape_check() {
    let none: Vec<NumTensor<f32>> = Vec::new();
    assert!(matches!(check_same_shape(&none), Err(GraphError::ExecutionError(_))));
    let a = t(vec![1.0, 2.0], vec![2]);
    let b = t(vec![1.0, 2.0, 3.0], vec![3]);
    let c = t(vec![5.0, 6.0], vec![2]);
    assert!(matches!(check_same_shape(&[a.clone(), b]), Err(GraphError::ShapeMismatch(_))));
    assert!(check_same_shape(&[a, c]).is_ok());
}

#[test]
fn scatter_leading_splits_rows() {
    let r = t(vec![11.0, 22.0, 33.0, 44.0], vec![4, 1]);
    let chunks = scatter_leading(&r, 2).unwrap();
    assert_eq!(chunks.len(), 2);
    assert_eq!(chunks[0].shape, vec![2, 1]);
    assert_eq!(chunks[0].data, vec![11.0, 22.0]);
    assert_eq!(chunks[1].data, vec![33.0, 44.0]);

    let five = t(vec![1.0, 2.0, 3.0, 4.0, 5.0], vec![5, 1]);
    let uneven = scatter_leading(&five, 2).unwrap();
    assert_eq!(uneven[0].shape, vec![3, 1]);
    assert_eq!(uneven[1].shape, vec![2, 1]);
    assert_eq!(all_gather(&uneven).unwrap(), five);
}

#[test]
fn scatter_leading_errors() {
    let a = t(vec![1.0], vec![1, 1]);
    assert!(matches!(scatter_leading(&a, 0), Err(GraphError::ExecutionError(_))));
    let s = t(vec![1.0], Vec::new());
    assert!(matches!(scatter_leading(&s, 2), Err(GraphError::ShapeMismatch(_))));
}

#[test]
fn reduce_op_equality() {
    assert_eq!(ReduceOp::Sum, ReduceOp::Sum);
    assert_ne!(ReduceOp::Mean, ReduceOp::Sum);
    assert_ne!(ReduceOp::Max, ReduceOp::Min);
    assert_ne!(ReduceOp::Product, ReduceOp::Max);
}
