use ipfrs_tensorlogic::computation_graph::GraphError;
use ipfrs_tensorlogic::distributed::sharding::{gather_shards, plan_shards, shard_tensor, ShardSpec, ShardStrategy};
use ipfrs_tensorlogic::numeric_exec::NumTensor;

fn t(data: Vec<f32>, shape: Vec<usize>) -> NumTensor<f32> {
    NumTensor::new(data, shape).unwrap()
}

#[test]
fn plan_even_split() {
    let specs = plan_shards(6, 3, ShardStrategy::RowParallel).unwrap();
    assert_eq!(specs.len(), 3);
    assert_eq!(specs.iter().map(|s| s.len).collect::<Vec<_>>(), vec![2, 2, 2]);
    assert_eq!(specs.iter().map(|s| s.start).collect::<Vec<_>>(), vec![0, 2, 4]);
}

#[test]
fn plan_uneven_split_remainder_first() {
    // 7 into 3 → 3,2,2 covering 0..7 exactly.
    let specs = plan_shards(7, 3, ShardStrategy::ColumnParallel).unwrap();
    assert_eq!(specs.iter().map(|s| s.len).collect::<Vec<_>>(), vec![3, 2, 2]);
    let last = specs.last().unwrap();
    assert_eq!(last.start + last.len, 7);
    assert!(specs.iter().all(|s| s.shard_dim == 1));
}

#[test]
fn plan_zero_shards_errs() {
    assert!(plan_shards(4, 0, ShardStrategy::RowParallel).is_err());
}

#[test]
fn row_shard_then_gather_roundtrips() {
    // 4x2 matrix.
    let m = t(vec![1.0, 2.0, 3.0, 4.0, 5.0, 6.0, 7.0, 8.0], vec![4, 2]);
    let specs = plan_shards(4, 2, ShardStrategy::RowParallel).unwrap();
    let shards: Vec<NumTensor<f32>> = specs.iter().map(|s| shard_tensor(&m, s).unwrap()).collect();
    assert_eq!(shards[0].shape, vec![2, 2]);
    assert_eq!(shards[0].data, vec![1.0, 2.0, 3.0, 4.0]);
    assert_eq!(shards[1].data, vec![5.0, 6.0, 7.0, 8.0]);
    let back = gather_shards(&shards, ShardStrategy::RowParallel).unwrap();
    assert_eq!(back, m);
}

#[test]
fn col_shard_then_gather_roundtrips() {
    // 2x4 matrix.
    let m = t(vec![1.0, 2.0, 3.0, 4.0, 5.0, 6.0, 7.0, 8.0], vec![2, 4]);
    let specs = plan_shards(4, 2, ShardStrategy::ColumnParallel).unwrap();
    let shards: Vec<NumTensor<f32>> = specs.iter().map(|s| shard_tensor(&m, s).unwrap()).collect();
    // shard 0 = cols 0..2 of each row.
    assert_eq!(shards[0].shape, vec![2, 2]);
    assert_eq!(shards[0].data, vec![1.0, 2.0, 5.0, 6.0]);
    assert_eq!(shards[1].data, vec![3.0, 4.0, 7.0, 8.0]);
    let back = gather_shards(&shards, ShardStrategy::ColumnParallel).unwrap();
    assert_eq!(back, m);
}

#[test]
fn shard_out_of_bounds_errs() {
    let m = t(vec![1.0, 2.0, 3.0, 4.0], vec![2, 2]);
    let bad = ShardSpec {
        shard_dim: 0,
        start: 1,
        len: 5,
        dim_total: 2,
        strategy: ShardStrategy::RowParallel,
    };
    assert!(shard_tensor(&m, &bad).is_err());
}

#[test]
fn shard_dim_total_mismatch_errs() {
    let m = t(vec![1.0, 2.0, 3.0, 4.0], vec![2, 2]);
    let bad = ShardSpec {
        shard_dim: 0,
        start: 0,
        len: 1,
        dim_total: 99,
        strategy: ShardStrategy::RowParallel,
    };
    assert!(shard_tensor(&m, &bad).is_err());
}

#[test]
fn plan_more_shards_than_elements() {
    let specs = plan_shards(2, 4, ShardStrategy::RowParallel).unwrap();
    assert_eq!(specs.iter().map(|s| s.len).collect::<Vec<_>>(), vec![1, 1, 0, 0]);
    assert_eq!(specs.iter().map(|s| s.start).collect::<Vec<_>>(), vec![0, 1, 2, 2]);
    assert!(specs.iter().all(|s| s.dim_total == 2 && s.shard_dim == 0));
}

#[test]
fn plan_zero_shards_is_execution_error() {
    assert!(matches!(
        plan_shards(4, 0, ShardStrategy::ColumnParallel),
        Err(GraphError::ExecutionError(_))
    ));
}

#[test]
fn shard_dim_values() {
    assert_eq!(ShardStrategy::RowParallel.shard_dim(), 0);
    assert_eq!(ShardStrategy::ColumnParallel.shard_dim(), 1);
}

#[test]
fn shard_rejects_non_2d_and_bad_dim() {
    let v = t(vec![1.0, 2.0, 3.0], vec![3]);
    let spec = ShardSpec {
        shard_dim: 0,
        start: 0,
        len: 1,
        dim_total: 3,
        strategy: ShardStrategy::RowParallel,
    };
    assert!(matches!(shard_tensor(&v, &spec), Err(GraphError::ShapeMismatch(_))));
    let m = t(vec![1.0, 2.0, 3.0, 4.0], vec![2, 2]);
    let bad = ShardSpec {
        shard_dim: 2,
        start: 0,
        len: 1,
        dim_total: 2,
        strategy: ShardStrategy::RowParallel,
    };
    assert!(matches!(shard_tensor(&m, &bad), Err(GraphError::ExecutionError(_))));
}

#[test]
fn uneven_column_shards_roundtrip() {
    // 2x5 matrix split 3 ways by columns: widths 2, 2, 1.
    let m = t((1..=10).map(|x| x as f32).collect(), vec![2, 5]);
    let specs = plan_shards(5, 3, ShardStrategy::ColumnParallel).unwrap();
    let shards: Vec<NumTensor<f32>> = specs.iter().map(|s| shard_tensor(&m, s).unwrap()).collect();
    assert_eq!(shards[0].data, vec![1.0, 2.0, 6.0, 7.0]);
    assert_eq!(shards[1].data, vec![3.0, 4.0, 8.0, 9.0]);
    assert_eq!(shards[2].shape, vec![2, 1]);
    assert_eq!(shards[2].data, vec![5.0, 10.0]);
    assert_eq!(gather_shards(&shards, ShardStrategy::ColumnParallel).unwrap(), m);
}

#[test]
fn gather_errors() {
    let empty: Vec<NumTensor<f32>> = Vec::new();
    assert!(matches!(
        gather_shards(&empty, ShardStrategy::RowParallel),
        Err(GraphError::ExecutionError(_))
    ));
    let a = t(vec![1.0, 2.0], vec![1, 2]);
    let b = t(vec![1.0, 2.0, 3.0], vec![1, 3]);
    assert!(matches!(
        gather_shards(&[a.clone(), b.clone()], ShardStrategy::RowParallel),
        Err(GraphError::ShapeMismatch(_))
    ));
    // The same pair joins fine by columns: both have one row.
    let g = gather_shards(&[a, b], ShardStrategy::ColumnParallel).unwrap();
    assert_eq!(g.shape, vec![1, 5]);
    assert_eq!(g.data, vec![1.0, 2.0, 1.0, 2.0, 3.0]);
    let c = t(vec![1.0, 2.0], vec![2, 1]);
    let d = t(vec![1.0], vec![1, 1]);
    assert!(matches!(
        gather_shards(&[c, d], ShardStrategy::ColumnParallel),
        Err(GraphError::ShapeMismatch(_))
    ));
}

#[test]
fn tensor_new_checks_element_count() {
    assert!(NumTensor::new(vec![1.0f32, 2.0], vec![3]).is_err());
    assert!(NumTensor::new(vec![1.0f32; 6], vec![2, 3]).is_ok());
    assert!(NumTensor::<f32>::new(Vec::new(), vec![4, 0]).is_ok());
    assert!(NumTensor::new(vec![7.0f32], Vec::new()).is_ok());
    assert!(matches!(
        NumTensor::<f32>::new(Vec::new(), vec![usize::MAX, 2]),
        Err(GraphError::ShapeMismatch(_))
    ));
}

#[test]
fn gather_columns_of_empty_shards() {
    let a = t(vec![], vec![3, 0]);
    let b = t(vec![], vec![3, 0]);
    let g = gather_shards(&[a, b], ShardStrategy::ColumnParallel).unwrap();
    assert_eq!(g.shape, vec![3, 0]);
    assert!(g.data.is_empty());
}

#[test]
fn planned_column_shards_gather_back() {
    let m = t((0..12).map(|v| v as f32).collect(), vec![3, 4]);
    let specs = plan_shards(4, 3, ShardStrategy::ColumnParallel).unwrap();
    let shards: Vec<_> = specs.iter().map(|s| shard_tensor(&m, s).unwrap()).collect();
    assert_eq!(gather_shards(&shards, ShardStrategy::ColumnParallel).unwrap(), m);
}
