use ipfrs_tensorlogic::distributed::schedule::build_communication_schedule;
use ipfrs_tensorlogic::graph_partitioner::{GraphEdge, Partition};

fn part(id: usize, nodes: Vec<u64>) -> Partition {
    Partition {
        partition_id: id,
        node_ids: nodes,
        total_compute: 0,
        total_memory: 0,
    }
}

fn edge(from: u64, to: u64, bytes: u64) -> GraphEdge {
    GraphEdge {
        from,
        to,
        data_bytes: bytes,
    }
}

#[test]
fn no_cross_edges_yields_empty_schedule() {
    let parts = vec![part(0, vec![1, 2]), part(1, vec![3, 4])];
    let edges = vec![edge(1, 2, 100), edge(3, 4, 200)]; // both intra-partition
    let s = build_communication_schedule(&parts, &edges);
    assert_eq!(s.num_stages(), 0);
    assert_eq!(s.total_bytes, 0);
}

#[test]
fn single_cross_edge_one_stage() {
    let parts = vec![part(0, vec![1]), part(1, vec![2])];
    let edges = vec![edge(1, 2, 512)];
    let s = build_communication_schedule(&parts, &edges);
    assert_eq!(s.num_stages(), 1);
    assert_eq!(s.total_bytes, 512);
    let tr = &s.stages[0].transfers[0];
    assert_eq!(tr.from_partition, 0);
    assert_eq!(tr.to_partition, 1);
    assert_eq!(tr.node_id, 1);
}

#[test]
fn pipeline_three_partitions_three_stages() {
    // 0 → 1 → 2 chain: each cut edge schedules at its source's level.
    let parts = vec![part(0, vec![1]), part(1, vec![2]), part(2, vec![3])];
    let edges = vec![edge(1, 2, 10), edge(2, 3, 20)];
    let s = build_communication_schedule(&parts, &edges);
    assert_eq!(s.num_stages(), 2);
    // stage 0: transfer out of partition 0 (level 0)
    assert_eq!(s.stages[0].transfers[0].from_partition, 0);
    // stage 1: transfer out of partition 1 (level 1)
    assert_eq!(s.stages[1].transfers[0].from_partition, 1);
    assert_eq!(s.total_bytes, 30);
}

#[test]
fn fan_out_same_node_deduped() {
    // node 1 in part 0 feeds nodes 2 and 3, both in part 1 → one transfer.
    let parts = vec![part(0, vec![1]), part(1, vec![2, 3])];
    let edges = vec![edge(1, 2, 64), edge(1, 3, 64)];
    let s = build_communication_schedule(&parts, &edges);
    assert_eq!(s.num_transfers(), 1);
    assert_eq!(s.total_bytes, 64);
}

#[test]
fn parallel_transfers_share_a_stage() {
    // Two independent producers (parts 0 and 1) each feed part 2.
    let parts = vec![part(0, vec![1]), part(1, vec![2]), part(2, vec![3])];
    let edges = vec![edge(1, 3, 100), edge(2, 3, 200)];
    let s = build_communication_schedule(&parts, &edges);
    assert_eq!(s.num_stages(), 1);
    assert_eq!(s.stages[0].transfers.len(), 2);
    assert_eq!(s.total_bytes, 300);
}

#[test]
fn cycle_does_not_panic() {
    // Pathological 0 ↔ 1 cycle: must still produce a finite schedule.
    let parts = vec![part(0, vec![1]), part(1, vec![2])];
    let edges = vec![edge(1, 2, 10), edge(2, 1, 10)];
    let s = build_communication_schedule(&parts, &edges);
    assert_eq!(s.num_transfers(), 2);
    assert_eq!(s.total_bytes, 20);
}

#[test]
fn duplicate_edges_keep_largest_size() {
    let parts = vec![part(0, vec![1]), part(1, vec![2])];
    let edges = vec![edge(1, 2, 10), edge(1, 2, 70), edge(1, 2, 30)];
    let s = build_communication_schedule(&parts, &edges);
    assert_eq!(s.num_transfers(), 1);
    assert_eq!(s.stages[0].transfers[0].data_bytes, 70);
    assert_eq!(s.total_bytes, 70);
}

#[test]
fn dangling_edges_are_ignored() {
    let parts = vec![part(0, vec![1]), part(1, vec![2])];
    let edges = vec![edge(1, 9, 10), edge(8, 2, 20)];
    let s = build_communication_schedule(&parts, &edges);
    assert_eq!(s.num_stages(), 0);
    assert_eq!(s.total_bytes, 0);
}

#[test]
fn stages_are_numbered_and_sorted_within() {
    // Diamond: 0 -> 1, 0 -> 2, 1 -> 3, 2 -> 3.
    let parts = vec![part(0, vec![1]), part(1, vec![2]), part(2, vec![3]), part(3, vec![4])];
    let edges = vec![edge(3, 4, 5), edge(1, 3, 4), edge(2, 4, 6), edge(1, 2, 7)];
    let s = build_communication_schedule(&parts, &edges);
    assert_eq!(s.num_stages(), 2);
    assert_eq!(s.stages[0].stage_id, 0);
    assert_eq!(s.stages[1].stage_id, 1);
    let first: Vec<(usize, usize)> =
        s.stages[0].transfers.iter().map(|t| (t.from_partition, t.to_partition)).collect();
    assert_eq!(first, vec![(0, 1), (0, 2)]);
    let second: Vec<(usize, usize)> =
        s.stages[1].transfers.iter().map(|t| (t.from_partition, t.to_partition)).collect();
    assert_eq!(second, vec![(1, 3), (2, 3)]);
    assert_eq!(s.total_bytes, 22);
}

#[test]
fn cycle_partitions_go_past_every_level() {
    // 0 -> 1 and a cycle 1 <-> 2: partition 0 is at level 0, the cycle after it.
    let parts = vec![part(0, vec![1]), part(1, vec![2]), part(2, vec![3])];
    let edges = vec![edge(1, 2, 1), edge(2, 3, 2), edge(3, 2, 3)];
    let s = build_communication_schedule(&parts, &edges);
    assert_eq!(s.num_stages(), 2);
    assert_eq!(s.stages[0].transfers.len(), 1);
    assert_eq!(s.stages[0].transfers[0].from_partition, 0);
    let second: Vec<(usize, usize, u64)> = s.stages[1]
        .transfers
        .iter()
        .map(|t| (t.from_partition, t.to_partition, t.node_id))
        .collect();
    assert_eq!(second, vec![(1, 2, 2), (2, 1, 3)]);
}

#[test]
fn total_bytes_saturates() {
    let parts = vec![part(0, vec![1, 2]), part(1, vec![3])];
    let edges = vec![edge(1, 3, u64::MAX), edge(2, 3, 5)];
    let s = build_communication_schedule(&parts, &edges);
    assert_eq!(s.num_transfers(), 2);
    assert_eq!(s.total_bytes, u64::MAX);
}

#[test]
fn later_partition_listing_owns_node() {
    // Node 1 is listed by both partitions; the later one owns it.
    let parts = vec![part(0, vec![1]), part(1, vec![1, 2]), part(2, vec![3])];
    let edges = vec![edge(1, 3, 8)];
    let s = build_communication_schedule(&parts, &edges);
    assert_eq!(s.num_transfers(), 1);
    assert_eq!(s.stages[0].transfers[0].from_partition, 1);
}
