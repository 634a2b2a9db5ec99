//! The partitioner's output vocabulary: partitions of graph nodes and the
//! weighted edges between nodes.

use vstd::prelude::*;

verus! {

/// A set of graph nodes assigned to one execution unit.
#[derive(Debug, Clone, PartialEq, Eq)]
pub struct Partition {
    /// Identifier of the partition.
    pub partition_id: usize,
    /// Nodes owned by the partition.
    pub node_ids: Vec<u64>,
    /// Estimated compute cost of the partition's nodes.
    pub total_compute: u64,
    /// Estimated memory footprint of the partition's nodes.
    pub total_memory: u64,
}

/// A data dependency between two graph nodes.
#[derive(Debug, Clone, Copy, PartialEq, Eq)]
pub struct GraphEdge {
    /// Producing node.
    pub from: u64,
    /// Consuming node.
    pub to: u64,
    /// Size of the activation carried by the edge, in bytes.
    pub data_bytes: u64,
}

} // verus!
