//! Errors of the computation-graph layer, shared by the distributed-execution
//! primitives.

use vstd::prelude::*;

verus! {

/// Errors raised while building, partitioning or executing a computation graph.
#[derive(Debug, Clone, PartialEq, Eq)]
pub enum GraphError {
    /// A graph node referenced by id does not exist.
    NodeNotFound(String),
    /// The graph (or a placement over it) is malformed.
    InvalidGraph(String),
    /// Tensor shapes do not agree.
    ShapeMismatch(String),
    /// A required input tensor was not supplied.
    MissingInput(String),
    /// A step of the execution failed.
    ExecutionError(String),
}

} // verus!
