//! Tensor logic for distributed inference and training: distributed execution
//! (communication schedules, sharding, collectives, pipeline planning and
//! driving), gradient aggregation and accumulation, early stopping, epistemic
//! and fuzzy logic, event bus, execution tracing, flow control, FFI profiling
//! and GPU resource bookkeeping.

use vstd::prelude::*;

pub mod computation_graph;
pub mod differential_privacy;
pub mod distributed;
pub mod distributed_backward_chainer;
pub mod distributed_optimizer;
pub mod ensemble_learner;
pub mod early_stopping;
pub mod epistemic_logic;
pub mod event_bus_v2;
pub mod execution_tracer;
pub mod feature_extractor;
pub mod feed_forward;
pub mod ffi_profiler;
pub mod flow_controller;
pub mod fuzzy_logic;
pub mod fuzzy_logic_engine;
pub mod gpu;
pub mod grad_accumulator;
pub mod graph_partitioner;
pub mod numeric_exec;

verus! {

} // verus!
