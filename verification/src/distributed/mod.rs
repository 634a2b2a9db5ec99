//! Distributed-execution primitives: communication schedules over partitions,
//! tensor sharding and collectives across peers, and the planning and driving
//! of pipelines of stages.

pub mod schedule;
pub mod sharding;
pub mod collectives;
pub mod planner;
pub mod transport;
