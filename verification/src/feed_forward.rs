//! Feed-forward network vocabulary: the activation applied between the two
//! projections, and the network's running counters.

use vstd::prelude::*;

verus! {

/// Activation function applied between the two linear projections.
#[derive(Debug, Clone, Copy, PartialEq, Eq, Structural)]
pub enum FeedForwardActivation {
    /// Rectified Linear Unit: max(0, x).
    ReLU,
    /// Gaussian Error Linear Unit (tanh approximation).
    GELU,
    /// Sigmoid Linear Unit / Swish: x · σ(x).
    SiLU,
    /// No activation — passes the pre-activation values through unchanged.
    Linear,
}

/// Counters accumulated across forward passes.
#[derive(Debug, Clone)]
pub struct FFStats {
    /// Total number of times `forward` or `forward_batch` has been invoked.
    pub total_forward_calls: u64,
    /// Cumulative number of individual tokens (vectors) that have passed
    /// through the network.
    pub total_tokens_processed: u64,
}

impl Default for FFStats {
    fn default() -> (s: Self)
        ensures
            s.total_forward_calls == 0,
            s.total_tokens_processed == 0,
    {
        FFStats { total_forward_calls: 0, total_tokens_processed: 0 }
    }
}

} // verus!
