//! Ensemble learning: the pseudo-random draws that bootstrap sampling rests
//! on, and the method and error vocabulary of the learner.
//!
//! Draws come from the xorshift64 generator: `xorshift_usize` reduces one
//! step of it modulo the range, and `bootstrap_indices` makes `n` such draws.

pub use crate::differential_privacy::{xorshift64, xorshift64_step};
use vstd::prelude::*;

verus! {

/// The generator state after `k` steps from `s`.
pub open spec fn xorshift64_iter(s: u64, k: nat) -> u64
    decreases k,
{
    if k == 0 {
        s
    } else {
        xorshift64_step(xorshift64_iter(s, (k - 1) as nat))
    }
}

/// Draw an index in `[0, n)`: one generator step, reduced modulo `n`.
pub fn xorshift_usize(state: &mut u64, n: usize) -> (r: usize)
    requires
        n > 0,
    ensures
        *final(state) == xorshift64_step(*old(state)),
        r == (xorshift64_step(*old(state)) as usize) % n,
        r < n,
{
    let x = xorshift64(state);
    (x as usize) % n
}

/// Bootstrap sample of `n` indices from `[0, pool_size)` with replacement:
/// draw `i` is the generator's `i + 1`-th state reduced modulo `pool_size`.
pub fn bootstrap_indices(rng: &mut u64, pool_size: usize, n: usize) -> (v: Vec<usize>)
    requires
        n == 0 || pool_size > 0,
    ensures
        v@.len() == n,
        forall|i: int| 0 <= i < n ==> #[trigger] v@[i] < pool_size,
        forall|i: int|
            0 <= i < n ==> #[trigger] v@[i] == (xorshift64_iter(*old(rng), (i + 1) as nat) as usize)
                % pool_size,
        *final(rng) == xorshift64_iter(*old(rng), n as nat),
{
    let ghost s0 = *rng;
    let mut v: Vec<usize> = Vec::new();
    let mut i: usize = 0;
    while i < n
        invariant
            i <= n,
            n == 0 || pool_size > 0,
            v@.len() == i,
            *rng == xorshift64_iter(s0, i as nat),
            forall|k: int| 0 <= k < i ==> #[trigger] v@[k] < pool_size,
            forall|k: int|
                0 <= k < i ==> #[trigger] v@[k] == (xorshift64_iter(s0, (k + 1) as nat) as usize)
                    % pool_size,
        decreases n - i,
    {
        let d = xorshift_usize(rng, pool_size);
        v.push(d);
        i += 1;
    }
    v
}

/// Ensemble method used by the learner.
#[derive(Debug, Clone, Copy, PartialEq, Eq, Structural)]
pub enum ElMethod {
    /// Independent bootstrap-aggregated base learners; majority/average vote.
    Bagging,
    /// Adaptive Boosting (AdaBoost.M1) with stump base learners.
    AdaBoost,
    /// Gradient Boosting with residual-fitting stumps and shrinkage.
    GradientBoosting,
    /// Bagging + random feature sub-sampling (Random Forest).
    RandomForest,
    /// Train diverse base models then a linear meta-learner (Stacking).
    Stacking,
}

/// The display name of a method.
pub open spec fn method_name(m: ElMethod) -> Seq<char> {
    match m {
        ElMethod::Bagging => "Bagging"@,
        ElMethod::AdaBoost => "AdaBoost"@,
        ElMethod::GradientBoosting => "GradientBoosting"@,
        ElMethod::RandomForest => "RandomForest"@,
        ElMethod::Stacking => "Stacking"@,
    }
}

impl ElMethod {
    /// The method's name, as it is displayed.
    pub fn to_string(&self) -> (s: String)
        ensures
            s@ == method_name(*self),
    {
        match self {
            ElMethod::Bagging => "Bagging".to_owned(),
            ElMethod::AdaBoost => "AdaBoost".to_owned(),
            ElMethod::GradientBoosting => "GradientBoosting".to_owned(),
            ElMethod::RandomForest => "RandomForest".to_owned(),
            ElMethod::Stacking => "Stacking".to_owned(),
        }
    }
}

impl Default for ElMethod {
    fn default() -> (m: Self)
        ensures
            m == ElMethod::Bagging,
    {
        ElMethod::Bagging
    }
}

/// Errors raised by the ensemble learner.
#[derive(Debug, Clone, PartialEq)]
pub enum ElError {
    /// Training set is empty.
    EmptyTrainingSet,
    /// Prediction requested but no models have been trained.
    NoTrainedModels,
    /// Feature dimensionality mismatch.
    FeatureDimensionMismatch { expected: usize, got: usize },
    /// Configuration is invalid.
    InvalidConfig(String),
    /// Arithmetic error (e.g. NaN, division by zero).
    Arithmetic(String),
    /// The chosen method does not support the requested operation.
    UnsupportedOperation { op: String, method: String },
}

} // verus!
