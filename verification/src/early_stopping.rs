//! Early stopping for training loops: the criterion a loop optimises, the
//! decision made after each epoch, and the patience bookkeeping behind it.
//!
//! After each epoch the monitor learns whether the metric improved on the
//! best so far (a comparison of metric values made by the caller). An
//! improvement resets the count of epochs without improvement; otherwise the
//! count grows. Once at least `min_epochs` epochs were seen and the count
//! reaches `patience`, training stops, and every later epoch is answered that
//! training already stopped.

use vstd::prelude::*;

verus! {

/// Criterion used to decide when to stop training.
#[derive(Debug, Clone, PartialEq, Eq)]
pub enum StopCriterion {
    /// Stop when loss stops decreasing.
    MinLoss,
    /// Stop when accuracy stops increasing.
    MaxAccuracy,
    /// Custom metric, lower is better.
    MinMetric(String),
    /// Custom metric, higher is better.
    MaxMetric(String),
}

/// Decision returned by the monitor after each epoch.
#[derive(Debug, Clone, PartialEq, Eq)]
pub enum StopDecision {
    /// Training should continue.
    Continue,
    /// Training should stop, with the given reason.
    Stop(String),
}

/// What the patience bookkeeping concludes after an epoch.
#[derive(Debug, Clone, Copy, PartialEq, Eq, Structural)]
pub enum EpochVerdict {
    /// The monitor had already stopped; the epoch was not counted.
    AlreadyStopped,
    /// Training should continue.
    Continue,
    /// Patience ran out at this epoch: training should stop.
    Stop,
}

/// The patience bookkeeping of an early-stopping monitor.
#[derive(Debug, Clone, Copy, PartialEq, Eq, Structural)]
pub struct PatienceTracker {
    /// Number of epochs without improvement before stopping.
    pub patience: usize,
    /// Do not stop before this many epochs have elapsed.
    pub min_epochs: usize,
    /// Total epochs observed.
    pub total_epochs: u64,
    /// Number of epochs that showed improvement.
    pub improvements: u64,
    /// Epoch at which the best value was observed.
    pub best_epoch: usize,
    /// Consecutive epochs without improvement.
    pub epochs_without_improvement: usize,
    /// Whether the monitor has triggered a stop.
    pub stopped: bool,
    /// Epoch at which training was stopped, if any.
    pub stopped_at: Option<usize>,
}

/// A tracker with nothing observed yet.
pub open spec fn fresh_tracker(patience: usize, min_epochs: usize) -> PatienceTracker {
    PatienceTracker {
        patience,
        min_epochs,
        total_epochs: 0,
        improvements: 0,
        best_epoch: 0,
        epochs_without_improvement: 0,
        stopped: false,
        stopped_at: None,
    }
}

/// The counters stay in range when epoch `improved` is observed.
pub open spec fn can_observe(t: PatienceTracker, improved: bool) -> bool {
    !t.stopped ==> {
        &&& t.total_epochs < u64::MAX
        &&& improved ==> t.improvements < u64::MAX
        &&& !improved ==> t.epochs_without_improvement < usize::MAX
    }
}

/// The tracker and verdict after observing `epoch`, which `improved` on the
/// best value or not.
pub open spec fn observed(t: PatienceTracker, epoch: usize, improved: bool) -> (PatienceTracker, EpochVerdict) {
    if t.stopped {
        (t, EpochVerdict::AlreadyStopped)
    } else {
        let counted = if improved {
            PatienceTracker {
                total_epochs: (t.total_epochs + 1) as u64,
                improvements: (t.improvements + 1) as u64,
                best_epoch: epoch,
                epochs_without_improvement: 0,
                ..t
            }
        } else {
            PatienceTracker {
                total_epochs: (t.total_epochs + 1) as u64,
                epochs_without_improvement: (t.epochs_without_improvement + 1) as usize,
                ..t
            }
        };
        if counted.total_epochs < counted.min_epochs {
            (counted, EpochVerdict::Continue)
        } else if counted.epochs_without_improvement >= counted.patience {
            (PatienceTracker { stopped: true, stopped_at: Some(epoch), ..counted }, EpochVerdict::Stop)
        } else {
            (counted, EpochVerdict::Continue)
        }
    }
}

impl PatienceTracker {
    /// A tracker with the given patience and minimum number of epochs.
    pub fn new(patience: usize, min_epochs: usize) -> (t: Self)
        ensures
            t == fresh_tracker(patience, min_epochs),
    {
        PatienceTracker {
            patience,
            min_epochs,
            total_epochs: 0,
            improvements: 0,
            best_epoch: 0,
            epochs_without_improvement: 0,
            stopped: false,
            stopped_at: None,
        }
    }

    /// Observe `epoch`, which `improved` on the best value or not.
    pub fn observe(&mut self, epoch: usize, improved: bool) -> (v: EpochVerdict)
        requires
            can_observe(*old(self), improved),
        ensures
            (*final(self), v) == observed(*old(self), epoch, improved),
    {
        if self.stopped {
            return EpochVerdict::AlreadyStopped;
        }
        self.total_epochs = self.total_epochs + 1;
        if improved {
            self.improvements = self.improvements + 1;
            self.best_epoch = epoch;
            self.epochs_without_improvement = 0;
        } else {
            self.epochs_without_improvement = self.epochs_without_improvement + 1;
        }
        if self.total_epochs < self.min_epochs as u64 {
            return EpochVerdict::Continue;
        }
        if self.epochs_without_improvement >= self.patience {
            self.stopped = true;
            self.stopped_at = Some(epoch);
            EpochVerdict::Stop
        } else {
            EpochVerdict::Continue
        }
    }

    /// How many more epochs of no-improvement are allowed before stopping.
    pub fn remaining_patience(&self) -> (r: usize)
        ensures
            r == if self.patience > self.epochs_without_improvement {
                self.patience - self.epochs_without_improvement
            } else {
                0
            },
    {
        if self.patience > self.epochs_without_improvement {
            self.patience - self.epochs_without_improvement
        } else {
            0
        }
    }

    /// Forget everything observed, keeping the configuration.
    pub fn reset(&mut self)
        ensures
            *final(self) == fresh_tracker(old(self).patience, old(self).min_epochs),
    {
        *self = PatienceTracker::new(self.patience, self.min_epochs);
    }
}

/// Training never stops before `min_epochs` epochs have been observed, and
/// a stop comes only once `patience` epochs passed without improvement.
pub proof fn law_stop_needs_min_epochs_and_patience(t: PatienceTracker, epoch: usize, improved: bool)
    requires
        can_observe(t, improved),
    ensures
        observed(t, epoch, improved).1 == EpochVerdict::Stop ==> {
            let t2 = observed(t, epoch, improved).0;
            &&& t2.total_epochs >= t2.min_epochs
            &&& t2.epochs_without_improvement >= t2.patience
            &&& !improved || t.patience == 0
            &&& t2.stopped && t2.stopped_at == Some(epoch)
        },
{
}

/// Once stopped, a tracker stays stopped: every later epoch is answered that
/// training already stopped, and nothing changes.
pub proof fn law_stopped_is_final(t: PatienceTracker, epoch: usize, improved: bool)
    requires
        t.stopped,
    ensures
        observed(t, epoch, improved) == (t, EpochVerdict::AlreadyStopped),
{
}

/// Observing an epoch on a running tracker counts it, and the count of
/// epochs without improvement follows the epoch alone: an improvement sets it
/// to 0 and records the epoch as the best, whatever `min_epochs` is; any other
/// epoch adds one. The verdict is `Stop` exactly when at least `min_epochs`
/// epochs have been seen and that count has reached `patience`, and
/// `Continue` otherwise.
pub proof fn law_observe_counts_since_last_improvement(t: PatienceTracker, epoch: usize, improved: bool)
    requires
        can_observe(t, improved),
        !t.stopped,
    ensures
        ({
            let (t2, v) = observed(t, epoch, improved);
            &&& t2.total_epochs == t.total_epochs + 1
            &&& t2.patience == t.patience && t2.min_epochs == t.min_epochs
            &&& improved ==> t2.epochs_without_improvement == 0 && t2.best_epoch == epoch
                && t2.improvements == t.improvements + 1
            &&& !improved ==> t2.epochs_without_improvement == t.epochs_without_improvement + 1
                && t2.best_epoch == t.best_epoch && t2.improvements == t.improvements
            &&& (v == EpochVerdict::Stop) == (t.total_epochs + 1 >= t.min_epochs
                && t2.epochs_without_improvement >= t.patience)
            &&& v != EpochVerdict::Stop ==> v == EpochVerdict::Continue && !t2.stopped
        }),
{
}

/// An improvement on a running tracker never stops training unless patience
/// is zero: after it the count of epochs without improvement is 0.
pub proof fn law_improvement_resets_patience(t: PatienceTracker, epoch: usize)
    requires
        can_observe(t, true),
        !t.stopped,
        t.patience > 0,
    ensures
        observed(t, epoch, true).0.epochs_without_improvement == 0,
        observed(t, epoch, true).1 == EpochVerdict::Continue,
{
}

} // verus!
