//! Gradient accumulation: how contributions are combined when an
//! accumulation window closes, the accumulator's statistics, and the
//! bookkeeping of the window.
//!
//! [`AccumulationWindow`] keeps, for every parameter, the length of its
//! gradient and the number of contributions it has received. A contribution
//! to a known parameter must have that length; the window is ready when every
//! parameter has received at least the configured number of contributions,
//! and closing it clears the parameters and counts one accumulation. The
//! current step is the largest contribution count of any parameter.

use crate::distributed_optimizer::{decimal, decimal_string};
use vstd::prelude::*;

verus! {

/// How accumulated gradients are combined when the accumulation window closes.
#[derive(Debug, Clone, Copy, PartialEq, Eq, Structural)]
pub enum AccumulationMode {
    /// Accumulate by summing — the result is the raw sum of all contributions.
    Sum,
    /// Accumulate by averaging — the sum divided by the number of steps.
    Mean,
}

/// Summary statistics of a gradient accumulator.
#[derive(Debug, Clone)]
pub struct AccumulatorStats {
    /// Number of parameter buffers currently tracked.
    pub buffer_count: usize,
    /// Current accumulation step (0-based within the current window).
    pub current_step: usize,
    /// Configured number of accumulation steps per window.
    pub accumulation_steps: usize,
    /// Total number of successful optimizer steps over the accumulator's lifetime.
    pub total_accumulations: u64,
    /// Total number of gradient vectors that were clipped.
    pub total_clips: u64,
}

/// The bookkeeping of one parameter's buffer.
#[derive(Debug, Clone)]
pub struct BufferTally {
    /// Name of the parameter.
    pub name: String,
    /// Length of its gradient.
    pub len: usize,
    /// Number of contributions since the window opened.
    pub steps: usize,
}

/// A tally as a plain value: the parameter's name, gradient length and
/// contribution count.
pub type Tally = (Seq<char>, nat, nat);

/// The plain value of a tally.
pub open spec fn tally_of(t: BufferTally) -> Tally {
    (t.name@, t.len as nat, t.steps as nat)
}

/// The position of the parameter `name` among the tallies, or -1.
pub open spec fn tally_index(ts: Seq<Tally>, name: Seq<char>) -> int
    decreases ts.len(),
{
    if ts.len() == 0 {
        -1
    } else if ts.last().0 == name {
        ts.len() - 1
    } else {
        tally_index(ts.drop_last(), name)
    }
}

/// No two tallies name the same parameter.
pub open spec fn names_distinct(ts: Seq<Tally>) -> bool {
    forall|i: int, j: int| 0 <= i < j < ts.len() ==> (#[trigger] ts[i]).0 != (#[trigger] ts[j]).0
}

/// The tallies after a contribution of length `len` to `name`: a new
/// parameter starts at one contribution; a known one gains a contribution
/// when the length matches, and otherwise the contribution is refused with
/// the parameter's length.
pub open spec fn registered(ts: Seq<Tally>, name: Seq<char>, len: nat) -> Result<Seq<Tally>, nat> {
    let i = tally_index(ts, name);
    if i < 0 {
        Ok(ts.push((name, len, 1)))
    } else if ts[i].1 != len {
        Err(ts[i].1)
    } else {
        Ok(ts.update(i, (name, len, ts[i].2 + 1)))
    }
}

/// The largest contribution count, 0 without tallies.
pub open spec fn max_steps(ts: Seq<Tally>) -> nat
    decreases ts.len(),
{
    if ts.len() == 0 {
        0
    } else {
        let m = max_steps(ts.drop_last());
        if ts.last().2 > m {
            ts.last().2
        } else {
            m
        }
    }
}

/// The window can close: there is a parameter, and every parameter has at
/// least `k` contributions.
pub open spec fn window_ready(ts: Seq<Tally>, k: nat) -> bool {
    ts.len() > 0 && forall|i: int| 0 <= i < ts.len() ==> (#[trigger] ts[i]).2 >= k
}

/// The message refusing a contribution of length `got` to `name`, whose
/// gradient has length `expected`.
pub open spec fn mismatch_message(name: Seq<char>, expected: nat, got: nat) -> Seq<char> {
    "gradient size mismatch for '"@ + name + "': expected "@ + decimal(expected) + ", got "@ + decimal(
        got,
    )
}

/// The message refusing to close a window that is not ready.
pub open spec fn not_ready_message() -> Seq<char> {
    "accumulator is not ready: not all buffers have enough steps"@
}

/// The bookkeeping of a gradient accumulator: per-parameter tallies, the
/// current step and the lifetime counters.
pub struct AccumulationWindow {
    accumulation_steps: usize,
    tallies: Vec<BufferTally>,
    current_step: usize,
    total_accumulations: u64,
    total_clips: u64,
}

impl AccumulationWindow {
    /// The tallies as plain values, in the order the parameters arrived.
    pub closed spec fn tallies_view(&self) -> Seq<Tally> {
        self.tallies@.map_values(|t: BufferTally| tally_of(t))
    }

    /// The configured number of contributions per window.
    pub closed spec fn steps_view(&self) -> nat {
        self.accumulation_steps as nat
    }

    /// The current step.
    pub closed spec fn current_view(&self) -> nat {
        self.current_step as nat
    }

    /// The number of windows closed so far.
    pub closed spec fn accumulations_view(&self) -> nat {
        self.total_accumulations as nat
    }

    /// The number of clipped gradients so far.
    pub closed spec fn clips_view(&self) -> nat {
        self.total_clips as nat
    }

    /// The parameters are distinct and the current step is the largest
    /// contribution count.
    pub closed spec fn wf(&self) -> bool {
        &&& names_distinct(self.tallies_view())
        &&& self.current_step as nat == max_steps(self.tallies_view())
    }

    /// An empty window of `accumulation_steps` contributions per parameter.
    pub fn new(accumulation_steps: usize) -> (w: Self)
        ensures
            w.wf(),
            w.tallies_view() == Seq::<Tally>::empty(),
            w.steps_view() == accumulation_steps,
            w.current_view() == 0,
            w.accumulations_view() == 0,
            w.clips_view() == 0,
    {
        let w = AccumulationWindow {
            accumulation_steps,
            tallies: Vec::new(),
            current_step: 0,
            total_accumulations: 0,
            total_clips: 0,
        };
        assert(w.tallies_view() =~= Seq::<Tally>::empty());
        w
    }

    fn find(&self, name: &String) -> (r: Option<usize>)
        ensures
            match r {
                Some(i) => i < self.tallies@.len() && i as int == tally_index(self.tallies_view(), name@),
                None => tally_index(self.tallies_view(), name@) < 0,
            },
    {
        let ghost ts = self.tallies_view();
        let mut i = self.tallies.len();
        assert(ts.take(i as int) =~= ts);
        while i > 0
            invariant
                i <= self.tallies@.len(),
                ts == self.tallies_view(),
                tally_index(ts, name@) == tally_index(ts.take(i as int), name@),
            decreases i,
        {
            i -= 1;
            assert(ts.take(i + 1).drop_last() =~= ts.take(i as int));
            assert(ts.take(i + 1).last() == ts[i as int]);
            if self.tallies[i].name == *name {
                return Some(i);
            }
        }
        None
    }

    /// The contribution count of parameter `name`, if it has a buffer.
    pub fn steps_of(&self, name: &str) -> (r: Option<usize>)
        ensures
            match r {
                Some(n) => tally_index(self.tallies_view(), name@) >= 0 && n == self.tallies_view()[tally_index(
                    self.tallies_view(),
                    name@,
                )].2,
                None => tally_index(self.tallies_view(), name@) < 0,
            },
    {
        let key = name.to_owned();
        match self.find(&key) {
            Some(i) => Some(self.tallies[i].steps),
            None => None,
        }
    }

    fn recompute_current(&mut self)
        requires
            names_distinct(old(self).tallies_view()),
        ensures
            final(self).wf(),
            final(self).tallies_view() == old(self).tallies_view(),
            final(self).steps_view() == old(self).steps_view(),
            final(self).accumulations_view() == old(self).accumulations_view(),
            final(self).clips_view() == old(self).clips_view(),
    {
        let ghost ts = self.tallies_view();
        let mut m: usize = 0;
        let mut k: usize = 0;
        while k < self.tallies.len()
            invariant
                k <= self.tallies@.len(),
                ts == self.tallies_view(),
                m as nat == max_steps(ts.take(k as int)),
            decreases self.tallies@.len() - k,
        {
            assert(ts.take(k + 1).drop_last() =~= ts.take(k as int));
            assert(ts.take(k + 1).last() == ts[k as int]);
            if self.tallies[k].steps > m {
                m = self.tallies[k].steps;
            }
            k += 1;
        }
        assert(ts.take(k as int) =~= ts);
        self.current_step = m;
    }

    /// Record a contribution of length `len` to parameter `name`: a new
    /// parameter gets a buffer with one contribution; a known one gains a
    /// contribution when `len` is its gradient length, and otherwise the
    /// contribution is refused and nothing changes. The current step becomes
    /// the largest contribution count.
    pub fn register(&mut self, name: &str, len: usize) -> (r: Result<(), String>)
        requires
            old(self).wf(),
            tally_index(old(self).tallies_view(), name@) >= 0 ==> old(self).tallies_view()[tally_index(
                old(self).tallies_view(),
                name@,
            )].2 < usize::MAX,
        ensures
            final(self).wf(),
            final(self).steps_view() == old(self).steps_view(),
            final(self).accumulations_view() == old(self).accumulations_view(),
            final(self).clips_view() == old(self).clips_view(),
            match registered(old(self).tallies_view(), name@, len as nat) {
                Ok(ts) => r is Ok && final(self).tallies_view() == ts,
                Err(expected) => {
                    &&& r matches Err(m) && m@ == mismatch_message(name@, expected, len as nat)
                    &&& final(self).tallies_view() == old(self).tallies_view()
                    &&& final(self).current_view() == old(self).current_view()
                },
            },
    {
        let ghost ts = self.tallies_view();
        let key = name.to_owned();
        match self.find(&key) {
            Some(i) => {
                let have = self.tallies[i].len;
                if have != len {
                    let mut m = "gradient size mismatch for '".to_owned();
                    m.append(name);
                    m.append("': expected ");
                    let a = decimal_string(have as u64);
                    m.append(a.as_str());
                    m.append(", got ");
                    let b = decimal_string(len as u64);
                    m.append(b.as_str());
                    proof {
                        reveal_strlit("gradient size mismatch for '");
                        reveal_strlit("': expected ");
                        reveal_strlit(", got ");
                    }
                    return Err(m);
                }
                let steps = self.tallies[i].steps + 1;
                let t = BufferTally { name: key, len, steps };
                self.tallies.set(i, t);
                proof {
                    assert(self.tallies_view() =~= ts.update(i as int, (name@, len as nat, ts[i as int].2 + 1)));
                    lemma_index_name(ts, name@);
                    assert forall|a: int, b: int| 0 <= a < b < self.tallies_view().len() implies (
                    #[trigger] self.tallies_view()[a]).0 != (#[trigger] self.tallies_view()[b]).0 by {
                        assert(ts[a].0 != ts[b].0);
                    }
                }
            },
            None => {
                let t = BufferTally { name: key, len, steps: 1 };
                self.tallies.push(t);
                proof {
                    assert(self.tallies_view() =~= ts.push((name@, len as nat, 1)));
                    lemma_absent_name(ts, name@);
                    assert forall|a: int, b: int| 0 <= a < b < self.tallies_view().len() implies (
                    #[trigger] self.tallies_view()[a]).0 != (#[trigger] self.tallies_view()[b]).0 by {
                        if b < ts.len() {
                            assert(ts[a].0 != ts[b].0);
                        }
                    }
                }
            },
        }
        self.recompute_current();
        Ok(())
    }

    /// Whether the window can close: some parameter has a buffer and every
    /// parameter has at least the configured number of contributions.
    pub fn is_ready(&self) -> (b: bool)
        ensures
            b == window_ready(self.tallies_view(), self.steps_view()),
    {
        if self.tallies.len() == 0 {
            return false;
        }
        let mut k: usize = 0;
        while k < self.tallies.len()
            invariant
                k <= self.tallies@.len(),
                forall|j: int| 0 <= j < k ==> (#[trigger] self.tallies_view()[j]).2 >= self.steps_view(),
            decreases self.tallies@.len() - k,
        {
            assert(self.tallies_view()[k as int] == tally_of(self.tallies@[k as int]));
            if self.tallies[k].steps < self.accumulation_steps {
                return false;
            }
            k += 1;
        }
        true
    }

    /// Close the window: when it is ready, hand back the tallies, clear them,
    /// reset the current step and count one accumulation; otherwise refuse
    /// and change nothing.
    pub fn close(&mut self) -> (r: Result<Vec<BufferTally>, String>)
        requires
            old(self).wf(),
            old(self).accumulations_view() < u64::MAX,
        ensures
            final(self).wf(),
            final(self).steps_view() == old(self).steps_view(),
            final(self).clips_view() == old(self).clips_view(),
            window_ready(old(self).tallies_view(), old(self).steps_view()) ==> {
                &&& r matches Ok(v) && v@.map_values(|t: BufferTally| tally_of(t)) == old(self).tallies_view()
                &&& final(self).tallies_view() == Seq::<Tally>::empty()
                &&& final(self).current_view() == 0
                &&& final(self).accumulations_view() == old(self).accumulations_view() + 1
            },
            !window_ready(old(self).tallies_view(), old(self).steps_view()) ==> {
                &&& r matches Err(m) && m@ == not_ready_message()
                &&& *final(self) == *old(self)
            },
    {
        if !self.is_ready() {
            return Err("accumulator is not ready: not all buffers have enough steps".to_owned());
        }
        let mut taken: Vec<BufferTally> = Vec::new();
        std::mem::swap(&mut taken, &mut self.tallies);
        self.current_step = 0;
        self.total_accumulations = self.total_accumulations + 1;
        proof {
            assert(self.tallies_view() =~= Seq::<Tally>::empty());
        }
        Ok(taken)
    }

    /// Count one clipped gradient.
    pub fn note_clip(&mut self)
        requires
            old(self).clips_view() < u64::MAX,
        ensures
            final(self).clips_view() == old(self).clips_view() + 1,
            final(self).tallies_view() == old(self).tallies_view(),
            final(self).current_view() == old(self).current_view(),
            final(self).steps_view() == old(self).steps_view(),
            final(self).accumulations_view() == old(self).accumulations_view(),
            old(self).wf() ==> final(self).wf(),
    {
        self.total_clips = self.total_clips + 1;
    }

    /// Clear every buffer and the current step; the lifetime counters stay.
    pub fn reset(&mut self)
        ensures
            final(self).wf(),
            final(self).tallies_view() == Seq::<Tally>::empty(),
            final(self).current_view() == 0,
            final(self).steps_view() == old(self).steps_view(),
            final(self).accumulations_view() == old(self).accumulations_view(),
            final(self).clips_view() == old(self).clips_view(),
    {
        self.tallies = Vec::new();
        self.current_step = 0;
        proof {
            assert(self.tallies_view() =~= Seq::<Tally>::empty());
        }
    }

    /// Number of parameters with a buffer.
    pub fn buffer_count(&self) -> (n: usize)
        ensures
            n == self.tallies_view().len(),
    {
        self.tallies.len()
    }

    /// The current step: the largest contribution count of any parameter.
    pub fn current_step(&self) -> (n: usize)
        ensures
            n == self.current_view(),
    {
        self.current_step
    }

    /// The number of windows closed so far.
    pub fn total_accumulations(&self) -> (n: u64)
        ensures
            n == self.accumulations_view(),
    {
        self.total_accumulations
    }

    /// The number of clipped gradients so far.
    pub fn total_clips(&self) -> (n: u64)
        ensures
            n == self.clips_view(),
    {
        self.total_clips
    }

    /// A snapshot of the statistics.
    pub fn stats(&self) -> (s: AccumulatorStats)
        ensures
            s.buffer_count == self.tallies_view().len(),
            s.current_step == self.current_view(),
            s.accumulation_steps == self.steps_view(),
            s.total_accumulations == self.accumulations_view(),
            s.total_clips == self.clips_view(),
    {
        AccumulatorStats {
            buffer_count: self.tallies.len(),
            current_step: self.current_step,
            accumulation_steps: self.accumulation_steps,
            total_accumulations: self.total_accumulations,
            total_clips: self.total_clips,
        }
    }
}

proof fn lemma_index_name(ts: Seq<Tally>, name: Seq<char>)
    ensures
        -1 <= tally_index(ts, name) < ts.len(),
        tally_index(ts, name) >= 0 ==> ts[tally_index(ts, name)].0 == name,
    decreases ts.len(),
{
    if ts.len() > 0 && ts.last().0 != name {
        lemma_index_name(ts.drop_last(), name);
        let i = tally_index(ts.drop_last(), name);
        if i >= 0 {
            assert(ts.drop_last()[i] == ts[i]);
        }
    }
}

proof fn lemma_absent_name(ts: Seq<Tally>, name: Seq<char>)
    requires
        tally_index(ts, name) < 0,
    ensures
        forall|i: int| 0 <= i < ts.len() ==> (#[trigger] ts[i]).0 != name,
    decreases ts.len(),
{
    if ts.len() > 0 {
        lemma_absent_name(ts.drop_last(), name);
        assert forall|i: int| 0 <= i < ts.len() implies (#[trigger] ts[i]).0 != name by {
            if i < ts.len() - 1 {
                assert(ts.drop_last()[i] == ts[i]);
            }
        }
    }
}

} // verus!
