//! FFI overhead profiling: per-function call statistics, hotspots, reports and
//! overhead summaries, for identifying bottlenecks at cross-language
//! boundaries.
//!
//! Durations are counted in whole nanoseconds, up to `MAX_DURATION_NANOS`,
//! the longest `std::time::Duration`. A duration divided by a count rounds
//! down to the nanosecond; a duration in microseconds is its whole number of
//! microseconds.
//!
//! The profiler keeps one entry per function name, in order of first record;
//! while disabled it records nothing.

use vstd::prelude::*;

verus! {

broadcast use {vstd::seq_lib::group_to_multiset_ensures, vstd::multiset::group_multiset_axioms};

/// The longest duration, in nanoseconds: `u64::MAX` seconds and 999 999 999
/// nanoseconds.
pub const MAX_DURATION_NANOS: u128 = 18_446_744_073_709_551_615_999_999_999u128;

/// FFI call statistics
#[derive(Debug)]
pub struct FfiCallStats {
    /// Function name
    pub name: String,
    /// Total number of calls
    pub call_count: u64,
    /// Total time spent in calls (ns)
    pub total_duration: u128,
    /// Minimum call duration (ns)
    pub min_duration: u128,
    /// Maximum call duration (ns)
    pub max_duration: u128,
    /// Average call duration (ns)
    pub avg_duration: u128,
}

impl Clone for FfiCallStats {
    fn clone(&self) -> (r: Self)
        ensures
            r == *self,
    {
        FfiCallStats {
            name: self.name.clone(),
            call_count: self.call_count,
            total_duration: self.total_duration,
            min_duration: self.min_duration,
            max_duration: self.max_duration,
            avg_duration: self.avg_duration,
        }
    }
}

/// Fresh statistics for `name`: no calls yet, the minimum at its largest.
pub open spec fn fresh_stats(name: String) -> FfiCallStats {
    FfiCallStats {
        name,
        call_count: 0,
        total_duration: 0,
        min_duration: MAX_DURATION_NANOS,
        max_duration: 0,
        avg_duration: 0,
    }
}

/// A call of `d` nanoseconds can be added to `s` without overflow: the count
/// and the total stay in range, and the count taken as `u32` (as the average
/// divides by it) is not zero.
pub open spec fn can_record(s: FfiCallStats, d: u128) -> bool {
    &&& d <= MAX_DURATION_NANOS
    &&& s.call_count < u64::MAX
    &&& s.total_duration + d <= MAX_DURATION_NANOS
    &&& ((s.call_count + 1) as u32) != 0
}

/// `s` after one more call of `d` nanoseconds.
pub open spec fn recorded(s: FfiCallStats, d: u128) -> FfiCallStats {
    let count = (s.call_count + 1) as u64;
    let total = (s.total_duration + d) as u128;
    FfiCallStats {
        name: s.name,
        call_count: count,
        total_duration: total,
        min_duration: if d < s.min_duration {
            d
        } else {
            s.min_duration
        },
        max_duration: if d > s.max_duration {
            d
        } else {
            s.max_duration
        },
        avg_duration: total / ((count as u32) as u128),
    }
}

/// The average of `s` exceeds `target_micros` whole microseconds.
pub open spec fn exceeds(s: FfiCallStats, target_micros: u64) -> bool {
    s.avg_duration / 1000 > target_micros
}

impl FfiCallStats {
    /// Fresh statistics for `name`.
    pub fn new(name: String) -> (s: Self)
        ensures
            s == fresh_stats(name),
    {
        FfiCallStats {
            name,
            call_count: 0,
            total_duration: 0,
            min_duration: MAX_DURATION_NANOS,
            max_duration: 0,
            avg_duration: 0,
        }
    }

    /// Record one call of `duration` nanoseconds.
    pub fn record(&mut self, duration: u128)
        requires
            can_record(*old(self), duration),
        ensures
            *final(self) == recorded(*old(self), duration),
    {
        self.call_count = self.call_count + 1;
        self.total_duration = self.total_duration + duration;
        if duration < self.min_duration {
            self.min_duration = duration;
        }
        if duration > self.max_duration {
            self.max_duration = duration;
        }
        let divisor = (self.call_count as u32) as u128;
        self.avg_duration = self.total_duration / divisor;
    }

    /// Check if call overhead exceeds target
    pub fn exceeds_target(&self, target_micros: u64) -> (b: bool)
        ensures
            b == exceeds(*self, target_micros),
    {
        self.avg_duration / 1000 > target_micros as u128
    }
}

// ─── Reports ──────────────────────────────────────────────────────────────────

/// Profiling report
#[derive(Debug, Clone)]
pub struct ProfilingReport {
    /// Total number of FFI calls
    pub total_calls: u64,
    /// Total time spent in FFI calls (ns)
    pub total_duration: u128,
    /// Per-function statistics
    pub function_stats: Vec<FfiCallStats>,
}

/// Overhead summary
#[derive(Debug, Clone, Copy, PartialEq, Eq)]
pub struct OverheadSummary {
    pub total_calls: u64,
    pub total_duration: u128,
    pub avg_call_duration: u128,
    pub max_call_duration: u128,
    pub functions_profiled: usize,
}

/// The total number of calls over `s`.
pub open spec fn sum_calls(s: Seq<FfiCallStats>) -> nat
    decreases s.len(),
{
    if s.len() == 0 {
        0
    } else {
        sum_calls(s.drop_last()) + s.last().call_count as nat
    }
}

/// The total time over `s`.
pub open spec fn sum_total(s: Seq<FfiCallStats>) -> nat
    decreases s.len(),
{
    if s.len() == 0 {
        0
    } else {
        sum_total(s.drop_last()) + s.last().total_duration as nat
    }
}

/// The longest single call over `s`, or zero.
pub open spec fn longest(s: Seq<FfiCallStats>) -> u128
    decreases s.len(),
{
    if s.len() == 0 {
        0
    } else if s.last().max_duration > longest(s.drop_last()) {
        s.last().max_duration
    } else {
        longest(s.drop_last())
    }
}

/// The names of the functions of `s` whose average exceeds `target_micros`,
/// in order.
pub open spec fn bottleneck_names(s: Seq<FfiCallStats>, target_micros: u64) -> Seq<Seq<char>>
    decreases s.len(),
{
    if s.len() == 0 {
        seq![]
    } else if exceeds(s.last(), target_micros) {
        bottleneck_names(s.drop_last(), target_micros).push(s.last().name@)
    } else {
        bottleneck_names(s.drop_last(), target_micros)
    }
}

/// The views of a list of strings.
pub open spec fn string_views(v: Seq<String>) -> Seq<Seq<char>> {
    v.map_values(|s: String| s@)
}

impl ProfilingReport {
    /// Identify functions exceeding target overhead
    pub fn identify_bottlenecks(&self, target_micros: u64) -> (names: Vec<String>)
        ensures
            string_views(names@) == bottleneck_names(self.function_stats@, target_micros),
    {
        let mut names: Vec<String> = Vec::new();
        let mut k: usize = 0;
        while k < self.function_stats.len()
            invariant
                k <= self.function_stats@.len(),
                string_views(names@) == bottleneck_names(self.function_stats@.take(k as int), target_micros),
            decreases self.function_stats@.len() - k,
        {
            proof {
                assert(self.function_stats@.take(k + 1).drop_last() =~= self.function_stats@.take(k as int));
            }
            if self.function_stats[k].exceeds_target(target_micros) {
                let ghost before = string_views(names@);
                names.push(self.function_stats[k].name.clone());
                proof {
                    assert(string_views(names@) =~= before.push(self.function_stats@[k as int].name@));
                }
            }
            k += 1;
        }
        proof {
            assert(self.function_stats@.take(self.function_stats@.len() as int) =~= self.function_stats@);
        }
        names
    }

    /// Get overhead summary: the total duration divided by the call count
    /// taken as a `u32` (the low 32 bits of the count, since a duration is
    /// divided by a `u32`; zero without calls), and the longest single call.
    pub fn summary(&self) -> (s: OverheadSummary)
        requires
            self.total_calls == 0 || (self.total_calls as u32) != 0,
        ensures
            s == (OverheadSummary {
                total_calls: self.total_calls,
                total_duration: self.total_duration,
                avg_call_duration: if self.total_calls > 0 {
                    self.total_duration / ((self.total_calls as u32) as u128)
                } else {
                    0
                },
                max_call_duration: longest(self.function_stats@),
                functions_profiled: self.function_stats@.len() as usize,
            }),
    {
        let avg_call_duration = if self.total_calls > 0 {
            let divisor = (self.total_calls as u32) as u128;
            self.total_duration / divisor
        } else {
            0
        };
        let mut max_duration: u128 = 0;
        let mut k: usize = 0;
        while k < self.function_stats.len()
            invariant
                k <= self.function_stats@.len(),
                max_duration == longest(self.function_stats@.take(k as int)),
            decreases self.function_stats@.len() - k,
        {
            proof {
                assert(self.function_stats@.take(k + 1).drop_last() =~= self.function_stats@.take(k as int));
            }
            if self.function_stats[k].max_duration > max_duration {
                max_duration = self.function_stats[k].max_duration;
            }
            k += 1;
        }
        proof {
            assert(self.function_stats@.take(self.function_stats@.len() as int) =~= self.function_stats@);
        }
        OverheadSummary {
            total_calls: self.total_calls,
            total_duration: self.total_duration,
            avg_call_duration,
            max_call_duration: max_duration,
            functions_profiled: self.function_stats.len(),
        }
    }
}

impl OverheadSummary {
    /// Check if average overhead meets target
    pub fn meets_target(&self, target_micros: u64) -> (b: bool)
        ensures
            b == (self.avg_call_duration / 1000 <= target_micros),
    {
        self.avg_call_duration / 1000 <= target_micros as u128
    }
}

// ─── The profiler ─────────────────────────────────────────────────────────────

/// No two entries of `s` have the same name.
pub open spec fn names_distinct(s: Seq<FfiCallStats>) -> bool {
    forall|a: int, b: int| 0 <= a < b < s.len() ==> s[a].name@ != s[b].name@
}

/// Entry `k` of `s` is the one for `name`.
pub open spec fn entry_for(s: Seq<FfiCallStats>, name: Seq<char>, k: int) -> bool {
    0 <= k < s.len() && s[k].name@ == name
}

/// `s` has an entry for `name`.
pub open spec fn has_entry(s: Seq<FfiCallStats>, name: Seq<char>) -> bool {
    exists|k: int| entry_for(s, name, k)
}

/// A call of `d` nanoseconds to `name` can be recorded into `s`.
pub open spec fn can_record_into(s: Seq<FfiCallStats>, name: Seq<char>, d: u128) -> bool {
    &&& d <= MAX_DURATION_NANOS
    &&& forall|k: int| entry_for(s, name, k) ==> can_record(#[trigger] s[k], d)
}

/// `s` is in descending order of average duration.
pub open spec fn by_avg_desc(s: Seq<FfiCallStats>) -> bool {
    forall|a: int, b: int| 0 <= a < b < s.len() ==> s[a].avg_duration >= s[b].avg_duration
}

/// FFI profiler for measuring call overhead: the per-function statistics and
/// whether recording is enabled.
pub struct FfiProfiler {
    stats: Vec<FfiCallStats>,
    enabled: bool,
}

impl FfiProfiler {
    #[verifier::type_invariant]
    spec fn distinct_names(&self) -> bool {
        names_distinct(self.stats@)
    }

    /// The statistics, one entry per function, in order of first record.
    pub closed spec fn stats_view(&self) -> Seq<FfiCallStats> {
        self.stats@
    }

    /// Whether recording is enabled.
    pub closed spec fn enabled_view(&self) -> bool {
        self.enabled
    }

    /// Create a new FFI profiler: no statistics, enabled.
    pub fn new() -> (p: Self)
        ensures
            p.stats_view().len() == 0,
            p.enabled_view(),
    {
        FfiProfiler { stats: Vec::new(), enabled: true }
    }

    /// Enable profiling
    pub fn enable(&mut self)
        ensures
            final(self).enabled_view(),
            final(self).stats_view() == old(self).stats_view(),
    {
        proof {
            use_type_invariant(&*self);
        }
        self.enabled = true;
    }

    /// Disable profiling
    pub fn disable(&mut self)
        ensures
            !final(self).enabled_view(),
            final(self).stats_view() == old(self).stats_view(),
    {
        proof {
            use_type_invariant(&*self);
        }
        self.enabled = false;
    }

    /// Check if profiling is enabled
    pub fn is_enabled(&self) -> (b: bool)
        ensures
            b == self.enabled_view(),
    {
        self.enabled
    }

    /// The position of the entry for `name`, if any.
    fn position(&self, name: &String) -> (r: Option<usize>)
        ensures
            match r {
                Some(k) => entry_for(self.stats@, name@, k as int),
                None => !has_entry(self.stats@, name@),
            },
    {
        let mut k: usize = 0;
        while k < self.stats.len()
            invariant
                k <= self.stats@.len(),
                forall|j: int| 0 <= j < k ==> self.stats@[j].name@ != name@,
            decreases self.stats@.len() - k,
        {
            if self.stats[k].name == *name {
                return Some(k);
            }
            k += 1;
        }
        None
    }

    /// Record a call of `duration` nanoseconds to `name`: the function's
    /// entry records it, a new entry is added for a new name, and nothing
    /// changes while disabled.
    pub fn record(&mut self, name: &str, duration: u128)
        requires
            can_record_into(old(self).stats_view(), name@, duration),
        ensures
            final(self).enabled_view() == old(self).enabled_view(),
            !old(self).enabled_view() ==> final(self).stats_view() == old(self).stats_view(),
            old(self).enabled_view() ==> forall|k: int|
                entry_for(old(self).stats_view(), name@, k) ==> final(self).stats_view() == old(
                    self,
                ).stats_view().update(k, recorded(#[trigger] old(self).stats_view()[k], duration)),
            old(self).enabled_view() && !has_entry(old(self).stats_view(), name@) ==> (exists|n: String|
                n@ == name@ && final(self).stats_view() == old(self).stats_view().push(
                    recorded(#[trigger] fresh_stats(n), duration),
                )),
    {
        proof {
            use_type_invariant(&*self);
        }
        if !self.enabled {
            return;
        }
        let key = name.to_owned();
        let found = self.position(&key);
        let mut stats: Vec<FfiCallStats> = Vec::new();
        std::mem::swap(&mut stats, &mut self.stats);
        let ghost s0 = stats@;
        match found {
            Some(k) => {
                let mut e = stats[k].clone();
                e.record(duration);
                stats.set(k, e);
                proof {
                    assert forall|a: int, b: int| 0 <= a < b < stats@.len() implies stats@[a].name@
                        != stats@[b].name@ by {
                        assert(stats@[a].name == s0[a].name && stats@[b].name == s0[b].name);
                    }
                    assert forall|j: int| entry_for(s0, name@, j) implies stats@ == s0.update(
                        j,
                        recorded(#[trigger] s0[j], duration),
                    ) by {
                        if j != k {
                            assert(s0[j].name@ == s0[k as int].name@);
                        }
                    }
                }
            },
            None => {
                let mut e = FfiCallStats::new(key);
                let ghost fresh = e;
                e.record(duration);
                stats.push(e);
                proof {
                    assert forall|a: int, b: int| 0 <= a < b < stats@.len() implies stats@[a].name@
                        != stats@[b].name@ by {
                        if b == s0.len() {
                            assert(!entry_for(s0, name@, a));
                        } else {
                            assert(stats@[a] == s0[a] && stats@[b] == s0[b]);
                        }
                    }
                    assert(fresh == fresh_stats(fresh.name));
                    assert(stats@ == s0.push(recorded(fresh_stats(fresh.name), duration)));
                }
            },
        }
        self.stats = stats;
    }

    /// Get statistics for a specific function
    pub fn get_stats(&self, name: &str) -> (r: Option<FfiCallStats>)
        ensures
            match r {
                Some(s) => exists|k: int| entry_for(self.stats_view(), name@, k) && s == self.stats_view()[k],
                None => !has_entry(self.stats_view(), name@),
            },
    {
        let key = name.to_owned();
        match self.position(&key) {
            Some(k) => {
                let r = self.stats[k].clone();
                proof {
                    assert(entry_for(self.stats_view(), name@, k as int));
                }
                Some(r)
            },
            None => None,
        }
    }

    /// Get all statistics
    pub fn get_all_stats(&self) -> (r: Vec<FfiCallStats>)
        ensures
            r@ == self.stats_view(),
    {
        let mut r: Vec<FfiCallStats> = Vec::new();
        let mut k: usize = 0;
        while k < self.stats.len()
            invariant
                k <= self.stats@.len(),
                r@ == self.stats@.take(k as int),
            decreases self.stats@.len() - k,
        {
            r.push(self.stats[k].clone());
            proof {
                assert(r@ =~= self.stats@.take(k + 1));
            }
            k += 1;
        }
        proof {
            assert(self.stats@.take(self.stats@.len() as int) =~= self.stats@);
        }
        r
    }

    /// Reset all statistics
    pub fn reset(&mut self)
        ensures
            final(self).stats_view().len() == 0,
            final(self).enabled_view() == old(self).enabled_view(),
    {
        self.stats = Vec::new();
    }

    /// Get statistics sorted by average duration, longest first. No order is
    /// promised among entries of equal average.
    pub fn get_hotspots(&self) -> (r: Vec<FfiCallStats>)
        ensures
            by_avg_desc(r@),
            r@.to_multiset() == self.stats_view().to_multiset(),
    {
        let mut pending = self.get_all_stats();
        let ghost all = pending@;
        let mut sorted: Vec<FfiCallStats> = Vec::new();
        while pending.len() > 0
            invariant
                by_avg_desc(sorted@),
                sorted@.to_multiset().add(pending@.to_multiset()) == all.to_multiset(),
                sorted@.len() + pending@.len() == all.len(),
            decreases pending@.len(),
        {
            let ghost p_before = pending@;
            let s = pending.remove(0);
            proof {
                assert(p_before.remove(0) == pending@);
            }
            let mut pos: usize = sorted.len();
            while pos > 0 && sorted[pos - 1].avg_duration < s.avg_duration
                invariant
                    pos <= sorted@.len(),
                    forall|k: int| pos <= k < sorted@.len() ==> sorted@[k].avg_duration < s.avg_duration,
                decreases pos,
            {
                pos -= 1;
            }
            let ghost before = sorted@;
            sorted.insert(pos, s);
            proof {
                assert forall|a: int, b: int| 0 <= a < b < sorted@.len() implies sorted@[a].avg_duration
                    >= sorted@[b].avg_duration by {
                    if b < pos {
                        assert(sorted@[a] == before[a] && sorted@[b] == before[b]);
                    } else if b == pos {
                        assert(sorted@[a] == before[a]);
                        assert(before[pos - 1].avg_duration >= s.avg_duration);
                        assert(before[a].avg_duration >= before[pos - 1].avg_duration || a == pos - 1);
                    } else if a > pos {
                        assert(sorted@[a] == before[a - 1] && sorted@[b] == before[b - 1]);
                    } else if a == pos {
                        assert(sorted@[b] == before[b - 1]);
                    } else {
                        assert(sorted@[a] == before[a] && sorted@[b] == before[b - 1]);
                        assert(before[pos - 1].avg_duration >= s.avg_duration);
                        assert(before[a].avg_duration >= before[pos - 1].avg_duration || a == pos - 1);
                    }
                }
            }
        }
        sorted
    }

    /// Get total overhead: the time over all calls.
    pub fn total_overhead(&self) -> (t: u128)
        requires
            sum_total(self.stats_view()) <= MAX_DURATION_NANOS,
        ensures
            t == sum_total(self.stats_view()),
    {
        let mut t: u128 = 0;
        let mut k: usize = 0;
        while k < self.stats.len()
            invariant
                k <= self.stats@.len(),
                sum_total(self.stats@) <= MAX_DURATION_NANOS,
                t == sum_total(self.stats@.take(k as int)),
            decreases self.stats@.len() - k,
        {
            proof {
                assert(self.stats@.take(k + 1).drop_last() =~= self.stats@.take(k as int));
                lemma_sum_total_prefix(self.stats@, k + 1);
            }
            t = t + self.stats[k].total_duration;
            k += 1;
        }
        proof {
            assert(self.stats@.take(self.stats@.len() as int) =~= self.stats@);
        }
        t
    }

    /// Generate profiling report
    pub fn report(&self) -> (r: ProfilingReport)
        requires
            sum_total(self.stats_view()) <= MAX_DURATION_NANOS,
            sum_calls(self.stats_view()) <= u64::MAX,
        ensures
            r.total_calls == sum_calls(self.stats_view()),
            r.total_duration == sum_total(self.stats_view()),
            r.function_stats@ == self.stats_view(),
    {
        let stats = self.get_all_stats();
        let mut total_calls: u64 = 0;
        let mut k: usize = 0;
        while k < stats.len()
            invariant
                k <= stats@.len(),
                sum_calls(stats@) <= u64::MAX,
                total_calls == sum_calls(stats@.take(k as int)),
            decreases stats@.len() - k,
        {
            proof {
                assert(stats@.take(k + 1).drop_last() =~= stats@.take(k as int));
                lemma_sum_calls_prefix(stats@, k + 1);
            }
            total_calls = total_calls + stats[k].call_count;
            k += 1;
        }
        proof {
            assert(stats@.take(stats@.len() as int) =~= stats@);
        }
        let total_duration = self.total_overhead();
        ProfilingReport { total_calls, total_duration, function_stats: stats }
    }
}

impl Default for FfiProfiler {
    fn default() -> (p: Self)
        ensures
            p.stats_view().len() == 0,
            p.enabled_view(),
    {
        FfiProfiler::new()
    }
}

proof fn lemma_sum_total_prefix(s: Seq<FfiCallStats>, k: int)
    requires
        0 <= k <= s.len(),
    ensures
        sum_total(s.take(k)) <= sum_total(s),
    decreases s.len(),
{
    if k < s.len() {
        assert(s.drop_last().take(k) =~= s.take(k));
        lemma_sum_total_prefix(s.drop_last(), k);
    } else {
        assert(s.take(k) =~= s);
    }
}

proof fn lemma_sum_calls_prefix(s: Seq<FfiCallStats>, k: int)
    requires
        0 <= k <= s.len(),
    ensures
        sum_calls(s.take(k)) <= sum_calls(s),
    decreases s.len(),
{
    if k < s.len() {
        assert(s.drop_last().take(k) =~= s.take(k));
        lemma_sum_calls_prefix(s.drop_last(), k);
    } else {
        assert(s.take(k) =~= s);
    }
}

/// Recording a call keeps the shortest and the longest call seen: the new
/// minimum is the smaller of the old minimum and the call, the new maximum
/// the larger of the old maximum and the call; the count grows by one and the
/// total by the call.
pub proof fn law_record_tracks_extremes(s: FfiCallStats, d: u128)
    requires
        can_record(s, d),
    ensures
        recorded(s, d).min_duration <= d,
        recorded(s, d).min_duration <= s.min_duration,
        recorded(s, d).min_duration == d || recorded(s, d).min_duration == s.min_duration,
        recorded(s, d).max_duration >= d,
        recorded(s, d).max_duration >= s.max_duration,
        recorded(s, d).max_duration == d || recorded(s, d).max_duration == s.max_duration,
        recorded(s, d).call_count == s.call_count + 1,
        recorded(s, d).total_duration == s.total_duration + d,
        recorded(s, d).name == s.name,
{
}

/// The first call recorded on fresh statistics is the shortest, the longest
/// and the average call, and the whole total.
pub proof fn law_first_call_sets_all(name: String, d: u128)
    requires
        d <= MAX_DURATION_NANOS,
    ensures
        can_record(fresh_stats(name), d),
        recorded(fresh_stats(name), d).min_duration == d,
        recorded(fresh_stats(name), d).max_duration == d,
        recorded(fresh_stats(name), d).avg_duration == d,
        recorded(fresh_stats(name), d).total_duration == d,
        recorded(fresh_stats(name), d).call_count == 1,
{
    assert((1u64 as u32) == 1u32) by (bit_vector);
    assert(((1u64 as u32) as u128) == 1u128);
    assert(d / 1u128 == d);
}

} // verus!
