use vstd::prelude::*;
use crate::timer::{
    Mean,
    Timer,
    TimerError,
    lemma_max_index,
    lemma_mean_between,
    lemma_min_index,
    max_index,
    max_of,
    mean_le_value,
    mean_of,
    min_index,
    min_of,
    value_le_mean,
};

verus! {

/// Largest value of a `u64`, as a mathematical integer.
pub open spec fn u64_top() -> int {
    0xffff_ffff_ffff_ffff
}

/// Minimum, exact mean and maximum of one trial's trimmed readings, in nanoseconds.
#[derive(Clone, Copy, Debug, PartialEq, Eq, Structural)]
pub struct TrialStatistics {
    pub min: u64,
    pub average: Mean,
    pub max: u64,
}

/// The readings left after removing the first minimum, then the first maximum.
pub open spec fn trimmed(s: Seq<u64>) -> Seq<u64> {
    let t = s.remove(min_index(s));
    t.remove(max_index(t))
}

/// Statistics of a non-empty set of readings.
pub open spec fn statistics_of(s: Seq<u64>) -> TrialStatistics {
    TrialStatistics { min: min_of(s), average: mean_of(s), max: max_of(s) }
}

/// Statistics that are ordered as a minimum, a mean and a maximum are.
pub open spec fn is_ordered(t: TrialStatistics) -> bool {
    value_le_mean(t.min, t.average) && mean_le_value(t.average, t.max)
}

/// Trims the timer's single smallest and single largest reading and
/// returns the statistics of the rest.
pub fn trial_statistics(timer: &mut Timer) -> (r: Result<TrialStatistics, TimerError>)
    ensures
        final(timer).open_view() == old(timer).open_view(),
        old(timer).readings_view().len() < 3 ==> r == Err::<TrialStatistics, TimerError>(
            TimerError::EmptySet,
        ) && final(timer).readings_view().len() == 0,
        old(timer).readings_view().len() >= 3 ==> r == Ok::<TrialStatistics, TimerError>(
            statistics_of(trimmed(old(timer).readings_view())),
        ) && final(timer).readings_view() == trimmed(old(timer).readings_view()),
        r matches Ok(t) ==> is_ordered(t),
        r matches Ok(t) ==> t.average.count == old(timer).readings_view().len() - 2,
        r matches Ok(t) ==> t.average.total <= t.average.count * u64_top(),
{
    proof {
        let s = timer.readings_view();
        if s.len() > 0 {
            lemma_min_index(s);
            let t = s.remove(min_index(s));
            if t.len() > 0 {
                lemma_max_index(t);
            }
        }
    }
    if let Err(e) = timer.discard_min() {
        return Err(e);
    }
    if let Err(e) = timer.discard_max() {
        return Err(e);
    }
    let min = match timer.min() {
        Ok(v) => v,
        Err(e) => return Err(e),
    };
    let average = match timer.average() {
        Ok(v) => v,
        Err(e) => return Err(e),
    };
    let max = match timer.max() {
        Ok(v) => v,
        Err(e) => return Err(e),
    };
    proof {
        lemma_mean_between(timer.readings_view());
    }
    Ok(TrialStatistics { min, average, max })
}

/// Sum of one field over a sequence of trial statistics.
pub open spec fn total(ts: Seq<TrialStatistics>, f: spec_fn(TrialStatistics) -> int) -> int
    decreases ts.len(),
{
    if ts.len() == 0 {
        0
    } else {
        total(ts.drop_last(), f) + f(ts.last())
    }
}

/// Final figures, each an exact fraction.
#[derive(Clone, Copy, Debug, PartialEq, Eq, Structural)]
pub struct Summary {
    pub min: Mean,
    pub average: Mean,
    pub max: Mean,
}

/// Final figures of trials that each kept `per_trial` readings: the trial
/// minima, means and maxima, each summed and divided by the number of trials.
/// As every trial mean has the denominator `per_trial`, the mean of the trial
/// means is the sum of their totals over `per_trial` times the number of trials.
pub open spec fn aggregate_of(ts: Seq<TrialStatistics>, per_trial: int) -> Summary {
    let n = ts.len() as int;
    Summary {
        min: Mean { total: total(ts, |t: TrialStatistics| t.min as int) as u128, count: n as u128 },
        average: Mean {
            total: total(ts, |t: TrialStatistics| t.average.total as int) as u128,
            count: (per_trial * n) as u128,
        },
        max: Mean { total: total(ts, |t: TrialStatistics| t.max as int) as u128, count: n as u128 },
    }
}

/// Running sums of per-trial statistics, for trials of `per_trial` readings each.
pub struct AggregateStatistics {
    sum_min: u128,
    sum_total: u128,
    sum_max: u128,
    count: u64,
    per_trial: usize,
    trials: Ghost<Seq<TrialStatistics>>,
}

impl AggregateStatistics {
    /// The trial statistics added so far, in order.
    pub closed spec fn trials_view(&self) -> Seq<TrialStatistics> {
        self.trials@
    }

    /// The number of readings behind each trial's mean.
    pub closed spec fn per_trial_view(&self) -> nat {
        self.per_trial as nat
    }

    /// The running sums agree with the trials added.
    pub closed spec fn wf(&self) -> bool {
        &&& self.count as int == self.trials@.len()
        &&& self.trials@.len() * self.per_trial <= u64_top()
        &&& self.sum_min as int == total(self.trials@, |t: TrialStatistics| t.min as int)
        &&& self.sum_total as int == total(self.trials@, |t: TrialStatistics| t.average.total as int)
        &&& self.sum_max as int == total(self.trials@, |t: TrialStatistics| t.max as int)
        &&& forall|i: int|
            0 <= i < self.trials@.len() ==> (#[trigger] self.trials@[i]).average.total
                <= self.per_trial * u64_top()
    }

    /// No trials yet.
    pub fn new(per_trial: usize) -> (r: AggregateStatistics)
        ensures
            r.wf(),
            r.trials_view() == Seq::<TrialStatistics>::empty(),
            r.per_trial_view() == per_trial,
    {
        AggregateStatistics {
            sum_min: 0,
            sum_total: 0,
            sum_max: 0,
            count: 0,
            per_trial,
            trials: Ghost(Seq::empty()),
        }
    }

    /// Number of trials added.
    pub fn count(&self) -> (r: u64)
        requires
            self.wf(),
        ensures
            r == self.trials_view().len(),
    {
        self.count
    }

    /// Adds one trial's statistics to the sums.
    pub fn add(&mut self, t: TrialStatistics)
        requires
            old(self).wf(),
            t.average.count == old(self).per_trial_view(),
            t.average.total <= t.average.count * u64_top(),
            (old(self).trials_view().len() + 1) * old(self).per_trial_view() <= u64_top(),
            old(self).trials_view().len() < u64_top(),
        ensures
            final(self).wf(),
            final(self).trials_view() == old(self).trials_view().push(t),
            final(self).per_trial_view() == old(self).per_trial_view(),
    {
        let ghost ts = self.trials@;
        let ghost n = ts.len() as int;
        let ghost p = self.per_trial as int;
        proof {
            lemma_total_bound(ts, |t: TrialStatistics| t.min as int, u64_top());
            lemma_total_bound(ts, |t: TrialStatistics| t.max as int, u64_top());
            lemma_total_bound(ts, |t: TrialStatistics| t.average.total as int, p * u64_top());
            assert(n * (p * u64_top()) + p * u64_top() == (n + 1) * p * u64_top())
                by (nonlinear_arith);
            assert((n + 1) * p * u64_top() <= u64_top() * u64_top()) by (nonlinear_arith)
                requires
                    (n + 1) * p <= u64_top(),
            ;
        }
        self.sum_min = self.sum_min + t.min as u128;
        self.sum_total = self.sum_total + t.average.total;
        self.sum_max = self.sum_max + t.max as u128;
        self.count = self.count + 1;
        self.trials = Ghost(self.trials@.push(t));
        assert(self.trials@.drop_last() == ts);
        assert(n * p <= (n + 1) * p) by (nonlinear_arith)
            requires
                0 <= p,
                0 <= n,
        ;
    }

    /// The final figures; `None` before the first trial.
    pub fn finish(&self) -> (r: Option<Summary>)
        requires
            self.wf(),
        ensures
            self.trials_view().len() == 0 ==> r is None,
            self.trials_view().len() > 0 ==> r == Some(
                aggregate_of(self.trials_view(), self.per_trial_view() as int),
            ),
    {
        if self.count == 0 {
            return None;
        }
        let n = self.count as u128;
        let p = self.per_trial as u128;
        assert(p * n == self.per_trial * self.trials@.len() && p * n <= u64_top())
            by (nonlinear_arith)
            requires
                p == self.per_trial,
                n == self.trials@.len(),
                self.trials@.len() * self.per_trial <= u64_top(),
        ;
        Some(
            Summary {
                min: Mean { total: self.sum_min, count: n },
                average: Mean { total: self.sum_total, count: p * n },
                max: Mean { total: self.sum_max, count: n },
            },
        )
    }
}

/// A field bounded by `b` in every trial sums to at most `b` times the number of trials.
proof fn lemma_total_bound(ts: Seq<TrialStatistics>, f: spec_fn(TrialStatistics) -> int, b: int)
    requires
        forall|i: int| 0 <= i < ts.len() ==> 0 <= #[trigger] f(ts[i]) <= b,
    ensures
        0 <= total(ts, f) <= ts.len() * b,
    decreases ts.len(),
{
    if ts.len() > 0 {
        let s = ts.drop_last();
        assert forall|i: int| 0 <= i < s.len() implies 0 <= #[trigger] f(s[i]) <= b by {
            assert(s[i] == ts[i]);
        }
        lemma_total_bound(s, f, b);
        assert(f(ts[ts.len() - 1]) <= b);
        let n = ts.len() as int;
        assert((n - 1) * b + b == n * b) by (nonlinear_arith);
    }
}

/// Final figures ordered as fractions: minimum, then mean, then maximum.
pub open spec fn summary_ordered(s: Summary) -> bool {
    &&& s.min.total * s.average.count <= s.average.total * s.min.count
    &&& s.average.total * s.max.count <= s.max.total * s.average.count
}

/// Averaging trials whose statistics are each ordered, each with `per_trial`
/// readings, gives final figures that are ordered too.
pub proof fn lemma_aggregate_ordered(ts: Seq<TrialStatistics>, per_trial: int)
    requires
        ts.len() > 0,
        0 <= per_trial,
        ts.len() * per_trial <= u64_top(),
        ts.len() <= u64_top(),
        forall|i: int|
            0 <= i < ts.len() ==> is_ordered(#[trigger] ts[i]) && ts[i].average.count == per_trial
                && ts[i].average.total <= per_trial * u64_top(),
    ensures
        summary_ordered(aggregate_of(ts, per_trial)),
{
    let n = ts.len() as int;
    let a = total(ts, |t: TrialStatistics| t.min as int);
    let b = total(ts, |t: TrialStatistics| t.average.total as int);
    let c = total(ts, |t: TrialStatistics| t.max as int);
    lemma_totals_ordered(ts, per_trial);
    lemma_total_bound(ts, |t: TrialStatistics| t.min as int, u64_top());
    lemma_total_bound(ts, |t: TrialStatistics| t.max as int, u64_top());
    lemma_total_bound(ts, |t: TrialStatistics| t.average.total as int, per_trial * u64_top());
    assert(n * u64_top() <= u64_top() * u64_top()) by (nonlinear_arith)
        requires
            n <= u64_top(),
    ;
    assert(n * (per_trial * u64_top()) <= u64_top() * u64_top()) by (nonlinear_arith)
        requires
            n * per_trial <= u64_top(),
            0 <= per_trial,
            0 <= n,
    ;
    assert(a * (per_trial * n) <= b * n && b * n <= c * (per_trial * n)) by (nonlinear_arith)
        requires
            per_trial * a <= b,
            b <= per_trial * c,
            0 < n,
    ;
}

proof fn lemma_totals_ordered(ts: Seq<TrialStatistics>, p: int)
    requires
        forall|i: int|
            0 <= i < ts.len() ==> is_ordered(#[trigger] ts[i]) && ts[i].average.count == p,
    ensures
        p * total(ts, |t: TrialStatistics| t.min as int) <= total(
            ts,
            |t: TrialStatistics| t.average.total as int,
        ),
        total(ts, |t: TrialStatistics| t.average.total as int) <= p * total(
            ts,
            |t: TrialStatistics| t.max as int,
        ),
    decreases ts.len(),
{
    if ts.len() > 0 {
        let s = ts.drop_last();
        assert forall|i: int|
            0 <= i < s.len() implies is_ordered(#[trigger] s[i]) && s[i].average.count == p by {
            assert(s[i] == ts[i]);
        }
        lemma_totals_ordered(s, p);
        let l = ts[ts.len() - 1];
        assert(is_ordered(l) && l.average.count == p);
        let a = total(s, |t: TrialStatistics| t.min as int);
        let c = total(s, |t: TrialStatistics| t.max as int);
        assert(p * (a + l.min) == p * a + p * l.min) by (nonlinear_arith);
        assert(p * (c + l.max) == p * c + p * l.max) by (nonlinear_arith);
    }
}

} // verus!
