use vstd::prelude::*;

verus! {

/// Ways in which the timer can be misused.
#[derive(Clone, Copy, Debug, PartialEq, Eq, Structural)]
pub enum TimerError {
    /// `start` while an interval is open, or `stop` while none is.
    InvalidState,
    /// A statistic or a trim was asked of an empty set of readings.
    EmptySet,
}

/// Sum of a sequence of readings.
pub open spec fn sum_of(s: Seq<u64>) -> int
    decreases s.len(),
{
    if s.len() == 0 {
        0
    } else {
        sum_of(s.drop_last()) + s.last()
    }
}

/// Index of the first smallest reading (0 for an empty sequence).
pub open spec fn min_index(s: Seq<u64>) -> int
    decreases s.len(),
{
    if s.len() <= 1 {
        0
    } else {
        let i = min_index(s.drop_last());
        if s.last() < s[i] {
            s.len() - 1
        } else {
            i
        }
    }
}

/// Index of the first largest reading (0 for an empty sequence).
pub open spec fn max_index(s: Seq<u64>) -> int
    decreases s.len(),
{
    if s.len() <= 1 {
        0
    } else {
        let i = max_index(s.drop_last());
        if s.last() > s[i] {
            s.len() - 1
        } else {
            i
        }
    }
}

/// Smallest reading of a non-empty sequence.
pub open spec fn min_of(s: Seq<u64>) -> u64 {
    s[min_index(s)]
}

/// Largest reading of a non-empty sequence.
pub open spec fn max_of(s: Seq<u64>) -> u64 {
    s[max_index(s)]
}

/// An exact mean: `total` divided by `count`, kept as a fraction.
#[derive(Clone, Copy, Debug, PartialEq, Eq, Structural)]
pub struct Mean {
    pub total: u128,
    pub count: u128,
}

/// The arithmetic mean of a sequence, as its sum over its length.
pub open spec fn mean_of(s: Seq<u64>) -> Mean {
    Mean { total: sum_of(s) as u128, count: s.len() as u128 }
}

/// The mean `a` is at most `v`.
pub open spec fn mean_le_value(a: Mean, v: u64) -> bool {
    a.total <= a.count * v
}

/// `v` is at most the mean `a`.
pub open spec fn value_le_mean(v: u64, a: Mean) -> bool {
    a.count * v <= a.total
}

/// Length of the interval from `start` to `now`; a clock that stepped back gives 0.
pub open spec fn elapsed_between(start: u64, now: u64) -> u64 {
    if now >= start {
        (now - start) as u64
    } else {
        0
    }
}

/// The first smallest reading is no larger than any reading.
pub proof fn lemma_min_index(s: Seq<u64>)
    requires
        s.len() > 0,
    ensures
        0 <= min_index(s) < s.len(),
        forall|k: int| 0 <= k < s.len() ==> min_of(s) <= #[trigger] s[k],
    decreases s.len(),
{
    if s.len() > 1 {
        let t = s.drop_last();
        lemma_min_index(t);
        assert forall|k: int| 0 <= k < t.len() implies #[trigger] s[k] == t[k] by {}
    }
}

/// The first largest reading is no smaller than any reading.
pub proof fn lemma_max_index(s: Seq<u64>)
    requires
        s.len() > 0,
    ensures
        0 <= max_index(s) < s.len(),
        forall|k: int| 0 <= k < s.len() ==> #[trigger] s[k] <= max_of(s),
    decreases s.len(),
{
    if s.len() > 1 {
        let t = s.drop_last();
        lemma_max_index(t);
        assert forall|k: int| 0 <= k < t.len() implies #[trigger] s[k] == t[k] by {}
    }
}

/// A sum lies between the length times a lower bound and the length times an upper bound.
pub proof fn lemma_sum_bounds(s: Seq<u64>, lo: int, hi: int)
    requires
        forall|k: int| 0 <= k < s.len() ==> lo <= #[trigger] s[k] <= hi,
    ensures
        s.len() * lo <= sum_of(s) <= s.len() * hi,
    decreases s.len(),
{
    if s.len() > 0 {
        let t = s.drop_last();
        assert forall|k: int| 0 <= k < t.len() implies lo <= #[trigger] t[k] <= hi by {
            assert(t[k] == s[k]);
        }
        lemma_sum_bounds(t, lo, hi);
        let n = s.len() as int;
        assert((n - 1) * lo + lo == n * lo) by (nonlinear_arith);
        assert((n - 1) * hi + hi == n * hi) by (nonlinear_arith);
    }
}

/// The mean of a non-empty set of readings lies between its minimum and its
/// maximum: `len * min <= sum <= len * max`.
pub proof fn lemma_mean_between(s: Seq<u64>)
    requires
        s.len() > 0,
    ensures
        s.len() * min_of(s) <= sum_of(s) <= s.len() * max_of(s),
        0 <= sum_of(s) <= s.len() * 0xffff_ffff_ffff_ffff,
{
    lemma_min_index(s);
    lemma_max_index(s);
    lemma_sum_bounds(s, min_of(s) as int, max_of(s) as int);
    lemma_sum_bounds(s, 0, 0xffff_ffff_ffff_ffff);
}

/// Discarding the minimum never lowers the minimum; the minimum stays the same
/// exactly when another copy of the old minimum remains.
pub proof fn lemma_discard_min_raises_min(s: Seq<u64>)
    requires
        s.len() >= 2,
    ensures
        min_of(s.remove(min_index(s))) >= min_of(s),
        min_of(s.remove(min_index(s))) == min_of(s) <==> s.remove(min_index(s)).contains(min_of(s)),
{
    lemma_min_index(s);
    let m = min_index(s);
    let t = s.remove(m);
    lemma_min_index(t);
    let j = min_index(t);
    if j < m {
        assert(t[j] == s[j]);
    } else {
        assert(t[j] == s[j + 1]);
    }
    if t.contains(min_of(s)) {
        let k = choose|k: int| 0 <= k < t.len() && t[k] == min_of(s);
        assert(min_of(t) <= t[k]);
    }
    if min_of(t) == min_of(s) {
        assert(t[j] == min_of(s));
    }
}

/// Position of the first smallest element.
fn min_position(v: &Vec<u64>) -> (r: usize)
    requires
        v@.len() > 0,
    ensures
        r as int == min_index(v@),
        r < v@.len(),
{
    let mut best: usize = 0;
    let mut i: usize = 1;
    while i < v.len()
        invariant
            1 <= i <= v@.len(),
            best as int == min_index(v@.take(i as int)),
            best < i,
        decreases v@.len() - i,
    {
        let ghost s = v@.take(i as int + 1);
        assert(s.drop_last() =~= v@.take(i as int));
        if v[i] < v[best] {
            best = i;
        }
        i = i + 1;
    }
    assert(v@.take(i as int) =~= v@);
    best
}

/// Position of the first largest element.
fn max_position(v: &Vec<u64>) -> (r: usize)
    requires
        v@.len() > 0,
    ensures
        r as int == max_index(v@),
        r < v@.len(),
{
    let mut best: usize = 0;
    let mut i: usize = 1;
    while i < v.len()
        invariant
            1 <= i <= v@.len(),
            best as int == max_index(v@.take(i as int)),
            best < i,
        decreases v@.len() - i,
    {
        let ghost s = v@.take(i as int + 1);
        assert(s.drop_last() =~= v@.take(i as int));
        if v[i] > v[best] {
            best = i;
        }
        i = i + 1;
    }
    assert(v@.take(i as int) =~= v@);
    best
}

/// Records elapsed intervals, in nanoseconds, and computes statistics over them.
/// At most one interval is open at a time.
pub struct Timer {
    readings: Vec<u64>,
    open: Option<u64>,
}

impl Timer {
    /// The readings recorded so far, in order.
    pub closed spec fn readings_view(&self) -> Seq<u64> {
        self.readings@
    }

    /// The start time of the open interval, if one is open.
    pub closed spec fn open_view(&self) -> Option<u64> {
        self.open
    }

    /// A timer with no readings and no open interval.
    pub fn new() -> (r: Timer)
        ensures
            r.readings_view() == Seq::<u64>::empty(),
            r.open_view() is None,
    {
        Timer { readings: Vec::new(), open: None }
    }

    /// Clears all readings and cancels any open interval.
    pub fn reset(&mut self)
        ensures
            final(self).readings_view() == Seq::<u64>::empty(),
            final(self).open_view() is None,
    {
        self.readings = Vec::new();
        self.open = None;
    }

    /// Opens an interval at time `now`.
    pub fn start(&mut self, now: u64) -> (r: Result<(), TimerError>)
        ensures
            final(self).readings_view() == old(self).readings_view(),
            old(self).open_view() is Some ==> r == Err::<(), TimerError>(TimerError::InvalidState)
                && final(self).open_view() == old(self).open_view(),
            old(self).open_view() is None ==> r == Ok::<(), TimerError>(())
                && final(self).open_view() == Some(now),
    {
        if self.open.is_some() {
            Err(TimerError::InvalidState)
        } else {
            self.open = Some(now);
            Ok(())
        }
    }

    /// Closes the open interval at time `now` and records its length.
    pub fn stop(&mut self, now: u64) -> (r: Result<u64, TimerError>)
        ensures
            old(self).open_view() is None ==> r == Err::<u64, TimerError>(TimerError::InvalidState)
                && final(self).readings_view() == old(self).readings_view()
                && final(self).open_view() is None,
            old(self).open_view() is Some ==> ({
                let e = elapsed_between(old(self).open_view().unwrap(), now);
                &&& r == Ok::<u64, TimerError>(e)
                &&& final(self).readings_view() == old(self).readings_view().push(e)
                &&& final(self).open_view() is None
            }),
    {
        match self.open {
            None => Err(TimerError::InvalidState),
            Some(start) => {
                let e: u64 = if now >= start {
                    now - start
                } else {
                    0
                };
                self.readings.push(e);
                self.open = None;
                Ok(e)
            },
        }
    }

    /// Whether an interval is open.
    pub fn is_running(&self) -> (r: bool)
        ensures
            r == self.open_view() is Some,
    {
        self.open.is_some()
    }

    /// The readings recorded so far, in order.
    pub fn readings(&self) -> (r: &[u64])
        ensures
            r@ == self.readings_view(),
    {
        self.readings.as_slice()
    }

    /// Number of readings.
    pub fn len(&self) -> (r: usize)
        ensures
            r == self.readings_view().len(),
    {
        self.readings.len()
    }

    /// Arithmetic mean of the readings, exactly: their sum and their number.
    pub fn average(&self) -> (r: Result<Mean, TimerError>)
        ensures
            self.readings_view().len() == 0 ==> r == Err::<Mean, TimerError>(TimerError::EmptySet),
            self.readings_view().len() > 0 ==> r == Ok::<Mean, TimerError>(
                mean_of(self.readings_view()),
            ),
            mean_of(self.readings_view()).total == sum_of(self.readings_view()),
            mean_of(self.readings_view()).count == self.readings_view().len(),
    {
        let n = self.readings.len();
        let mut total: u128 = 0;
        let mut i: usize = 0;
        while i < n
            invariant
                n == self.readings@.len(),
                i <= n,
                total as int == sum_of(self.readings@.take(i as int)),
                total <= i as int * 0xffff_ffff_ffff_ffff,
            decreases n - i,
        {
            let ghost s = self.readings@.take(i as int + 1);
            assert(s.drop_last() =~= self.readings@.take(i as int));
            total = total + self.readings[i] as u128;
            i = i + 1;
        }
        assert(self.readings@.take(n as int) =~= self.readings@);
        if n == 0 {
            return Err(TimerError::EmptySet);
        }
        Ok(Mean { total, count: n as u128 })
    }

    /// Smallest reading.
    pub fn min(&self) -> (r: Result<u64, TimerError>)
        ensures
            self.readings_view().len() == 0 ==> r == Err::<u64, TimerError>(TimerError::EmptySet),
            self.readings_view().len() > 0 ==> r == Ok::<u64, TimerError>(
                min_of(self.readings_view()),
            ),
    {
        if self.readings.len() == 0 {
            return Err(TimerError::EmptySet);
        }
        let i = min_position(&self.readings);
        Ok(self.readings[i])
    }

    /// Largest reading.
    pub fn max(&self) -> (r: Result<u64, TimerError>)
        ensures
            self.readings_view().len() == 0 ==> r == Err::<u64, TimerError>(TimerError::EmptySet),
            self.readings_view().len() > 0 ==> r == Ok::<u64, TimerError>(
                max_of(self.readings_view()),
            ),
    {
        if self.readings.len() == 0 {
            return Err(TimerError::EmptySet);
        }
        let i = max_position(&self.readings);
        Ok(self.readings[i])
    }

    /// Removes one occurrence of the smallest reading (the first one).
    pub fn discard_min(&mut self) -> (r: Result<(), TimerError>)
        ensures
            final(self).open_view() == old(self).open_view(),
            old(self).readings_view().len() == 0 ==> r == Err::<(), TimerError>(TimerError::EmptySet)
                && final(self).readings_view() == old(self).readings_view(),
            old(self).readings_view().len() > 0 ==> r == Ok::<(), TimerError>(())
                && final(self).readings_view() == old(self).readings_view().remove(
                min_index(old(self).readings_view()),
            ),
    {
        if self.readings.len() == 0 {
            return Err(TimerError::EmptySet);
        }
        let i = min_position(&self.readings);
        self.readings.remove(i);
        Ok(())
    }

    /// Removes one occurrence of the largest reading (the first one).
    pub fn discard_max(&mut self) -> (r: Result<(), TimerError>)
        ensures
            final(self).open_view() == old(self).open_view(),
            old(self).readings_view().len() == 0 ==> r == Err::<(), TimerError>(TimerError::EmptySet)
                && final(self).readings_view() == old(self).readings_view(),
            old(self).readings_view().len() > 0 ==> r == Ok::<(), TimerError>(())
                && final(self).readings_view() == old(self).readings_view().remove(
                max_index(old(self).readings_view()),
            ),
    {
        if self.readings.len() == 0 {
            return Err(TimerError::EmptySet);
        }
        let i = max_position(&self.readings);
        self.readings.remove(i);
        Ok(())
    }
}

} // verus!
