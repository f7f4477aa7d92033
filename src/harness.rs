use vstd::prelude::*;
use crate::bench::{
    AggregateStatistics,
    Summary,
    TrialStatistics,
    aggregate_of,
    is_ordered,
    lemma_aggregate_ordered,
    statistics_of,
    summary_ordered,
    trial_statistics,
    trimmed,
    u64_top,
};
use crate::timer::{Mean, Timer, mean_of};

verus! {

/// Timed passes over the inputs in each trial, unless configured otherwise.
pub const DEFAULT_RUNS: usize = 10;

/// Trials in a benchmark, unless configured otherwise.
pub const DEFAULT_TRIALS: usize = 10;

/// Why a benchmark configuration was refused.
#[derive(Clone, Copy, Debug, PartialEq, Eq, Structural)]
pub enum ConfigError {
    /// Fewer than three runs per trial leave nothing after trimming.
    TooFewRuns,
    /// A benchmark needs at least one trial.
    NoTrials,
    /// More runs in all than a `u64` counts; the exact sums could not be held.
    TooLarge,
}

/// How many runs make a trial and how many trials make a benchmark.
#[derive(Clone, Copy, Debug, PartialEq, Eq, Structural)]
pub struct BenchConfig {
    runs: usize,
    trials: usize,
}

impl BenchConfig {
    pub closed spec fn runs_view(&self) -> nat {
        self.runs as nat
    }

    pub closed spec fn trials_view(&self) -> nat {
        self.trials as nat
    }

    /// Enough runs to trim, at least one trial, and a count of runs that fits a `u64`.
    pub open spec fn valid(&self) -> bool {
        self.runs_view() >= 3 && self.trials_view() >= 1 && self.runs_view()
            * self.trials_view() <= u64_top()
    }

    /// A configuration, refused unless there are at least three runs, one
    /// trial, and no more runs in all than a `u64` counts.
    pub fn new(runs: usize, trials: usize) -> (r: Result<BenchConfig, ConfigError>)
        ensures
            runs < 3 ==> r == Err::<BenchConfig, ConfigError>(ConfigError::TooFewRuns),
            runs >= 3 && trials == 0 ==> r == Err::<BenchConfig, ConfigError>(
                ConfigError::NoTrials,
            ),
            runs >= 3 && trials >= 1 && runs * trials > u64_top() ==> r == Err::<
                BenchConfig,
                ConfigError,
            >(ConfigError::TooLarge),
            r matches Ok(c) ==> c.runs_view() == runs && c.trials_view() == trials && c.valid(),
            runs >= 3 && trials >= 1 && runs * trials <= u64_top() ==> r is Ok,
    {
        if runs < 3 {
            Err(ConfigError::TooFewRuns)
        } else if trials == 0 {
            Err(ConfigError::NoTrials)
        } else if {
            assert(runs as u128 * trials as u128 <= u64_top() * u64_top()) by (nonlinear_arith)
                requires
                    runs <= u64_top(),
                    trials <= u64_top(),
            ;
            runs as u128 * trials as u128 > 0xffff_ffff_ffff_ffff
        } {
            Err(ConfigError::TooLarge)
        } else {
            Ok(BenchConfig { runs, trials })
        }
    }

    pub fn runs(&self) -> (r: usize)
        ensures
            r == self.runs_view(),
    {
        self.runs
    }

    pub fn trials(&self) -> (r: usize)
        ensures
            r == self.trials_view(),
    {
        self.trials
    }
}

impl Default for BenchConfig {
    /// Ten runs per trial and ten trials.
    fn default() -> (r: BenchConfig)
        ensures
            r.runs_view() == DEFAULT_RUNS && r.trials_view() == DEFAULT_TRIALS && r.valid(),
    {
        BenchConfig { runs: DEFAULT_RUNS, trials: DEFAULT_TRIALS }
    }
}

/// A source of timestamps in nanoseconds.
pub trait Clock {
    fn now(&mut self) -> u64;
}

/// The work being measured: processes one input item and reports how many
/// result units it produced.
pub trait Workload {
    fn run(&mut self, input: &str) -> Result<u64, String>;
}

/// The workload failed on the input at position `input`.
#[derive(Debug, PartialEq, Eq)]
pub struct WorkloadFailure {
    pub input: usize,
    pub message: String,
}

/// Runs the workload over every input `runs` times, each pass timed as one
/// interval, and returns the result units produced (saturating at `u64::MAX`).
pub fn measure<C: Clock, W: Workload>(
    timer: &mut Timer,
    clock: &mut C,
    workload: &mut W,
    inputs: &[String],
    runs: usize,
) -> (r: Result<u64, WorkloadFailure>)
    requires
        old(timer).open_view() is None,
    ensures
        r is Ok ==> final(timer).open_view() is None,
        r is Ok ==> final(timer).readings_view().len() == old(timer).readings_view().len() + runs,
        r is Ok ==> final(timer).readings_view().take(old(timer).readings_view().len() as int)
            == old(timer).readings_view(),
        inputs@.len() == 0 ==> r == Ok::<u64, WorkloadFailure>(0),
        runs == 0 ==> r == Ok::<u64, WorkloadFailure>(0) && final(timer).readings_view()
            == old(timer).readings_view() && final(timer).open_view() is None,
        r matches Err(e) ==> runs > 0 && e.input < inputs@.len(),
{
    let ghost before = timer.readings_view();
    let mut units: u64 = 0;
    let mut i: usize = 0;
    while i < runs
        invariant
            i <= runs,
            timer.open_view() is None,
            timer.readings_view().len() == before.len() + i,
            timer.readings_view().take(before.len() as int) == before,
            inputs@.len() == 0 ==> units == 0,
            i == 0 ==> units == 0,
        decreases runs - i,
    {
        let ghost prior = timer.readings_view();
        let started = clock.now();
        let _ = timer.start(started);
        let mut k: usize = 0;
        while k < inputs.len()
            invariant
                k <= inputs@.len(),
                i < runs,
                timer.open_view() is Some,
                timer.readings_view() == prior,
                inputs@.len() == 0 ==> units == 0,
            decreases inputs@.len() - k,
        {
            match workload.run(inputs[k].as_str()) {
                Ok(n) => {
                    units = units.saturating_add(n);
                },
                Err(message) => {
                    return Err(WorkloadFailure { input: k, message });
                },
            }
            k = k + 1;
        }
        let stopped = clock.now();
        let _ = timer.stop(stopped);
        assert(timer.readings_view().take(before.len() as int) =~= before);
        i = i + 1;
    }
    proof {
        if runs == 0 {
            assert(timer.readings_view() =~= before);
        }
    }
    Ok(units)
}

/// What a benchmark reports: the warm-up average, the final figures (each a
/// mean over trials), the number of inputs, and the result units of the
/// warm-up and of the trials.
#[derive(Clone, Copy, Debug, PartialEq, Eq, Structural)]
pub struct Report {
    pub warmup_average: Mean,
    pub statistics: Summary,
    pub inputs: usize,
    pub warmup_result_units: u64,
    pub result_units: u64,
}

/// Statistics of each trial's readings after trimming.
pub open spec fn trial_results(rs: Seq<Seq<u64>>) -> Seq<TrialStatistics> {
    rs.map_values(|s: Seq<u64>| statistics_of(trimmed(s)))
}

/// One warm-up pass whose figures are discarded but for its average, then
/// `trials` trials: each resets the timer, measures `runs` passes, trims the
/// smallest and largest reading and takes the statistics of the rest. The
/// final figures average each statistic over the trials.
pub fn run_benchmark<C: Clock, W: Workload>(
    config: &BenchConfig,
    clock: &mut C,
    workload: &mut W,
    inputs: &[String],
) -> (r: Result<Report, WorkloadFailure>)
    requires
        config.valid(),
    ensures
        inputs@.len() == 0 ==> (r matches Ok(rep) && rep.result_units == 0
            && rep.warmup_result_units == 0),
        r matches Err(e) ==> inputs@.len() > 0 && e.input < inputs@.len(),
        r matches Ok(rep) ==> rep.inputs == inputs@.len() && summary_ordered(rep.statistics),
        r matches Ok(rep) ==> exists|w: Seq<u64>|
            w.len() == config.runs_view() && rep.warmup_average == mean_of(w),
        r matches Ok(rep) ==> exists|rs: Seq<Seq<u64>>|
            {
                &&& rs.len() == config.trials_view()
                &&& forall|i: int| 0 <= i < rs.len() ==> (#[trigger] rs[i]).len() == config.runs_view()
                &&& rep.statistics == aggregate_of(trial_results(rs), config.runs_view() - 2)
            },
{
    let runs = config.runs();
    let trials = config.trials();
    let mut timer = Timer::new();
    timer.reset();
    let warmup_result_units = match measure(&mut timer, clock, workload, inputs, runs) {
        Ok(n) => n,
        Err(e) => {
            return Err(e);
        },
    };
    let ghost warmup = timer.readings_view();
    assert(timer.readings_view().len() == runs);
    let warmup_average = timer.average().unwrap();
    let mut aggregate = AggregateStatistics::new(runs - 2);
    let mut units: u64 = 0;
    let ghost mut rs: Seq<Seq<u64>> = Seq::empty();
    let mut k: usize = 0;
    while k < trials
        invariant
            k <= trials,
            trials == config.trials_view(),
            runs == config.runs_view(),
            runs >= 3,
            runs * trials <= u64_top(),
            aggregate.per_trial_view() == runs - 2,
            warmup.len() == runs,
            inputs@.len() == 0 ==> warmup_result_units == 0,
            warmup_average == mean_of(warmup),
            inputs@.len() == 0 ==> units == 0,
            aggregate.wf(),
            rs.len() == k,
            forall|i: int| 0 <= i < rs.len() ==> (#[trigger] rs[i]).len() == runs,
            aggregate.trials_view() == trial_results(rs),
            forall|i: int|
                0 <= i < aggregate.trials_view().len() ==> is_ordered(
                    #[trigger] aggregate.trials_view()[i],
                ) && aggregate.trials_view()[i].average.count == runs - 2
                    && aggregate.trials_view()[i].average.total <= (runs - 2) * u64_top(),
        decreases trials - k,
    {
        timer.reset();
        match measure(&mut timer, clock, workload, inputs, runs) {
            Ok(n) => {
                units = units.saturating_add(n);
            },
            Err(e) => {
                return Err(e);
            },
        }
        let ghost readings = timer.readings_view();
        let stats = trial_statistics(&mut timer).unwrap();
        proof {
            assert(trial_results(rs.push(readings)) =~= trial_results(rs).push(stats));
            rs = rs.push(readings);
        }
        assert((k + 1) * (runs - 2) <= runs * trials && k < runs * trials) by (nonlinear_arith)
            requires
                k < trials,
                runs >= 3,
        ;
        aggregate.add(stats);
        k = k + 1;
    }
    let statistics = aggregate.finish().unwrap();
    proof {
        assert(trials <= runs * trials && trials * (runs - 2) <= runs * trials) by (nonlinear_arith)
            requires
                runs >= 3,
                trials >= 1,
        ;
        lemma_aggregate_ordered(aggregate.trials_view(), runs - 2);
    }
    Ok(Report { warmup_average, statistics, inputs: inputs.len(), warmup_result_units, result_units: units })
}

} // verus!
