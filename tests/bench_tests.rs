use timeperf::bench::{trial_statistics, AggregateStatistics, Summary, TrialStatistics};
use timeperf::harness::{
    measure, run_benchmark, BenchConfig, Clock, ConfigError, Workload, WorkloadFailure,
    DEFAULT_RUNS, DEFAULT_TRIALS,
};
use timeperf::timer::{Mean, Timer, TimerError};

const SECOND: u64 = 1_000_000_000;

/// Hands out a scripted sequence of timestamps.
struct ScriptedClock {
    times: Vec<u64>,
    next: usize,
}

impl ScriptedClock {
    /// Timestamps such that consecutive start/stop pairs measure `intervals`.
    fn from_intervals(intervals: &[u64]) -> ScriptedClock {
        let mut times = Vec::new();
        let mut now: u64 = 1_000;
        for d in intervals {
            times.push(now);
            now += d;
            times.push(now);
            now += 3;
        }
        ScriptedClock { times, next: 0 }
    }
}

impl Clock for ScriptedClock {
    fn now(&mut self) -> u64 {
        let t = self.times[self.next];
        self.next += 1;
        t
    }
}

/// Counts whitespace-separated words; fails on an input that says "fail".
struct WordCounter {
    calls: usize,
}

impl Workload for WordCounter {
    fn run(&mut self, input: &str) -> Result<u64, String> {
        self.calls += 1;
        if input == "fail" {
            Err(String::from("cannot tokenize"))
        } else {
            Ok(input.split_whitespace().count() as u64)
        }
    }
}

fn timer_with(readings: &[u64]) -> Timer {
    let mut t = Timer::new();
    let mut now: u64 = 0;
    for r in readings {
        t.start(now).unwrap();
        now += r;
        t.stop(now).unwrap();
    }
    t
}

fn lines(xs: &[&str]) -> Vec<String> {
    xs.iter().map(|s| s.to_string()).collect()
}

#[test]
fn trial_statistics_trims_one_each_end() {
    let mut t = timer_with(&[5, 1, 9, 3, 9, 1]);
    let s = trial_statistics(&mut t).unwrap();
    assert_eq!(t.readings(), &[5, 3, 9, 1]);
    assert_eq!(s, TrialStatistics { min: 1, average: Mean { total: 18, count: 4 }, max: 9 });
}

#[test]
fn trial_statistics_needs_three_readings() {
    for n in 0..3usize {
        let readings: Vec<u64> = (0..n as u64).collect();
        let mut t = timer_with(&readings);
        assert_eq!(trial_statistics(&mut t), Err(TimerError::EmptySet));
        assert_eq!(t.len(), 0);
    }
}

fn trial(min: u64, total: u128, count: u128, max: u64) -> TrialStatistics {
    TrialStatistics { min, average: Mean { total, count }, max }
}

#[test]
fn aggregate_averages_each_field() {
    let mut a = AggregateStatistics::new(2);
    assert_eq!(a.finish(), None);
    a.add(trial(1, 4, 2, 3));
    a.add(trial(2, 6, 2, 4));
    assert_eq!(a.count(), 2);
    assert_eq!(
        a.finish(),
        Some(Summary {
            min: Mean { total: 3, count: 2 },
            average: Mean { total: 10, count: 4 },
            max: Mean { total: 7, count: 2 },
        })
    );
    let s = a.finish().unwrap();
    assert!(s.min.total * s.average.count <= s.average.total * s.min.count);
    assert!(s.average.total * s.max.count <= s.max.total * s.average.count);
}

#[test]
fn aggregate_keeps_half_nanoseconds() {
    let mut a = AggregateStatistics::new(1);
    a.add(trial(1, 1, 1, 1));
    a.add(trial(2, 2, 1, 2));
    let s = a.finish().unwrap();
    assert_eq!(s.average, Mean { total: 3, count: 2 });
    assert_eq!(s.average.total as f64 / s.average.count as f64, 1.5);
}

#[test]
fn aggregate_holds_largest_values() {
    let mut a = AggregateStatistics::new(3);
    let top = u64::MAX as u128;
    for _ in 0..3 {
        a.add(trial(u64::MAX, 3 * top, 3, u64::MAX));
    }
    assert_eq!(
        a.finish(),
        Some(Summary {
            min: Mean { total: 3 * top, count: 3 },
            average: Mean { total: 9 * top, count: 9 },
            max: Mean { total: 3 * top, count: 3 },
        })
    );
}

#[test]
fn config_validation() {
    assert_eq!(BenchConfig::new(2, 5), Err(ConfigError::TooFewRuns));
    assert_eq!(BenchConfig::new(0, 0), Err(ConfigError::TooFewRuns));
    assert_eq!(BenchConfig::new(3, 0), Err(ConfigError::NoTrials));
    assert_eq!(BenchConfig::new(usize::MAX, 2), Err(ConfigError::TooLarge));
    let c = BenchConfig::new(3, 1).unwrap();
    assert_eq!((c.runs(), c.trials()), (3, 1));
    let d = BenchConfig::default();
    assert_eq!((d.runs(), d.trials()), (DEFAULT_RUNS, DEFAULT_TRIALS));
    assert_eq!((d.runs(), d.trials()), (10, 10));
}

#[test]
fn measure_times_each_pass() {
    let mut t = Timer::new();
    let mut clock = ScriptedClock::from_intervals(&[7, 8, 9]);
    let mut w = WordCounter { calls: 0 };
    let inputs = lines(&["a b c", "d e"]);
    assert_eq!(measure(&mut t, &mut clock, &mut w, &inputs, 3), Ok(15));
    assert_eq!(t.readings(), &[7, 8, 9]);
    assert_eq!(w.calls, 6);
    assert!(!t.is_running());
}

#[test]
fn measure_reports_workload_failure() {
    let mut t = Timer::new();
    let mut clock = ScriptedClock::from_intervals(&[1, 1]);
    let mut w = WordCounter { calls: 0 };
    let inputs = lines(&["ok", "fail"]);
    assert_eq!(
        measure(&mut t, &mut clock, &mut w, &inputs, 2),
        Err(WorkloadFailure { input: 1, message: String::from("cannot tokenize") })
    );
}

#[test]
fn two_trials_of_three_runs() {
    let config = BenchConfig::new(3, 2).unwrap();
    let warmup = [10 * SECOND, 20 * SECOND, 30 * SECOND];
    let trial1 = [SECOND, 2 * SECOND, 3 * SECOND];
    let trial2 = [4 * SECOND, 5 * SECOND, 6 * SECOND];
    let all: Vec<u64> = warmup.iter().chain(&trial1).chain(&trial2).copied().collect();
    let mut clock = ScriptedClock::from_intervals(&all);
    let mut w = WordCounter { calls: 0 };
    let inputs = lines(&["x y"]);
    let report = run_benchmark(&config, &mut clock, &mut w, &inputs).unwrap();
    let seven = 7 * SECOND as u128;
    assert_eq!(
        report.statistics,
        Summary {
            min: Mean { total: seven, count: 2 },
            average: Mean { total: seven, count: 2 },
            max: Mean { total: seven, count: 2 },
        }
    );
    let avg = report.statistics.average;
    assert_eq!(avg.total as f64 / avg.count as f64, 3.5e9);
    assert_eq!(report.warmup_average, Mean { total: 60 * SECOND as u128, count: 3 });
    assert_eq!(report.inputs, 1);
    assert_eq!(report.warmup_result_units, 6);
    assert_eq!(report.result_units, 12);
}

#[test]
fn empty_corpus_measures_without_error() {
    let config = BenchConfig::new(3, 2).unwrap();
    let mut clock = ScriptedClock::from_intervals(&[0; 9]);
    let mut w = WordCounter { calls: 0 };
    let inputs: Vec<String> = Vec::new();
    let report = run_benchmark(&config, &mut clock, &mut w, &inputs).unwrap();
    assert_eq!(report.inputs, 0);
    assert_eq!(report.result_units, 0);
    assert_eq!(report.warmup_result_units, 0);
    assert_eq!(
        report.statistics,
        Summary {
            min: Mean { total: 0, count: 2 },
            average: Mean { total: 0, count: 2 },
            max: Mean { total: 0, count: 2 },
        }
    );
    assert_eq!(w.calls, 0);

    let mut t = Timer::new();
    let mut clock = ScriptedClock::from_intervals(&[4, 0, 2]);
    assert_eq!(measure(&mut t, &mut clock, &mut w, &inputs, 3), Ok(0));
    assert_eq!(t.readings(), &[4, 0, 2]);
}

#[test]
fn benchmark_stops_on_workload_failure() {
    let config = BenchConfig::default();
    let mut clock = ScriptedClock::from_intervals(&[1; 200]);
    let mut w = WordCounter { calls: 0 };
    let inputs = lines(&["a", "fail", "b"]);
    let r = run_benchmark(&config, &mut clock, &mut w, &inputs);
    assert_eq!(r, Err(WorkloadFailure { input: 1, message: String::from("cannot tokenize") }));
    assert_eq!(w.calls, 2);
}

#[test]
fn measure_with_no_runs_does_nothing() {
    let mut t = timer_with(&[4]);
    let mut clock = ScriptedClock::from_intervals(&[]);
    let mut w = WordCounter { calls: 0 };
    let inputs = lines(&["a b"]);
    assert_eq!(measure(&mut t, &mut clock, &mut w, &inputs, 0), Ok(0));
    assert_eq!(t.readings(), &[4]);
    assert_eq!(w.calls, 0);
}
