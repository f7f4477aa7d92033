//! Micro-benchmark timing: a timer over recorded intervals, trimmed per-trial
//! statistics, and a warm-up-then-trials runner over an abstract workload.

pub mod bench;
pub mod harness;
pub mod timer;
