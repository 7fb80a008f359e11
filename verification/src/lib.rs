//! A process-embedded performance profiler.
//!
//! Application code marks named regions; the profiler measures, per
//! invocation, the cycles consumed exclusive of any nested measured regions,
//! aggregates them by region name across the whole run, and produces a
//! ranked cost report.  Reading the hardware cycle counter itself is left to
//! the caller: every operation takes the current counter value as an
//! argument, which keeps the accounting fully checkable and lets tests drive
//! it with synthetic readings.

pub mod aggregate;
pub mod generator;
pub mod laws;
pub mod metrics;
pub mod model;
pub mod profiler;
pub mod report;
pub mod stack;
