//! Parsing, comparing and tracking `cargo bench` results.
//!
//! The library reads benchmark lines out of libtest's output, pairs the
//! results of a baseline run with those of a current run by name, classifies
//! each change against a threshold, picks out the regressions, keeps a
//! history of runs and writes markdown reports.
//!
//! Time measurements are carried as a type parameter `M`: the library never
//! computes on their values. What is computed from them (percentage changes,
//! their comparison with the threshold, their formatting) is handed in by the
//! caller, and every contract states what is done with what comes back.

pub mod text;
pub mod bench_result;
pub mod bench_parser;
pub mod bench_comparison;
pub mod regression_detector;
pub mod bench_history;
pub mod bench_report;

pub use bench_result::BenchResult;
pub use bench_parser::{BenchParser, ParsedLine};
pub use bench_comparison::{BenchComparison, ComparisonOutcome, Delta};
pub use regression_detector::RegressionDetector;
pub use bench_history::{BenchHistory, HistoryEntry, Timestamp};
pub use bench_report::BenchReport;
