//! Forecasts the next-period direction and price of a financial instrument
//! from a historical price series, with two independent models: a bagged
//! ensemble of decision trees voting on up/down movement, and a Monte Carlo
//! simulation of price paths under geometric Brownian motion.
//!
//! All quantities are held in fixed point: a price, return, variance or
//! accuracy is an integer number of micro-units (`MICROS` to one unit), so
//! that every computation of the core is exact integer arithmetic.

use vstd::prelude::*;

pub mod estimator;
pub mod forest;
pub mod predictor;
pub mod rng;
pub mod simulate;
pub mod split;
pub mod stock;
pub mod tree;

verus! {

/// One unit, expressed in micro-units: the scale of every fixed-point value.
pub const MICROS: i64 = 1_000_000;

/// Half a unit in micro-units; the below-chance boundary for accuracies.
pub const HALF_MICROS: i64 = 500_000;

/// Largest record count the pipeline accepts; keeps every sum in range.
pub const MAX_RECORDS: usize = 100_000;

/// Largest close price, in micro-units, the estimator accepts.
pub const MAX_CLOSE_MICROS: i64 = 1_000_000_000_000;

/// Daily returns saturate at this many micro-units in magnitude (1000%).
pub const RETURN_CLAMP_MICROS: i64 = 10_000_000;

/// Estimated variances saturate here; far above any reachable value.
pub const MAX_VARIANCE_MICROS: i64 = 1_000_000_000;

/// `e`, rounded down to micro-units.
pub const E_MICROS: i64 = 2_718_281;

/// Arguments to the exponential saturate at 18 units in magnitude.
pub const EXP_ARG_CLAMP_MICROS: i64 = 18_000_000;

/// The exponential saturates here (above `e^18` in micro-units).
pub const EXP_CAP_MICROS: u64 = 100_000_000_000_000;

/// Simulated prices saturate here, in micro-units.
pub const PATH_CAP_MICROS: u64 = 1_000_000_000_000_000;

/// Trees trained per forest.
pub const NUM_TREES: usize = 100;

/// Features drawn (without replacement) for each split search.
pub const FEATURE_SUBSET: usize = 2;

/// Depth bound for a single decision tree.
pub const MAX_DEPTH: usize = 16;

/// Independent classification runs aggregated by the orchestrator.
pub const NUM_RUNS: usize = 10;

/// Simulated horizon in days, counting the known starting day as row 0.
pub const NUM_DAYS: usize = 30;

/// Independent Monte Carlo trials per simulated day.
pub const NUM_TRIALS: usize = 50_000;

/// Train fraction, in micro-units, used by the per-run forest pipeline.
pub const TRAIN_FRACTION_MICROS: i64 = 900_000;

/// Every failure of the core names the precondition that was violated.
/// No failure is retried internally: each one marks structurally invalid
/// input and is returned to the caller.
#[derive(Debug, Clone, Copy, PartialEq, Eq, Structural)]
pub enum PredictError {
    /// The train fraction handed to the splitter was outside (0, 1).
    InvalidFractionError,
    /// The splitter was handed an empty record sequence.
    EmptyDatasetError,
    /// An accuracy was requested over an empty test set.
    EmptyTestSetError,
    /// Fewer than two records: no daily return is defined.
    InsufficientHistoryError,
    /// The simulator was asked for a non-positive horizon or trial count,
    /// or a negative variance.
    InvalidParameterError,
    /// Training was degenerate: no trees requested or no rows to fit.
    ModelFitError,
}

} // verus!
