//! A micro-benchmark statistics engine: sample reduction, order-statistics
//! quantiles with an idealized (smoothed) variant, IQR outlier pruning,
//! validated run summaries, run-to-run deviance comparison, and a binary
//! history codec. Timings are integer ticks throughout, so every statistic
//! here is exact arithmetic with stated rounding.

use vstd::prelude::*;

pub mod abacus;
pub mod codec;
pub mod error;
pub mod history;
pub mod render;
pub mod stats;

verus! {

/// Minimum number of samples a benchmark run must retain to be trusted.
pub const MIN_SAMPLES: u32 = 100;

/// Largest raw tick value a sample may carry; larger observations are
/// treated as abnormal and discarded during sample-set construction.
pub const TICK_LIMIT: u64 = 0xFFFF_FFFF;

} // verus!
