//! A bounded-memory streaming summary of weighted observations — a t-digest
//! style sketch — answering approximate cumulative-distribution queries
//! without retaining the observation set, in exact fixed-point arithmetic.

use vstd::prelude::*;

pub mod centroid;
pub mod container;
pub mod digest;
pub mod query;
pub mod sort;

verus! {

// The digest works in fixed-point arithmetic: positions and weights are
// integer counts of ticks, with `SCALE` ticks to one unit. All arithmetic on
// them is exact integer arithmetic, so every quantity a contract speaks of is
// pinned down to the tick.

/// Number of raw ticks in one unit of position or weight.
pub const SCALE: u64 = 1048576;

/// Largest magnitude a centroid position may have, in raw ticks.
pub const VALUE_MAX: i64 = 549755813888;

/// Largest total weight a digest may carry, in raw ticks.
pub const WEIGHT_TOTAL_MAX: u64 = 1099511627776;

/// Largest accepted compression parameter.
pub const DELTA_MAX: u64 = 1048576;

/// A cumulative-distribution value of exactly one, in the fixed-point scale
/// that `cdf` reports.
pub const CDF_ONE: u64 = 4294967296;

/// Upper bound kept on the running variance estimate, in raw ticks.
pub const VARIANCE_MAX: u64 = 1152921504606846976;

} // verus!
