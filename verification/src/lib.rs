//! Core engine of a disk-usage analyzer: a tree store of filesystem nodes
//! keyed by canonical path, incremental size aggregation, a prioritized
//! scan scheduler, and reconciliation of live filesystem changes.
//!
//! All I/O (walking a real filesystem, change notification) lives outside
//! this crate; the engine works on plain values handed in by its driver.

use vstd::prelude::*;

pub mod agg;
pub mod builder;
pub mod node;
pub mod paths;
pub mod query;
pub mod reconcile;
pub mod remove;
pub mod sched;
pub mod store;

verus! {

/// Returns `a + b`, saturating at `u64::MAX`.
///
/// Sizes are accumulated with saturation so that aggregation is total;
/// on real inputs the sums stay far below the limit and are exact.
pub fn sat_add_u64(a: u64, b: u64) -> (r: u64)
    ensures
        r == spec_sat_add(a, b),
{
    if a <= u64::MAX - b {
        a + b
    } else {
        u64::MAX
    }
}

/// Saturating addition on `u64`, the model of `sat_add_u64`.
pub open spec fn spec_sat_add(a: u64, b: u64) -> u64 {
    if a + b <= u64::MAX {
        (a + b) as u64
    } else {
        u64::MAX
    }
}

} // verus!
