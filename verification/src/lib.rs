pub mod agg;
pub mod coerce;
pub mod date;
pub mod dec;
pub mod err;
pub mod filter;
pub mod group;
pub mod group_report;
pub mod json;
pub mod line_chart;
pub mod model;
pub mod pie_chart;
pub mod chart;
pub mod plain;
pub mod util;

use vstd::prelude::*;

verus! {

/// Checked addition of two counters; callers guarantee the sum fits.
pub fn add(left: u64, right: u64) -> (r: u64)
    requires
        left + right <= u64::MAX,
    ensures
        r == left + right,
{
    left + right
}

} // verus!
