//! Game-news notification library: freshness evaluation, platform
//! filtering, channel registry persistence, and delivery deduplication.

pub mod api;
pub mod freshness;
pub mod ids;
pub mod news;
pub mod registry;
pub mod platforms;
pub mod text;

use vstd::prelude::*;

verus! {

/// Clamp a requested look-back window, in weeks, to the supported range.
pub fn clamp_weeks(weeks: i64) -> (r: u32)
    ensures
        1 <= r <= 52,
        1 <= weeks <= 52 ==> r == weeks,
        weeks < 1 ==> r == 1,
        weeks > 52 ==> r == 52,
{
    if weeks < 1 {
        1
    } else if weeks > 52 {
        52
    } else {
        weeks as u32
    }
}

} // verus!
