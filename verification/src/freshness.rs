//! Interpreting item timestamps: a `YYYY-MM-DD HH:MM:SS` string is read
//! as naive local time in the fixed source time zone (America/Los_Angeles)
//! and compared against the current instant.

use vstd::prelude::*;

use chrono::TimeZone;

verus! {

/// The absolute instant, as Unix seconds, that a timestamp string denotes
/// when read as local time in the source time zone — if it denotes
/// exactly one such instant.
pub uninterp spec fn pacific_epoch_of(s: Seq<char>) -> Option<i64>;

/// Relies on chrono's `NaiveDateTime::parse_from_str` with the fixed
/// `%Y-%m-%d %H:%M:%S` format and chrono-tz's `America::Los_Angeles`
/// zone lookup: both depend on the string alone. The result is `None`
/// when the string does not parse, or when the named local time is
/// skipped or ambiguous across a daylight-saving transition.
#[verifier::external_body]
pub fn parse_pacific_timestamp(s: &str) -> (r: Option<i64>)
    ensures
        r == pacific_epoch_of(s@),
{
    match chrono::NaiveDateTime::parse_from_str(s, "%Y-%m-%d %H:%M:%S") {
        Ok(naive) => match chrono_tz::America::Los_Angeles.from_local_datetime(&naive) {
            chrono::LocalResult::Single(t) => Some(t.timestamp()),
            _ => None,
        },
        Err(_) => None,
    }
}

/// Relies on chrono's `Utc::now`: the current clock reading, as Unix
/// seconds. Nothing can be promised of a clock reading.
#[verifier::external_body]
pub fn now_epoch_seconds() -> i64 {
    chrono::Utc::now().timestamp()
}

pub open spec fn abs_diff(a: int, b: int) -> int {
    if a >= b {
        a - b
    } else {
        b - a
    }
}

/// Whether the timestamp denotes an instant within `threshold` seconds
/// of `now`, in either direction; never true for a string that denotes
/// no instant.
pub open spec fn spec_fresh(updated: Seq<char>, now: int, threshold: int) -> bool {
    match pacific_epoch_of(updated) {
        Some(t) => abs_diff(now, t as int) <= threshold,
        None => false,
    }
}

/// Freshness with a window of whole weeks.
pub open spec fn spec_within_weeks(updated: Seq<char>, now: int, weeks: int) -> bool {
    spec_fresh(updated, now, weeks * 7 * 24 * 60 * 60)
}

/// Whether `updated` is within `threshold` seconds of the instant `now`.
pub fn fresh_at(updated: &str, now: i64, threshold: u64) -> (r: bool)
    ensures
        r == spec_fresh(updated@, now as int, threshold as int),
{
    match parse_pacific_timestamp(updated) {
        Some(t) => {
            let diff: i128 = (now as i128) - (t as i128);
            let ad: i128 = if diff >= 0 {
                diff
            } else {
                -diff
            };
            ad <= threshold as i128
        },
        None => false,
    }
}

/// Whether `updated` is within `weeks` whole weeks of the instant `now`.
pub fn within_weeks_at(updated: &str, now: i64, weeks: u32) -> (r: bool)
    ensures
        r == spec_within_weeks(updated@, now as int, weeks as int),
{
    let secs: u64 = (weeks as u64) * 7 * 24 * 60 * 60;
    fresh_at(updated, now, secs)
}

/// Freshness is symmetric in time direction: a clock reading `delta`
/// seconds after the item's instant and one `delta` seconds before it
/// evaluate identically, for every threshold.
pub proof fn lemma_fresh_time_symmetric(updated: Seq<char>, e: i64, delta: int, threshold: int)
    requires
        pacific_epoch_of(updated) == Some(e),
    ensures
        spec_fresh(updated, e + delta, threshold) == spec_fresh(updated, e - delta, threshold),
{
}

/// A string that denotes no instant is never fresh and never within any
/// window, whatever the clock reads.
pub proof fn lemma_malformed_never_fresh(updated: Seq<char>, now: int, threshold: int, weeks: int)
    requires
        pacific_epoch_of(updated) is None,
    ensures
        !spec_fresh(updated, now, threshold),
        !spec_within_weeks(updated, now, weeks),
{
}

} // verus!
