//! The time of day.

use std::time::{Duration, SystemTime};
use vstd::prelude::*;

verus! {

/// `std::time::SystemTime`: a point in time of the system's clock.
#[verifier::external_type_specification]
#[verifier::external_body]
pub struct ExSystemTime(SystemTime);

/// `SystemTime::now` reads the system's clock; nothing is known of what it shows.
pub assume_specification[ SystemTime::now ]() -> (r: SystemTime)
;

/// Calls `SystemTime::duration_since` for the span from the Unix epoch to `t`; there is none
/// where `t` lies before the epoch. Nothing is known of `t`, nor of the span.
#[verifier::external_body]
fn since_epoch(t: &SystemTime) -> (r: Option<Duration>) {
    t.duration_since(std::time::UNIX_EPOCH).ok()
}

/// `Duration::as_millis` counts the whole milliseconds of a span of time.
pub assume_specification[ Duration::as_millis ](d: &Duration) -> (r: u128)
;

/// The milliseconds of a clock that shows `since` of them since the epoch: their lowest 64
/// bits, or 0 where the clock stands before the epoch.
pub open spec fn ms_shown(since: Option<u128>) -> u64 {
    match since {
        Some(m) => m as u64,
        None => 0,
    }
}

/// The milliseconds of a clock that shows `since` of them since the epoch.
pub fn clock_ms(since: Option<u128>) -> (r: u64)
    ensures
        r == ms_shown(since),
{
    match since {
        Some(m) => m as u64,
        None => 0,
    }
}

/// The milliseconds since the epoch that the system's clock shows.
pub fn now_ms() -> (r: u64)
    ensures
        exists|since: Option<u128>| r == ms_shown(since),
{
    let since = match since_epoch(&SystemTime::now()) {
        Some(d) => Some(d.as_millis()),
        None => None,
    };
    clock_ms(since)
}

/// A clock shows the milliseconds since the epoch as far as 64 bits hold them, and none where it
/// stands before the epoch.
pub proof fn law_clock(m: u128)
    ensures
        ms_shown(None) == 0,
        m <= u64::MAX ==> ms_shown(Some(m)) == m,
{
}

} // verus!
