//! Wall-clock time, read from the standard library.
//!
//! Nothing can be promised of what a clock reads, so the specifications
//! below state no result.
use std::time::{Duration, Instant, SystemTime};
use vstd::prelude::*;

verus! {

#[verifier::external_type_specification]
#[verifier::external_body]
pub struct ExSystemTime(SystemTime);

#[verifier::external_type_specification]
#[verifier::external_body]
pub struct ExInstant(Instant);

/// Relies on `SystemTime::now`: the current wall-clock time.
pub assume_specification[ SystemTime::now ]() -> SystemTime;

/// Relies on `SystemTime::duration_since` with `UNIX_EPOCH`: the time
/// elapsed since the epoch, or `None` where the clock reads earlier.
#[verifier::external_body]
fn since_unix_epoch(t: &SystemTime) -> Option<Duration> {
    t.duration_since(SystemTime::UNIX_EPOCH).ok()
}

/// Relies on `Duration::as_millis`: the whole milliseconds of a duration.
pub assume_specification[ Duration::as_millis ](d: &Duration) -> u128;

/// Relies on `Instant::now`: a reading of the monotonic clock.
pub assume_specification[ Instant::now ]() -> Instant;

/// Relies on `Instant::elapsed`: the time since a reading of the clock.
pub assume_specification[ Instant::elapsed ](t: &Instant) -> Duration;

/// Relies on `Duration::from_millis`: a duration of whole milliseconds.
pub assume_specification[ Duration::from_millis ](millis: u64) -> Duration;

/// A timestamp from the whole milliseconds elapsed since the Unix epoch:
/// their low 64 bits, or 0 where the clock read earlier than the epoch.
pub fn timestamp_from(millis: Option<u128>) -> (r: u64)
    ensures
        r == timestamp_from_spec(millis),
{
    match millis {
        Some(m) => m as u64,
        None => 0,
    }
}

/// Milliseconds since the Unix epoch by the wall clock, or 0 where the
/// clock reads earlier than the epoch.
pub fn unix_millis() -> (r: u64)
    ensures
        exists|millis: Option<u128>| r == timestamp_from_spec(millis),
{
    let millis = match since_unix_epoch(&SystemTime::now()) {
        Some(d) => Some(d.as_millis()),
        None => None,
    };
    timestamp_from(millis)
}

/// What `timestamp_from` returns.
pub open spec fn timestamp_from_spec(millis: Option<u128>) -> u64 {
    match millis {
        Some(m) => m as u64,
        None => 0,
    }
}

} // verus!
