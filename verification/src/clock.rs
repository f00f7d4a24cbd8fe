//! The system clock and spans of time, as the standard library has them.

use std::time::{Duration, SystemTime, SystemTimeError};

use vstd::prelude::*;

verus! {

/// A point in time of the standard library; opaque.
#[verifier::external_type_specification]
#[verifier::external_body]
pub struct ExSystemTime(std::time::SystemTime);

/// The error of a clock that stands before the point it is measured from; opaque.
#[verifier::external_type_specification]
#[verifier::external_body]
pub struct ExSystemTimeError(std::time::SystemTimeError);

/// The nanoseconds that a span of time lasts.
pub uninterp spec fn duration_nanos(span: Duration) -> nat;

/// `Duration::from_secs` makes a span of whole seconds.
pub assume_specification[ Duration::from_secs ](secs: u64) -> (r: Duration)
    ensures
        duration_nanos(r) == secs * 1_000_000_000,
;

/// `Duration::from_millis` makes a span of whole milliseconds.
pub assume_specification[ Duration::from_millis ](millis: u64) -> (r: Duration)
    ensures
        duration_nanos(r) == millis * 1_000_000,
;

/// `Duration::as_millis` counts the whole milliseconds of a span.
pub assume_specification[ Duration::as_millis ](span: &Duration) -> (r: u128)
    ensures
        r == duration_nanos(*span) / 1_000_000,
;

/// `SystemTime::now` reads the clock; nothing is said of what it shows.
pub assume_specification[ SystemTime::now ]() -> SystemTime;

/// The nanoseconds from the Unix epoch to a point in time; negative for one before the epoch.
pub uninterp spec fn epoch_nanos(time: SystemTime) -> int;

/// `SystemTime::duration_since`, from the Unix epoch: the span from the epoch to a point in time,
/// or an error exactly where that point is before the epoch.
#[verifier::external_body]
fn since_epoch(now: SystemTime) -> (r: Result<Duration, SystemTimeError>)
    ensures
        match r {
            Ok(span) => duration_nanos(span) == epoch_nanos(now),
            Err(_) => epoch_nanos(now) < 0,
        },
{
    now.duration_since(std::time::UNIX_EPOCH)
}

/// The text of a [`SystemTimeError`]; nothing is said of it.
#[verifier::external_body]
fn clock_error_text(error: &SystemTimeError) -> String {
    error.to_string()
}

/// The whole milliseconds from the Unix epoch to a point in time; none for one before the epoch.
pub open spec fn epoch_millis(time: SystemTime) -> Option<int> {
    if epoch_nanos(time) < 0 {
        None
    } else {
        Some(epoch_nanos(time) / 1_000_000)
    }
}

/// The milliseconds that a clock reading gives, if it gives any.
pub open spec fn reading_millis(reading: Result<u128, String>) -> Option<int> {
    match reading {
        Ok(millis) => Some(millis as int),
        Err(_) => None,
    }
}

/// Reads the clock: the whole milliseconds since the Unix epoch of the time that it shows, or an
/// error exactly where that time is before the epoch. Which time the clock shows is left open, and
/// so is the text of the error.
pub fn read_clock() -> (r: Result<u128, String>)
    ensures
        exists|time: SystemTime| reading_millis(r) == #[trigger] epoch_millis(time),
{
    let now = SystemTime::now();
    let r = match since_epoch(now) {
        Ok(span) => Ok(span.as_millis()),
        Err(error) => Err(clock_error_text(&error)),
    };
    assert(reading_millis(r) == epoch_millis(now));
    r
}

/// A time has the whole milliseconds that have passed since the epoch, and none before it.
pub proof fn law_milliseconds_are_whole(time: SystemTime)
    ensures
        epoch_nanos(time) < 0 <==> epoch_millis(time) is None,
        epoch_millis(time) matches Some(millis) ==> millis * 1_000_000 <= epoch_nanos(time) < (
        millis + 1) * 1_000_000,
{
}

} // verus!
