//! Seconds since the Unix epoch, for seeding a run from the clock.
use std::time::{Duration, SystemTime, SystemTimeError};
use vstd::prelude::*;

verus! {

/// std's wall-clock time, carried as an opaque value.
#[verifier::external_type_specification]
#[verifier::external_body]
pub struct ExSystemTime(std::time::SystemTime);

/// std's error for a time that lies before the one it is measured from.
#[verifier::external_type_specification]
#[verifier::external_body]
pub struct ExSystemTimeError(std::time::SystemTimeError);

/// Relies on std's `SystemTime::now`: the clock's current time, of which
/// nothing is known in advance.
pub assume_specification[ std::time::SystemTime::now ]() -> std::time::SystemTime;

/// Relies on std's `SystemTime::duration_since`: the time elapsed since
/// `earlier`, or an error where `earlier` lies later.
pub assume_specification[ std::time::SystemTime::duration_since ](
    t: &std::time::SystemTime,
    earlier: std::time::SystemTime,
) -> Result<std::time::Duration, std::time::SystemTimeError>;

/// Relies on std's `Duration::as_secs`: the whole seconds of a duration.
pub assume_specification[ std::time::Duration::as_secs ](d: &std::time::Duration) -> u64;

/// Relies on std's `UNIX_EPOCH` constant: 1970-01-01 00:00:00 UTC.
#[verifier::external_body]
fn unix_epoch() -> SystemTime {
    std::time::UNIX_EPOCH
}

/// The whole seconds elapsed since the Unix epoch by the system clock, or
/// `None` where the clock reads a time before it.
pub fn time_since_epoch() -> Option<u64> {
    let elapsed: Result<Duration, SystemTimeError> = SystemTime::now().duration_since(unix_epoch());
    match elapsed {
        Ok(d) => Some(d.as_secs()),
        Err(_) => None,
    }
}

} // verus!
