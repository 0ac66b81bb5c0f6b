//! Reading the wall clock as milliseconds since the Unix epoch.
use vstd::prelude::*;
use std::time::SystemTime;

verus! {

/// `std::time::SystemTime`, carried through opaquely.
#[verifier::external_type_specification]
#[verifier::external_body]
pub struct ExSystemTime(SystemTime);

/// Calls `SystemTime::now`. The result is the current time of the system
/// clock; nothing is stated of it.
#[verifier::external_body]
fn system_time_now() -> SystemTime {
    SystemTime::now()
}

/// Calls `SystemTime::duration_since` with the Unix epoch and converts the
/// duration to whole milliseconds; a time before the epoch, which that call
/// reports as an error, becomes 0. Nothing is stated of the value, which
/// depends on the clock.
#[verifier::external_body]
fn millis_since_unix_epoch(t: &SystemTime) -> u128 {
    match t.duration_since(SystemTime::UNIX_EPOCH) {
        Ok(d) => d.as_millis(),
        Err(_) => 0,
    }
}

/// Milliseconds elapsed since the Unix epoch by the system clock, or 0 when
/// the clock reads a time before the epoch. Nothing is stated of the value:
/// it is whatever the clock reads, and any value of the type may be read.
pub fn unix_millis_now() -> u128 {
    let t = system_time_now();
    millis_since_unix_epoch(&t)
}

} // verus!
