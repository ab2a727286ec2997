//! Readings of the wall clock, as the library uses them for timestamps.

use vstd::prelude::*;

use std::time::{Duration, SystemTime};

verus! {

/// A point in time of the system clock (opaque).
#[verifier::external_type_specification]
#[verifier::external_body]
pub struct ExSystemTime(std::time::SystemTime);

/// Calls `std::time::SystemTime::now`. Nothing is claimed about the time it reads.
#[verifier::external_body]
fn system_now() -> SystemTime {
    SystemTime::now()
}

/// Calls `SystemTime::duration_since(UNIX_EPOCH)` on `t`, giving `None` where it
/// fails, that is where `t` lies before the epoch. Nothing is claimed about the
/// duration.
#[verifier::external_body]
fn since_unix_epoch(t: &SystemTime) -> Option<Duration> {
    match t.duration_since(std::time::UNIX_EPOCH) {
        Ok(d) => Some(d),
        Err(_) => None,
    }
}

/// Calls `Duration::as_nanos`. Nothing is claimed about the number.
#[verifier::external_body]
fn duration_nanos(d: &Duration) -> u128 {
    d.as_nanos()
}

/// Calls `Duration::as_millis`. Nothing is claimed about the number.
#[verifier::external_body]
fn duration_millis(d: &Duration) -> u128 {
    d.as_millis()
}

/// The wall clock in nanoseconds since the Unix epoch, truncated to 64 bits;
/// `0` where the clock reads before the epoch.
pub(crate) fn unix_nanos() -> (t: u64) {
    let now = system_now();
    match since_unix_epoch(&now) {
        Some(d) => (duration_nanos(&d) % 0x1_0000_0000_0000_0000u128) as u64,
        None => 0,
    }
}

/// The wall clock in milliseconds since the Unix epoch, truncated to 64 bits;
/// `0` where the clock reads before the epoch.
pub(crate) fn unix_millis() -> (t: u64) {
    let now = system_now();
    match since_unix_epoch(&now) {
        Some(d) => (duration_millis(&d) % 0x1_0000_0000_0000_0000u128) as u64,
        None => 0,
    }
}

} // verus!
