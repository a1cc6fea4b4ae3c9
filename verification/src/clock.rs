//! The wall clock, read in whole seconds since the Unix epoch.

use std::time::{Duration, SystemTime, UNIX_EPOCH};
use vstd::prelude::*;

verus! {

/// Declares `std::time::SystemTime`, an opaque instant of the system clock.
#[verifier::external_type_specification]
#[verifier::external_body]
pub struct ExSystemTime(SystemTime);

/// Calls `SystemTime::now`. Nothing is stated of the instant: it is whatever the
/// system clock reads at the moment of the call.
#[verifier::external_body]
fn system_time_now() -> SystemTime {
    SystemTime::now()
}

/// Calls `SystemTime::duration_since` against `UNIX_EPOCH`; `None` stands for its
/// error (an instant before the epoch). Nothing is stated of the duration, which
/// depends on the clock reading held in `t`.
#[verifier::external_body]
fn duration_since_unix_epoch(t: &SystemTime) -> Option<Duration> {
    t.duration_since(UNIX_EPOCH).ok()
}

/// Calls `Duration::as_secs`: the whole seconds of `d`. `Duration` is opaque
/// here, so nothing is stated of the number.
#[verifier::external_body]
fn duration_as_secs(d: &Duration) -> u64 {
    d.as_secs()
}

/// The current wall-clock time in whole seconds since the Unix epoch; 0 where the
/// clock reads a time before the epoch.
pub fn unix_now_secs() -> u64 {
    let now = system_time_now();
    match duration_since_unix_epoch(&now) {
        Some(d) => duration_as_secs(&d),
        None => 0,
    }
}

} // verus!
