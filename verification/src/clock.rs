//! The wall clock.
use std::time::{Duration, SystemTime, SystemTimeError, UNIX_EPOCH};
use vstd::prelude::*;

verus! {

/// `std::time::SystemTime`, a moment. Opaque.
#[verifier::external_type_specification]
#[verifier::external_body]
pub struct ExSystemTime(SystemTime);

/// `std::time::SystemTimeError`: a moment lies before another. Opaque.
#[verifier::external_type_specification]
#[verifier::external_body]
pub struct ExSystemTimeError(SystemTimeError);

/// `SystemTime::now`: the current moment. Nothing is claimed of it.
#[verifier::external_body]
fn system_now() -> (r: SystemTime) {
    SystemTime::now()
}

/// `SystemTime::duration_since` from the Unix epoch on: the time that has passed, or an
/// error where the clock is set before it. Nothing is claimed of it.
#[verifier::external_body]
fn since_epoch(t: SystemTime) -> (r: Result<Duration, SystemTimeError>) {
    t.duration_since(UNIX_EPOCH)
}

/// `Duration::as_millis`: a duration in whole milliseconds. Nothing is claimed of it, as
/// nothing is claimed of the duration.
#[verifier::external_body]
fn as_millis(d: Duration) -> (r: u128) {
    d.as_millis()
}

/// A time in milliseconds as far as it fits into 64 bits; 0 where there is none.
pub fn low_millis(elapsed: Option<u128>) -> (r: u64)
    ensures
        r == (match elapsed {
            Some(ms) => ms % 0x1_0000_0000_0000_0000,
            None => 0,
        }),
{
    match elapsed {
        Some(ms) => (ms % 0x1_0000_0000_0000_0000) as u64,
        None => 0,
    }
}

/// Milliseconds since the Unix epoch; 0 where the clock is set before it.
pub fn now_millis() -> (r: u64) {
    match since_epoch(system_now()) {
        Ok(d) => low_millis(Some(as_millis(d))),
        Err(_) => low_millis(None),
    }
}

} // verus!
