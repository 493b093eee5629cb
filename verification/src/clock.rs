//! Wall-clock measurement of page assembly.
use std::time::{Duration, Instant};
use vstd::prelude::*;

verus! {

/// `std::time::Instant`, carried through verified code unopened.
#[verifier::external_type_specification]
#[verifier::external_body]
pub struct ExInstant(Instant);

/// Calls `Instant::now`. Nothing is claimed of the reading.
#[verifier::external_body]
pub(crate) fn start_timer() -> (started: Instant) {
    Instant::now()
}

/// Calls `Instant::elapsed`: the time since `started`. Nothing is claimed of
/// the value, which depends on the clock.
#[verifier::external_body]
fn elapsed_since(started: &Instant) -> (d: Duration) {
    started.elapsed()
}

/// Calls `Duration::as_millis`. Nothing is claimed of the value: it is only
/// ever taken of a clock reading.
#[verifier::external_body]
fn whole_millis(d: &Duration) -> (ms: u128) {
    d.as_millis()
}

/// `ms` milliseconds as a `u64`, saturating at `u64::MAX`.
pub fn millis_as_u64(ms: u128) -> (out: u64)
    ensures
        out == (if ms <= u64::MAX as u128 {
            ms as u64
        } else {
            u64::MAX
        }),
{
    if ms <= u64::MAX as u128 {
        ms as u64
    } else {
        u64::MAX
    }
}

/// Milliseconds since `started`, saturating at `u64::MAX`. The reading
/// depends on the clock, so nothing is claimed of it; `millis_as_u64` states
/// the conversion.
pub fn elapsed_ms(started: &Instant) -> u64 {
    let d = elapsed_since(started);
    let ms = whole_millis(&d);
    millis_as_u64(ms)
}

} // verus!
