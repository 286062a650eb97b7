//! Readings of the system clocks, as plain nanosecond counts.

use std::time::{SystemTime, UNIX_EPOCH};
use tokio::time::Instant;
use vstd::prelude::*;

verus! {

#[verifier::external_type_specification]
#[verifier::external_body]
pub struct ExInstant(Instant);

/// Relies on `tokio::time::Instant::now`: a reading of the monotonic clock,
/// used as the origin from which later readings are measured.
#[verifier::external_body]
pub(crate) fn monotonic_origin() -> Instant {
    Instant::now()
}

/// Relies on `tokio::time::Instant::elapsed` (which saturates at zero):
/// nanoseconds on the monotonic clock since `origin`. Nothing is promised of
/// the value.
#[verifier::external_body]
pub(crate) fn nanos_since(origin: &Instant) -> u64 {
    origin.elapsed().as_nanos() as u64
}

/// Relies on `SystemTime::now` and `SystemTime::duration_since`: the wall
/// clock as nanoseconds since the Unix epoch, `None` for a reading before
/// it. The wall clock may step backwards, so nothing is promised of the value.
#[verifier::external_body]
pub(crate) fn wall_clock_nanos() -> Option<u64> {
    match SystemTime::now().duration_since(UNIX_EPOCH) {
        Ok(d) => Some(d.as_nanos() as u64),
        Err(_) => None,
    }
}

} // verus!
