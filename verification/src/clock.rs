//! The system clock.
use vstd::prelude::*;

verus! {

/// Seconds since the Unix epoch (`SystemTime::now()` measured from
/// `UNIX_EPOCH`, 0 for a clock set before the epoch).  The value depends on
/// the moment of the call, so nothing is promised about it.
#[verifier::external_body]
pub(crate) fn now_secs() -> u64 {
    std::time::SystemTime::now().duration_since(std::time::UNIX_EPOCH).unwrap_or_default().as_secs()
}

/// A monotonic clock reading.
#[verifier::external_type_specification]
#[verifier::external_body]
pub struct ExInstant(std::time::Instant);

/// The monotonic clock now (`std::time::Instant::now`).  Nothing is promised
/// of the reading.
#[verifier::external_body]
pub(crate) fn instant_now() -> std::time::Instant {
    std::time::Instant::now()
}

/// Whole seconds since a monotonic reading (`Instant::elapsed`, then
/// `as_secs`).  The value depends on the moment of the call.
#[verifier::external_body]
pub(crate) fn elapsed_secs(start: &std::time::Instant) -> u64 {
    start.elapsed().as_secs()
}

} // verus!
