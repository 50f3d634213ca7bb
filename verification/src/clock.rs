//! Wall-clock access for the timed run mode.

use vstd::prelude::*;

verus! {

/// `std::time::Instant` is opaque to the verifier: a timestamp carried
/// between the trusted clock calls below.
#[verifier::external_type_specification]
#[verifier::external_body]
pub struct ExInstant(std::time::Instant);

/// Relies on `std::time::Instant::now`: a timestamp of the present moment.
/// The clock decides the value, so nothing is assumed of it.
#[verifier::external_body]
pub(crate) fn instant_now() -> std::time::Instant {
    std::time::Instant::now()
}

/// Relies on `std::time::Instant::elapsed`: the time since `start`. The
/// clock decides the value, so nothing is assumed of it.
#[verifier::external_body]
pub(crate) fn elapsed_since(start: &std::time::Instant) -> core::time::Duration {
    start.elapsed()
}

/// Relies on the derived `PartialOrd` of `core::time::Duration`: whether `a`
/// is longer than `b`. Durations are opaque here, so nothing is assumed.
#[verifier::external_body]
pub(crate) fn duration_exceeds(a: &core::time::Duration, b: &core::time::Duration) -> bool {
    a > b
}

} // verus!
