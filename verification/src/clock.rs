//! The monotonic clock by which delivery failures are timed. The functions
//! here call into the standard library's clock and are not verified; none
//! of them promises anything about the time they read.

use vstd::prelude::*;

verus! {

/// `std::time::Instant`, a point on the monotonic clock. Opaque: the
/// library keeps one as the origin from which it measures.
#[verifier::external_type_specification]
#[verifier::external_body]
pub struct ExInstant(std::time::Instant);

/// Calls `std::time::Instant::now`. Nothing is claimed about the result.
#[verifier::external_body]
pub(crate) fn start_clock() -> (origin: std::time::Instant) {
    std::time::Instant::now()
}

/// Calls `std::time::Instant::elapsed` on `origin` and gives the duration
/// in whole nanoseconds. The result depends on when the call is made, so
/// nothing is claimed about it.
#[verifier::external_body]
pub(crate) fn elapsed_nanos(origin: &std::time::Instant) -> (nanos: u128) {
    origin.elapsed().as_nanos()
}

} // verus!
