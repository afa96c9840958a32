//! Wall-clock readings for the timing diagnostics.

use vstd::prelude::*;

verus! {

/// The monotonic clock reading type of std.
#[verifier::external_type_specification]
#[verifier::external_body]
pub struct ExInstant(std::time::Instant);

/// Reads the monotonic clock (`std::time::Instant::now`). Nothing is promised of
/// the reading: it depends on the time.
#[verifier::external_body]
pub(crate) fn clock_now() -> (t: std::time::Instant) {
    std::time::Instant::now()
}

/// Nanoseconds elapsed since `t` (`std::time::Instant::elapsed` then
/// `Duration::as_nanos`, kept to its low 64 bits). Nothing is promised of the
/// value: it depends on the time.
#[verifier::external_body]
pub(crate) fn nanos_since(t: &std::time::Instant) -> (n: u64) {
    t.elapsed().as_nanos() as u64
}

} // verus!
