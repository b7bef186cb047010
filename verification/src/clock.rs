//! The wall clock, taken on trust: the engine only compares elapsed time
//! against its budget, and no proof rests on what the clock returns.

use vstd::prelude::*;

verus! {

#[verifier::external_type_specification]
#[verifier::external_body]
pub struct ExInstant(std::time::Instant);

/// Relies on std::time::Instant::now: an opaque reading of the clock, about
/// which nothing is promised.
#[verifier::external_body]
pub fn clock_now() -> std::time::Instant {
    std::time::Instant::now()
}

/// Relies on std::time::Instant::elapsed: the time since the reading was
/// taken, about which nothing is promised.
#[verifier::external_body]
pub fn elapsed_since(t: &std::time::Instant) -> core::time::Duration {
    t.elapsed()
}

/// Relies on core::time::Duration::as_millis: the span in whole milliseconds,
/// truncated to sixty-four bits.
#[verifier::external_body]
pub fn duration_millis(d: &core::time::Duration) -> u64 {
    d.as_millis() as u64
}

} // verus!
