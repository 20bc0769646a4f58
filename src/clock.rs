//! The wall clock that the searches consult for their time limits.
use vstd::prelude::*;

verus! {

/// std::time::Instant, carried through as an opaque value.
#[verifier::external_type_specification]
#[verifier::external_body]
pub struct ExInstant(std::time::Instant);

/// Relies on std::time::Instant::now: the current instant. Nothing is promised of it.
pub assume_specification[ std::time::Instant::now ]() -> std::time::Instant;

/// Relies on std::time::Instant::elapsed: the time since `start`, zero if the clock
/// went back. Nothing is promised of it.
pub assume_specification[ std::time::Instant::elapsed ](start: &std::time::Instant) -> core::time::Duration;

/// Relies on core::time::Duration::as_nanos: the whole nanoseconds of a duration.
pub assume_specification[ core::time::Duration::as_nanos ](d: &core::time::Duration) -> u128;

} // verus!
