//! Points in time and spans of time of the standard library.

use std::time::{Duration, Instant};
use vstd::prelude::*;

verus! {

/// `std::time::Instant`, a reading of the monotonic clock.
#[verifier::external_type_specification]
#[verifier::external_body]
pub struct ExInstant(std::time::Instant);

/// How many nanoseconds a span of time has, as `Duration::as_nanos` tells.
pub uninterp spec fn nanos_of(d: Duration) -> u128;

/// `Duration::as_nanos`: the whole span in nanoseconds.
pub assume_specification[ Duration::as_nanos ](d: &Duration) -> (r: u128)
    ensures
        r == nanos_of(*d),
;

/// `Duration::as_secs`: the whole seconds of the span.
pub assume_specification[ Duration::as_secs ](d: &Duration) -> (r: u64)
    ensures
        r == nanos_of(*d) / 1_000_000_000,
;

/// `Duration::from_secs`: a span of so many whole seconds.
pub assume_specification[ Duration::from_secs ](secs: u64) -> (r: Duration)
    ensures
        nanos_of(r) == secs * 1_000_000_000,
;

/// `Instant::now`: a reading of the clock, of which nothing is known.
pub assume_specification[ Instant::now ]() -> (r: Instant)
;

/// `Instant::elapsed`: the time since the reading, of which nothing is known.
pub assume_specification[ Instant::elapsed ](i: &Instant) -> (r: Duration)
;

} // verus!
