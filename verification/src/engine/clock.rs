//! Measuring how long something takes.
use std::time::{Duration, Instant};
use vstd::prelude::*;

verus! {

#[verifier::external_type_specification]
#[verifier::external_body]
pub struct ExInstant(Instant);

/// `Instant::now` reads a clock. Nothing is claimed of what it reads.
pub assume_specification[ Instant::now ]() -> Instant
;

/// `Instant::elapsed` reads the clock again. Nothing is claimed of the time that has
/// passed.
pub assume_specification[ Instant::elapsed ](start: &Instant) -> Duration
;

/// `Duration::as_millis` counts whole milliseconds. Nothing is claimed of how many a
/// duration holds.
pub assume_specification[ Duration::as_millis ](d: &Duration) -> u128
;

/// The milliseconds since `start`, whatever the clock says; see [`low_ms`].
pub fn elapsed_ms(start: &Instant) -> u64 {
    low_ms(start.elapsed().as_millis())
}

/// A number of milliseconds, of which the lower 64 bits are kept: the number itself up
/// to `u64::MAX`, and beyond that its remainder.
pub fn low_ms(millis: u128) -> (r: u64)
    ensures
        r == millis % 0x1_0000_0000_0000_0000,
        millis <= u64::MAX ==> r == millis,
{
    assert(millis as u64 == millis % 0x1_0000_0000_0000_0000) by (bit_vector);
    #[verifier::truncate]
    (millis as u64)
}

} // verus!
