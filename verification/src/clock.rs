//! The clock that times a decision. Nothing is proved of its readings, and
//! no contract of this library depends on them.

use std::time::Duration;
use std::time::Instant;
use vstd::prelude::*;

verus! {

/// `std::time::Instant`: a reading of the monotonic clock, carried from the
/// start of a measurement to its end and never looked into.
#[verifier::external_type_specification]
#[verifier::external_body]
pub struct ExInstant(Instant);

/// `Instant::now` reads the clock. Nothing is claimed of the reading.
pub assume_specification[ Instant::now ]() -> (start: Instant)
;

/// `Instant::elapsed` gives the time since the reading was taken. Nothing is
/// claimed of the duration.
pub assume_specification[ Instant::elapsed ](start: &Instant) -> (taken: Duration)
;

/// `Duration::as_micros` gives the whole microseconds of a duration. Nothing
/// is claimed of the number.
pub assume_specification[ Duration::as_micros ](taken: &Duration) -> (micros: u128)
;

/// The microseconds that have passed since `start`, cut to 64 bits.
pub(crate) fn micros_since(start: &Instant) -> (micros: u64) {
    let taken = start.elapsed();
    let micros: u128 = taken.as_micros();
    low_64_bits(micros)
}

/// A count of microseconds cut to 64 bits: the count itself where it fits,
/// and its remainder modulo 2^64 where it does not.
fn low_64_bits(micros: u128) -> (cut: u64)
    ensures
        cut == micros % 0x1_0000_0000_0000_0000,
{
    assert(micros as u64 == micros % 0x1_0000_0000_0000_0000) by (bit_vector);
    #[verifier::truncate]
    (micros as u64)
}

} // verus!
