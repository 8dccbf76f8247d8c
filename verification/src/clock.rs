//! Monotonic time, counted in nanoseconds from a starting point.

use std::time::Instant;
use vstd::prelude::*;

verus! {

/// `std::time::Instant`, opaque.
#[verifier::external_type_specification]
#[verifier::external_body]
pub struct ExInstant(Instant);

/// `Instant::now`: some point in time; nothing is claimed of it.
#[verifier::external_body]
fn instant_now() -> (now: Instant) {
    Instant::now()
}

/// `Instant::elapsed`, in nanoseconds: the time since `start`; nothing is claimed of it.
#[verifier::external_body]
fn elapsed_nanos(start: &Instant) -> (nanos: u128) {
    start.elapsed().as_nanos()
}

/// A clock that counts nanoseconds from when it was made.
#[derive(Debug)]
pub struct Stopwatch {
    start: Instant,
}

impl Stopwatch {
    /// A clock that starts now.
    pub fn start() -> (clock: Stopwatch) {
        Stopwatch { start: instant_now() }
    }

    /// The nanoseconds since the clock started. Every value is possible, and two readings need
    /// not be in order.
    pub fn read(&self) -> (nanos: u128) {
        elapsed_nanos(&self.start)
    }
}

} // verus!
