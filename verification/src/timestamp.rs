//! The monotonic timestamp source.
//!
//! Timestamps order operations within a replica. The clock hands out the
//! wall-clock time in nanoseconds when it has advanced, and the last
//! value plus one when it has not, so repeated calls in the same tick
//! still yield strictly increasing values until the counter's range is
//! exhausted.

use vstd::prelude::*;
use std::time::{SystemTime, UNIX_EPOCH};

verus! {

/// Relies on `std::time::SystemTime::now` for the wall clock; nothing is
/// promised of the value it returns.
#[verifier::external_body]
fn wall_clock_nanos() -> u64 {
    SystemTime::now().duration_since(UNIX_EPOCH).map(|d| d.as_nanos() as u64).unwrap_or(0)
}

/// The strictly monotonic timestamp source of one replica.
#[derive(Debug)]
pub struct MonotonicClock {
    /// The highest timestamp handed out so far.
    pub last: u64,
}

impl MonotonicClock {
    /// A clock that has handed out nothing yet.
    pub fn new() -> (r: MonotonicClock)
        ensures
            r.last == 0,
    {
        MonotonicClock { last: 0 }
    }

    /// The next timestamp: strictly above everything handed out before,
    /// as long as the counter's range is not exhausted.
    pub fn next(&mut self) -> (r: u64)
        ensures
            final(self).last == r,
            r >= old(self).last,
            old(self).last < u64::MAX ==> r > old(self).last,
    {
        let wall = wall_clock_nanos();
        if wall > self.last {
            self.last = wall;
        } else if self.last < u64::MAX {
            self.last = self.last + 1;
        }
        self.last
    }
}

/// Generates a monotonically increasing timestamp from the clock.
pub fn next_monotonic_timestamp(clock: &mut MonotonicClock) -> (r: u64)
    ensures
        final(clock).last == r,
        r >= old(clock).last,
        old(clock).last < u64::MAX ==> r > old(clock).last,
{
    clock.next()
}

} // verus!
