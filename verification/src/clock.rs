//! The clock by which pinned blocks age.

use std::time::Instant;
use vstd::prelude::*;

verus! {

/// A monotonic clock that counts nanoseconds from the moment it was
/// started. Copies of a clock tell the same time.
#[derive(Clone, Copy, Debug)]
pub struct PinClock {
    /// The moment the clock was started.
    origin: Instant,
}

impl PinClock {
    /// Starts a clock.
    pub fn start() -> PinClock {
        PinClock { origin: Instant::now() }
    }

    /// The nanoseconds since the clock was started. The answer is the
    /// machine's; callers are verified for every answer.
    pub fn now(&self) -> u128 {
        let elapsed = self.origin.elapsed();
        elapsed.as_nanos()
    }
}

} // verus!
