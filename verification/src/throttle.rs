//! Pacing: how many packets may leave in one tick of the clock.

use vstd::prelude::*;

verus! {

/// The length of a tick, in nanoseconds: a millisecond.
pub const TICK: u64 = 1_000_000;

/// The ticks in a second.
pub const TICKS_PER_SECOND: u64 = 1000;

/// The packets of one tick at `max_pps` packets in a second: the thousandth
/// part, and at least one.
pub open spec fn batch_of(max_pps: u64) -> u64 {
    if max_pps / TICKS_PER_SECOND >= 1 {
        max_pps / TICKS_PER_SECOND
    } else {
        1
    }
}

/// A bucket that is filled once a tick with the packets of that tick.
#[derive(Debug, Clone, Copy, PartialEq, Eq, Structural)]
pub struct Throttler {
    max_pps: u64,
}

impl Throttler {
    pub closed spec fn spec_max_pps(self) -> u64 {
        self.max_pps
    }

    /// The packets of one tick.
    pub open spec fn spec_batch(self) -> u64 {
        batch_of(self.spec_max_pps())
    }

    /// A throttler for at most `max_pps` packets in a second.
    pub fn new(max_pps: u64) -> (throttler: Self)
        ensures
            throttler.spec_max_pps() == max_pps,
    {
        Throttler { max_pps }
    }

    pub fn max_pps(&self) -> (max_pps: u64)
        ensures
            max_pps == self.spec_max_pps(),
    {
        self.max_pps
    }

    /// The number of packets that may be sent before the next call, which
    /// is due a tick after this one.
    pub fn next_batch(&mut self) -> (batch: u64)
        ensures
            batch == old(self).spec_batch(),
            batch >= 1,
            *final(self) == *old(self),
    {
        let batch: u64 = self.max_pps / TICKS_PER_SECOND;
        if batch >= 1 {
            batch
        } else {
            1
        }
    }
}

/// The batches of a second are, together, no more than the packets of a
/// second, but for the one packet that every tick may send.
pub proof fn lemma_batches_of_a_second(throttler: Throttler)
    ensures
        throttler.spec_max_pps() >= TICKS_PER_SECOND ==> throttler.spec_batch() * TICKS_PER_SECOND
            <= throttler.spec_max_pps(),
        throttler.spec_max_pps() < TICKS_PER_SECOND ==> throttler.spec_batch() == 1,
{
}

} // verus!
