//! A real monotonic clock. Fake-tick clocks drift smoltcp's retransmit timers
//! at high throughput, which shows up as spurious retransmissions rather than
//! as a wrong time.

use vstd::prelude::*;

verus! {

/// Time since a fixed reading of a monotonic nanosecond counter. Readings of
/// the counter are handed in.
#[derive(Debug, Clone, Copy)]
pub struct MonoClock {
    epoch_ns: u64,
}

impl MonoClock {
    /// The reading that this clock counts from.
    pub closed spec fn epoch(&self) -> u64 {
        self.epoch_ns
    }

    /// A clock that starts at the reading `now_ns`.
    pub fn new(now_ns: u64) -> (c: Self)
        ensures
            c.epoch() == now_ns,
    {
        MonoClock { epoch_ns: now_ns }
    }

    pub fn epoch_ns(&self) -> (r: u64)
        ensures
            r == self.epoch(),
    {
        self.epoch_ns
    }

    /// Nanoseconds from the start to the reading `now_ns`; 0 for one before it.
    pub fn elapsed_ns(&self, now_ns: u64) -> (r: u64)
        ensures
            r == now_ns.saturating_sub(self.epoch()),
    {
        now_ns.saturating_sub(self.epoch_ns)
    }

    /// Whole milliseconds from the start to the reading `now_ns`.
    pub fn elapsed_ms(&self, now_ns: u64) -> (r: i64)
        ensures
            r == now_ns.saturating_sub(self.epoch()) as int / 1_000_000,
    {
        (self.elapsed_ns(now_ns) / 1_000_000) as i64
    }

    /// The counter reading at which `elapsed_ns` had passed.
    pub fn reading(&self, elapsed_ns: u64) -> (r: u64)
        ensures
            r == elapsed_ns.saturating_add(self.epoch()),
    {
        elapsed_ns.saturating_add(self.epoch_ns)
    }
}

/// Safety net against a hung setup phase spinning forever. Large because it
/// counts poll iterations, not milliseconds.
pub const ITER_BUDGET: u64 = 20_000_000_000;

/// Elapsed time turns back into the reading it came from, for every reading
/// that is not before the start.
pub proof fn law_reading_of_elapsed(c: MonoClock, now_ns: u64)
    requires
        c.epoch() <= now_ns,
    ensures
        now_ns.saturating_sub(c.epoch()).saturating_add(c.epoch()) == now_ns,
{
}

/// A clock never runs backwards.
pub proof fn law_elapsed_monotonic(c: MonoClock, a: u64, b: u64)
    requires
        a <= b,
    ensures
        a.saturating_sub(c.epoch()) <= b.saturating_sub(c.epoch()),
{
}

} // verus!
