//! The fixed-interval driver of the pipeline. Ticks are strictly
//! sequential: the caller runs one full consolidate-and-sweep cycle, then
//! reports when it finished; the scheduler says when the next tick is due.
//! The first tick is due immediately, and a slow tick postpones the next
//! one rather than letting missed ticks fire back to back.

use vstd::prelude::*;

verus! {

/// The reference tick period.
pub const TICK_PERIOD_MILLIS: u64 = 5000;

/// When the next tick is due, given when the previous one was due and when
/// its cycle finished: one period after the previous due time, or right at
/// the finish when the cycle overran the period — never earlier, so missed
/// ticks are delayed, not burst.
pub open spec fn spec_next_due(prev_due: u64, period: u64, finished_at: u64) -> int {
    if finished_at > prev_due + period {
        finished_at as int
    } else {
        prev_due + period
    }
}

/// The tick clock of the pipeline, in the caller's milliseconds.
pub struct Scheduler {
    pub next_due: u64,
    pub period_millis: u64,
}

impl Scheduler {
    /// A scheduler whose first tick is due immediately.
    pub fn new(now: u64, period_millis: u64) -> (s: Scheduler)
        ensures
            s.next_due == now,
            s.period_millis == period_millis,
    {
        Scheduler { next_due: now, period_millis }
    }

    /// Records that the tick due at `next_due` has fully completed at
    /// `finished_at`; the next tick becomes due one period later, or at the
    /// completion itself when the cycle overran — one delayed tick, no
    /// catch-up bursts.
    pub fn tick_completed(&mut self, finished_at: u64)
        requires
            old(self).next_due + old(self).period_millis <= u64::MAX,
        ensures
            final(self).period_millis == old(self).period_millis,
            final(self).next_due == spec_next_due(
                old(self).next_due,
                old(self).period_millis,
                finished_at,
            ),
            final(self).next_due >= old(self).next_due + old(self).period_millis
                || final(self).next_due == finished_at,
    {
        let scheduled = self.next_due + self.period_millis;
        if finished_at > scheduled {
            self.next_due = finished_at;
        } else {
            self.next_due = scheduled;
        }
    }
}

} // verus!
