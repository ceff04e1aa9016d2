//! An accumulating clock: elapsed time is added up and every crossing of the
//! configured interval yields one "ready" signal, so a large frame time can
//! fire several times without the clock drifting behind.

use vstd::prelude::*;

verus! {

/// Accumulating tick clock with a millisecond interval and an enabled flag.
pub struct Timer {
    pub interval_ms: u64,
    pub enabled: bool,
    pub acc_ms: u64,
}

impl Timer {
    /// A timer is well formed when its interval is positive; a zero interval
    /// is rejected at construction so pacing can never divide by zero.
    pub open spec fn wf(self) -> bool {
        self.interval_ms >= 1
    }

    /// The timer signals that at least one full interval has accumulated.
    pub open spec fn spec_ready(self) -> bool {
        self.enabled && self.acc_ms >= self.interval_ms
    }

    /// Creates a timer; the interval must be positive.
    pub fn new(interval_ms: u64, enabled: bool) -> (t: Timer)
        requires
            interval_ms >= 1,
        ensures
            t.wf(),
            t.interval_ms == interval_ms,
            t.enabled == enabled,
            t.acc_ms == 0,
    {
        Timer { interval_ms, enabled, acc_ms: 0 }
    }

    /// Restarts the clock: the accumulator is cleared and the timer enabled.
    pub fn restart(&mut self)
        ensures
            final(self).interval_ms == old(self).interval_ms,
            final(self).enabled,
            final(self).acc_ms == 0,
    {
        self.acc_ms = 0;
        self.enabled = true;
    }

    /// Adds elapsed time to the accumulator (saturating at the top of the
    /// range, far beyond any realistic frame time).
    pub fn update(&mut self, elapsed_ms: u64)
        ensures
            final(self).interval_ms == old(self).interval_ms,
            final(self).enabled == old(self).enabled,
            final(self).acc_ms == old(self).acc_ms.saturating_add(elapsed_ms),
    {
        self.acc_ms = self.acc_ms.saturating_add(elapsed_ms);
    }

    /// Whether a full interval has accumulated.
    pub fn ready(&self) -> (r: bool)
        ensures
            r == self.spec_ready(),
    {
        self.enabled && self.acc_ms >= self.interval_ms
    }

    /// Consumes one interval's worth of accumulated time.
    pub fn consume(&mut self)
        requires
            old(self).spec_ready(),
        ensures
            final(self).interval_ms == old(self).interval_ms,
            final(self).enabled == old(self).enabled,
            final(self).acc_ms == old(self).acc_ms - old(self).interval_ms,
    {
        self.acc_ms = self.acc_ms - self.interval_ms;
    }
}

} // verus!
