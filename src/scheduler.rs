use vstd::prelude::*;

verus! {

/// What the background loop does on a timer tick.
#[derive(Clone, Copy, Debug, PartialEq, Eq, Structural)]
pub enum TickAction {
    /// Run one pass now; report back with `pass_finished` when it is over.
    RunPass,
    /// A pass is still running: drop this tick, do not queue it.
    SkipTick,
    /// The scheduler was stopped: leave the loop.
    Stop,
}

/// The decisions of the periodic reconciliation loop, with a single-slot
/// in-flight guard so that passes never overlap or pile up.
pub struct ReconciliationScheduler {
    in_flight: bool,
    stopped: bool,
}

impl ReconciliationScheduler {
    /// A pass started by this scheduler has not yet been reported finished.
    pub closed spec fn in_flight(&self) -> bool {
        self.in_flight
    }

    /// A stop was requested.
    pub closed spec fn stopped(&self) -> bool {
        self.stopped
    }

    /// An idle, running scheduler.
    pub fn new() -> (r: ReconciliationScheduler)
        ensures
            !r.in_flight(),
            !r.stopped(),
    {
        ReconciliationScheduler { in_flight: false, stopped: false }
    }

    /// Decides what a timer tick does. A pass is started only when none is in flight.
    pub fn on_tick(&mut self) -> (r: TickAction)
        ensures
            old(self).stopped() ==> r == TickAction::Stop,
            !old(self).stopped() && old(self).in_flight() ==> r == TickAction::SkipTick,
            !old(self).stopped() && !old(self).in_flight() ==> r == TickAction::RunPass,
            final(self).stopped() == old(self).stopped(),
            final(self).in_flight() == (old(self).in_flight() || r == TickAction::RunPass),
    {
        if self.stopped {
            TickAction::Stop
        } else if self.in_flight {
            TickAction::SkipTick
        } else {
            self.in_flight = true;
            TickAction::RunPass
        }
    }

    /// Reports that the pass in flight is over, freeing the slot.
    pub fn pass_finished(&mut self)
        ensures
            !final(self).in_flight(),
            final(self).stopped() == old(self).stopped(),
    {
        self.in_flight = false;
    }

    /// Asks the loop to leave at its next tick.
    pub fn stop(&mut self)
        ensures
            final(self).stopped(),
            final(self).in_flight() == old(self).in_flight(),
    {
        self.stopped = true;
    }

    /// Whether a pass is in flight.
    pub fn is_in_flight(&self) -> (r: bool)
        ensures
            r == self.in_flight(),
    {
        self.in_flight
    }

    /// Whether a stop was requested.
    pub fn is_stopped(&self) -> (r: bool)
        ensures
            r == self.stopped(),
    {
        self.stopped
    }
}

} // verus!
