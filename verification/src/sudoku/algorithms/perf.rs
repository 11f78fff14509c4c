//! Counts the placements a run attempts and times the run.

use std::time::{Duration, Instant};
use vstd::prelude::*;

verus! {

/// `std::time::Instant`: a reading of the monotonic clock. Nothing is known
/// of what a value holds.
#[verifier::external_type_specification]
#[verifier::external_body]
pub struct ExInstant(Instant);

/// The time from the reading `earlier` to the reading `later`, as
/// `Instant::duration_since` gives it: zero where `earlier` is the later
/// one.
pub uninterp spec fn span_between(later: Instant, earlier: Instant) -> Duration;

/// `Instant::now` reads the clock; two readings may differ, so nothing is
/// stated of the result.
pub assume_specification[ Instant::now ]() -> (now: Instant)
;

/// `Instant::duration_since` gives the time from `earlier` to `later`, or
/// zero where `earlier` is the later one. It does not panic, and what it
/// gives depends on the two readings alone.
pub assume_specification[ Instant::duration_since ](later: &Instant, earlier: Instant) -> (elapsed:
    Duration)
    ensures
        elapsed == span_between(*later, earlier),
;

/// The counter and the two clock readings of one run. It observes a run and
/// decides nothing in it.
pub struct PerfTracker {
    actions: u64,
    start: Option<Instant>,
    end: Option<Instant>,
}

impl PerfTracker {
    /// The number of placements counted since the last start.
    pub closed spec fn count(&self) -> u64 {
        self.actions
    }

    /// The clock reading of the last start.
    pub closed spec fn start_reading(&self) -> Option<Instant> {
        self.start
    }

    /// The clock reading of the end of the run, if one was recorded since
    /// the last start.
    pub closed spec fn end_reading(&self) -> Option<Instant> {
        self.end
    }

    /// Whether the tracker was started.
    pub open spec fn started(&self) -> bool {
        self.start_reading() is Some
    }

    /// Whether an end of the run was recorded since the last start.
    pub open spec fn finished(&self) -> bool {
        self.end_reading() is Some
    }

    /// A tracker that has counted nothing and was never started.
    pub fn new() -> (tracker: Self)
        ensures
            tracker.count() == 0,
            tracker.start_reading() is None,
            tracker.end_reading() is None,
    {
        Self { actions: 0, start: None, end: None }
    }

    /// Resets the counter, records the start of a run and forgets the end of
    /// the run before.
    pub fn start(&mut self)
        ensures
            final(self).count() == 0,
            final(self).start_reading() is Some,
            final(self).end_reading() is None,
    {
        self.actions = 0;
        self.start = Some(Instant::now());
        self.end = None;
    }

    /// Counts one attempted placement; the counter stops at its maximum. The
    /// clock readings stay.
    pub fn incr(&mut self)
        ensures
            final(self).count() == if old(self).count() == u64::MAX {
                u64::MAX
            } else {
                (old(self).count() + 1) as u64
            },
            final(self).start_reading() == old(self).start_reading(),
            final(self).end_reading() == old(self).end_reading(),
    {
        self.actions = self.actions.saturating_add(1);
    }

    /// Records the end of the run. The counter and the start stay.
    pub fn finish(&mut self)
        ensures
            final(self).end_reading() is Some,
            final(self).count() == old(self).count(),
            final(self).start_reading() == old(self).start_reading(),
    {
        self.end = Some(Instant::now());
    }

    /// The time from the start to the recorded end, or to now while the run
    /// is not finished; nothing before the first start.
    pub fn elapsed(&self) -> (time: Option<Duration>)
        ensures
            time is Some <==> self.started(),
            self.started() && self.finished() ==> time == Some(
                span_between(self.end_reading()->0, self.start_reading()->0),
            ),
            self.started() && !self.finished() ==> exists|now: Instant|
                time == Some(#[trigger] span_between(now, self.start_reading()->0)),
    {
        match self.start {
            None => None,
            Some(start) => match self.end {
                Some(end) => Some(end.duration_since(start)),
                None => Some(Instant::now().duration_since(start)),
            },
        }
    }

    /// The number of placements counted since the last start.
    pub fn actions(&self) -> (n: u64)
        ensures
            n == self.count(),
    {
        self.actions
    }
}

} // verus!
