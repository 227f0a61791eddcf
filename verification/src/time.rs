use vstd::prelude::*;

verus! {

/// A span of time, counted in whole nanoseconds.
#[derive(Clone, Copy, PartialEq, Eq, Structural, Debug)]
pub struct Duration {
    pub nanos: u128,
}

impl Duration {
    /// A span of `nanos` nanoseconds.
    pub fn from_nanos(nanos: u128) -> (d: Duration)
        ensures
            d.nanos == nanos,
    {
        Duration { nanos }
    }

    /// A span of `millis` milliseconds.
    pub fn from_millis(millis: u64) -> (d: Duration)
        ensures
            d.nanos == millis * 1_000_000,
    {
        let wide: u128 = millis as u128;
        Duration { nanos: wide * 1_000_000 }
    }

    /// A span of `secs` seconds.
    pub fn from_secs(secs: u64) -> (d: Duration)
        ensures
            d.nanos == secs * 1_000_000_000,
    {
        let wide: u128 = secs as u128;
        Duration { nanos: wide * 1_000_000_000 }
    }
}

/// A point on a monotonic clock: the nanoseconds that have passed since an
/// origin that the caller picks once and keeps.
#[derive(Clone, Copy, PartialEq, Eq, Structural, Debug)]
pub struct Instant {
    pub nanos: u128,
}

impl Instant {
    /// The point `nanos` nanoseconds after the origin.
    pub fn from_nanos(nanos: u128) -> (t: Instant)
        ensures
            t.nanos == nanos,
    {
        Instant { nanos }
    }

    /// True when at least `span` has passed between `start` and `self`.
    pub open spec fn reached(self, start: Instant, span: Duration) -> bool {
        start.nanos + span.nanos <= self.nanos
    }

    /// The time between `earlier` and `self`, zero when `earlier` is the later one.
    pub open spec fn since(self, earlier: Instant) -> int {
        if self.nanos >= earlier.nanos {
            self.nanos - earlier.nanos
        } else {
            0
        }
    }

    /// The point `span` after `self`, or `None` where the clock cannot count that far.
    pub fn checked_add(self, span: Duration) -> (r: Option<Instant>)
        ensures
            self.nanos + span.nanos <= u128::MAX ==> r == Some(
                Instant { nanos: (self.nanos + span.nanos) as u128 },
            ),
            self.nanos + span.nanos > u128::MAX ==> r is None,
    {
        if span.nanos <= u128::MAX - self.nanos {
            Some(Instant { nanos: self.nanos + span.nanos })
        } else {
            None
        }
    }

    /// The time that has passed from `earlier` to `self`; zero when `earlier`
    /// is in fact the later of the two.
    pub fn duration_since(self, earlier: Instant) -> (d: Duration)
        ensures
            d.nanos == self.since(earlier),
    {
        if self.nanos >= earlier.nanos {
            Duration { nanos: self.nanos - earlier.nanos }
        } else {
            Duration { nanos: 0 }
        }
    }

    /// Tells whether at least `span` has passed between `start` and `self`.
    pub fn has_reached(self, start: Instant, span: Duration) -> (r: bool)
        ensures
            r == self.reached(start, span),
    {
        self.nanos >= start.nanos && self.nanos - start.nanos >= span.nanos
    }
}

} // verus!
