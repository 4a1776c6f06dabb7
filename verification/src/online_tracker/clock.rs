//! The clock that measurements are stamped with.
use crate::connection::Time;
use std::time::{Duration, Instant};
use vstd::prelude::*;

verus! {

/// A moment of the monotonic clock of the standard library. Nothing is
/// known of what it holds.
#[verifier::external_type_specification]
#[verifier::external_body]
pub struct ExInstant(Instant);

/// `Instant::now`: the present moment.
#[verifier::external_body]
pub(crate) fn start_timer() -> Instant {
    Instant::now()
}

/// `Instant::elapsed`: the time that has passed since the moment was taken.
/// Every call may give another span.
#[verifier::external_body]
pub(crate) fn elapsed(timer: &Instant) -> Duration {
    timer.elapsed()
}

/// `Duration::as_nanos`: the span in nanoseconds.
#[verifier::external_body]
pub(crate) fn as_nanos(span: &Duration) -> u128 {
    span.as_nanos()
}

/// A number of nanoseconds as a `Time`, which holds no more than
/// `u64::MAX` of them.
pub open spec fn saturated(nanos: u128) -> Time {
    if nanos > u64::MAX {
        u64::MAX
    } else {
        nanos as u64
    }
}

/// Turns a number of nanoseconds into a `Time`, saturating where it does
/// not fit.
pub fn saturate(nanos: u128) -> (t: Time)
    ensures
        t == saturated(nanos),
{
    if nanos > u64::MAX as u128 {
        u64::MAX
    } else {
        nanos as u64
    }
}

/// The later of two readings of a clock.
pub open spec fn later_of(last: Time, now: Time) -> Time {
    if now > last {
        now
    } else {
        last
    }
}

/// Gives the later of two readings of a clock.
pub fn later(last: Time, now: Time) -> (t: Time)
    ensures
        t == later_of(last, now),
{
    if now > last {
        now
    } else {
        last
    }
}

/// A stopwatch whose readings never go back.
pub struct Stopwatch {
    begun: Instant,
    last: Time,
}

impl Stopwatch {
    /// The last reading, 0 before the first.
    pub closed spec fn last(&self) -> Time {
        self.last
    }

    /// Starts a stopwatch at the present moment.
    pub fn start() -> (watch: Stopwatch)
        ensures
            watch.last() == 0,
    {
        Stopwatch { begun: start_timer(), last: 0 }
    }

    /// Reads the nanoseconds that have passed since the start, saturating.
    /// The clock is monotonic, so the reading is what the clock gives; a
    /// span shorter than the last reading would be read as that reading
    /// again.
    pub fn read(&mut self) -> (t: Time)
        ensures
            t >= old(self).last(),
            final(self).last() == t,
    {
        let now = saturate(as_nanos(&elapsed(&self.begun)));
        self.last = later(self.last, now);
        self.last
    }
}

} // verus!
