//! Time as the engines see it.
//!
//! The engines never read a clock. Every handler that depends on time takes
//! the current time as an argument, so the caller decides where time comes
//! from: the wall clock in production, a [`ManualClock`] in tests.
use vstd::prelude::*;

verus! {

/// A time, in milliseconds on the clock of the node.
pub type Timestamp = u64;

/// The time `millis` milliseconds after `now`, if the clock can show it.
pub fn after(now: Timestamp, millis: u64) -> (then: Option<Timestamp>)
    ensures
        then is Some <==> now + millis <= u64::MAX,
        then matches Some(t) ==> t == now + millis,
{
    if millis <= u64::MAX - now {
        Some(now + millis)
    } else {
        None
    }
}

/// A clock that stands still until it is told to move, and never moves
/// backwards.
pub struct ManualClock {
    now: Timestamp,
}

impl View for ManualClock {
    type V = int;

    closed spec fn view(&self) -> int {
        self.now as int
    }
}

impl ManualClock {
    /// A clock that shows `start`.
    pub fn new(start: Timestamp) -> (clock: ManualClock)
        ensures
            clock@ == start,
    {
        ManualClock { now: start }
    }

    /// The time the clock shows.
    pub fn now(&self) -> (now: Timestamp)
        ensures
            now == self@,
    {
        self.now
    }

    /// Moves the clock `millis` milliseconds forward. A clock that cannot
    /// show the new time stays where it is; the result says whether the
    /// clock moved.
    pub fn advance(&mut self, millis: u64) -> (moved: bool)
        ensures
            moved == (old(self)@ + millis <= u64::MAX),
            final(self)@ == if moved {
                old(self)@ + millis
            } else {
                old(self)@
            },
    {
        match after(self.now, millis) {
            Some(then) => {
                self.now = then;
                true
            },
            None => false,
        }
    }

    /// Moves the clock forward to `to`. A time that lies in the past is
    /// refused and leaves the clock where it is; the result says whether
    /// the clock shows `to` now.
    pub fn advance_to(&mut self, to: Timestamp) -> (moved: bool)
        ensures
            moved == (old(self)@ <= to),
            final(self)@ == if moved {
                to as int
            } else {
                old(self)@
            },
    {
        if self.now <= to {
            self.now = to;
            true
        } else {
            false
        }
    }
}

} // verus!
