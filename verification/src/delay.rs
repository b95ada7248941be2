//! A deadline that a task waits for without holding a thread: each poll either
//! finishes or tells how long a timer has to run before the next poll.

use vstd::prelude::*;

verus! {

/// A wait until the clock reads `when`. Readings are ticks of one monotonic
/// clock, in a unit that the caller fixes.
#[derive(Clone, Copy, Debug, PartialEq, Eq, Structural)]
pub struct Delay {
    pub when: u64,
}

/// What a poll of a [`Delay`] asks of its caller.
#[derive(Clone, Copy, Debug, PartialEq, Eq, Structural)]
pub enum DelayPoll {
    /// The deadline has come: the wait is over.
    Ready,
    /// The deadline lies `remaining` ticks ahead: register a timer of that
    /// length with the scheduler, and poll again when it fires.
    Pending { remaining: u64 },
}

impl Delay {
    /// The poll as a function of the deadline and the clock: ready from the
    /// deadline on, and before it pending for the ticks that are left.
    pub open spec fn poll_spec(self, now: u64) -> DelayPoll {
        if now >= self.when {
            DelayPoll::Ready
        } else {
            DelayPoll::Pending { remaining: (self.when - now) as u64 }
        }
    }

    /// A wait that ends `ticks` after `now`, at the last reading of the clock
    /// if that comes sooner.
    pub fn after(now: u64, ticks: u64) -> (delay: Delay)
        ensures
            delay.when == if now + ticks <= u64::MAX {
                (now + ticks) as u64
            } else {
                u64::MAX
            },
    {
        Delay { when: now.saturating_add(ticks) }
    }

    /// Polls the wait at clock reading `now`.
    pub fn poll(&self, now: u64) -> (state: DelayPoll)
        ensures
            state == self.poll_spec(now),
    {
        if now >= self.when {
            DelayPoll::Ready
        } else {
            DelayPoll::Pending { remaining: self.when - now }
        }
    }

    /// What a finished wait yields.
    pub fn output() -> (text: &'static str)
        ensures
            text@ == "done"@,
    {
        "done"
    }
}

/// A timer of the length that a poll asked for ends the wait: at its firing
/// the next poll is ready.
pub proof fn lemma_timer_ends_wait(delay: Delay, now: u64, later: u64)
    requires
        delay.poll_spec(now) matches DelayPoll::Pending { remaining } && later >= now + remaining,
    ensures
        delay.poll_spec(later) == DelayPoll::Ready,
{
}

} // verus!
