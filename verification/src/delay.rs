use vstd::prelude::*;

verus! {

/// What one polling step reports: the work either finished and yielded its
/// value, or made no observable progress and must be polled again later.
#[derive(Clone, Copy, PartialEq, Eq, Structural, Debug)]
pub enum PollResult {
    Ready(u64),
    Pending,
}

/// The suspension primitive: a pending wait that becomes ready once the
/// clock reaches its deadline, and then yields its configured value.
///
/// A poll never blocks; it only compares the current time against the
/// deadline and returns at once.
#[derive(Clone, Copy, PartialEq, Eq, Structural, Debug)]
pub struct Delay {
    /// The absolute instant at which the wait is over.
    pub when: u64,
    /// The value yielded once the deadline has been reached.
    pub value: u64,
}

impl Delay {
    /// A wait until `when`, yielding `value` once that instant has passed.
    pub fn new(when: u64, value: u64) -> (d: Delay)
        ensures
            d.when == when,
            d.value == value,
    {
        Delay { when, value }
    }

    /// One polling step at time `now`: ready with the configured value
    /// exactly when the deadline has been reached, pending strictly before
    /// it. A deadline already in the past is ready on the very first poll.
    pub fn poll(&self, now: u64) -> (r: PollResult)
        ensures
            r == (if now >= self.when {
                PollResult::Ready(self.value)
            } else {
                PollResult::Pending
            }),
    {
        if now >= self.when {
            PollResult::Ready(self.value)
        } else {
            PollResult::Pending
        }
    }
}

} // verus!
