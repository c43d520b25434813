use vstd::prelude::*;

verus! {

/// One unit of logical time passing: the clock advances by one,
/// saturating at the largest representable instant.
pub open spec fn tick_spec(now: int) -> int {
    if now < u64::MAX {
        now + 1
    } else {
        now
    }
}

/// The scheduler's logical wall clock. Time is a number of abstract time
/// units since some epoch; it only ever moves forward.
pub struct Clock {
    pub now: u64,
}

impl Clock {
    /// A clock standing at the given instant.
    pub fn new(start: u64) -> (c: Clock)
        ensures
            c.now == start,
    {
        Clock { now: start }
    }

    /// Let one time unit pass.
    pub fn tick(&mut self)
        ensures
            final(self).now == tick_spec(old(self).now as int),
    {
        if self.now < u64::MAX {
            self.now = self.now + 1;
        }
    }
}

} // verus!
