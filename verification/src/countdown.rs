use vstd::prelude::*;
use crate::executor::Computation;
use crate::task_wake::TaskWake;

verus! {

/// A computation that stays suspended for a fixed number of polls and then
/// completes: each poll consumes one remaining step, and the computation is
/// complete once no steps remain. `Countdown::new(1)` completes on its first
/// poll; `Countdown::new(2)` reports "still suspended" once and completes on
/// the second poll.
pub struct Countdown {
    remaining: u64,
}

impl Countdown {
    /// The number of polls still needed before the computation completes.
    pub closed spec fn remaining(self) -> u64 {
        self.remaining
    }

    /// A computation that completes on its `steps`-th poll (immediately, if
    /// `steps` is zero).
    pub fn new(steps: u64) -> (c: Countdown)
        ensures
            c.remaining() == steps,
    {
        Countdown { remaining: steps }
    }
}

impl Computation for Countdown {
    /// Complete once every step has been consumed.
    open spec fn complete(&self) -> bool {
        self.remaining() == 0
    }

    /// One poll consumes exactly one remaining step, and polling a finished
    /// countdown leaves it finished.
    open spec fn one_poll(pre: Countdown, post: Countdown) -> bool {
        post.remaining() == if pre.remaining() > 0 {
            (pre.remaining() - 1) as u64
        } else {
            0u64
        }
    }

    fn poll(&mut self, _wake: TaskWake) -> (pending: bool) {
        if self.remaining > 0 {
            self.remaining = self.remaining - 1;
        }
        self.remaining > 0
    }
}

} // verus!
