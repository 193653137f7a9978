use vstd::prelude::*;
use crate::executor::Computation;
use crate::executor::ManualExecutor;
use crate::executor::wake_transition;

verus! {

/// A wake token: the handle a computation receives on every poll.
///
/// It captures the identity of the registry entry that should be re-polled
/// once the computation becomes unblocked. A token may be cloned and retained
/// for an arbitrary time after the poll that created it; any copy can be
/// signalled, and every signal for the same key is equivalent. The executor
/// itself is handed in at signal time, so a token stays valid even after its
/// task has finished: signalling then finds no entry and does nothing.
#[derive(Clone, Copy)]
pub struct TaskWake {
    key: u64,
}

impl TaskWake {
    /// The identity of the task this token asks to re-poll.
    pub closed spec fn key(self) -> u64 {
        self.key
    }

    /// Build a token for the task registered under `key`. The executor makes
    /// one fresh token per poll attempt.
    pub fn new(key: u64) -> (w: TaskWake)
        ensures
            w.key() == key,
    {
        TaskWake { key }
    }

    /// Signal the token: ask `executor` to poll the task registered under
    /// this token's key again, exactly as `ManualExecutor::wake` would; the
    /// returned ghost value is that wake's outcome. Any number of signals may
    /// be sent, from any copy of the token and at any time; once the task has
    /// finished and left the registry, further signals find no entry and
    /// change nothing.
    pub fn wake<T: Computation>(&self, executor: &mut ManualExecutor<T>) -> (r: Ghost<Option<T>>)
        requires
            old(executor).wf(),
        ensures
            final(executor).wf(),
            wake_transition(*old(executor), *final(executor), self.key(), r@),
    {
        executor.wake(self.key)
    }
}

} // verus!
