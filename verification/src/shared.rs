use vstd::prelude::*;

use crate::task::TaskId;

verus! {

/// One-shot result cell backing a `JoinHandle` or `AckHandle`.
///
/// Exactly one producer eventually puts a value and exactly one consumer
/// polls for it; the cell decouples "a value became available" from
/// "someone is polling".  `Waiting` records the task to re-enqueue once a
/// value arrives, taking the place of a registered wake callback.
pub enum SharedState<T> {
    /// Nothing produced yet, nobody watching.
    Initial,
    /// A value was produced and not yet observed.
    Ready(T),
    /// A poll observed no value; the recorded task is woken when one
    /// arrives.
    Waiting(TaskId),
}

impl<T> SharedState<T> {
    /// Poll the cell on behalf of task `waiter`.
    ///
    /// If a value is present it is returned; otherwise `waiter` stays
    /// registered and will be woken by `put`.  In every case the cell is
    /// left watching for `waiter`, so a value produced later reaches it.
    /// The cell assumes exactly one reader: polling while a different
    /// task's registration is outstanding is a contract violation, so the
    /// precondition admits only the routine re-registration by the same
    /// task.
    pub fn take(&mut self, waiter: TaskId) -> (r: Option<T>)
        requires
            *old(self) matches SharedState::Waiting(t) ==> t == waiter,
        ensures
            *final(self) == SharedState::<T>::Waiting(waiter),
            (*old(self) matches SharedState::Ready(v) ==> r == Some(v)),
            !(*old(self) is Ready) ==> r is None,
    {
        let mut tmp = SharedState::Waiting(waiter);
        core::mem::swap(self, &mut tmp);
        match tmp {
            SharedState::Initial => None,
            SharedState::Ready(v) => Some(v),
            SharedState::Waiting(_) => None,
        }
    }

    /// Store `value` and hand back the task to wake, if one was watching.
    ///
    /// The cell ends up `Ready(value)`; a watcher registered by `take` is
    /// returned exactly once so the scheduler can re-enqueue it.  A value
    /// is produced at most once per cell: putting into a cell that is
    /// already `Ready` is a contract violation, excluded here.
    pub fn put(&mut self, value: T) -> (waiter: Option<TaskId>)
        requires
            !(*old(self) is Ready),
        ensures
            *final(self) == SharedState::<T>::Ready(value),
            (*old(self) matches SharedState::Waiting(t) ==> waiter == Some(t)),
            !(*old(self) is Waiting) ==> waiter is None,
    {
        let mut tmp = SharedState::Ready(value);
        core::mem::swap(self, &mut tmp);
        match tmp {
            SharedState::Initial => None,
            SharedState::Ready(_) => None,
            SharedState::Waiting(t) => Some(t),
        }
    }
}

} // verus!
