use vstd::prelude::*;

use crate::process::ProcessId;
use crate::system::SystemState;

verus! {

/// Identifier of an asynchronous task: dense index into the task arena of
/// one `System`, assigned monotonically and never reused.
pub type TaskId = usize;

/// Outcome of giving a task one chance to run.
pub enum TaskPoll {
    /// The task finished with this result value.
    Ready(u64),
    /// The task suspended; it polled a handle that was not ready and will
    /// be re-enqueued when that handle's value arrives.
    Pending,
}

/// A suspended asynchronous activity, written as an explicit continuation
/// object: the scheduler repeatedly calls `poll` until it answers
/// `TaskPoll::Ready`.
///
/// A body interacts with the simulation only through the context's public
/// operations (send, send_local, spawn, and polling handles), each of which
/// preserves the context's well-formedness and only extends its history;
/// the contract records exactly that.  A body that answers `Pending`
/// without having polled an unready handle is never woken again, just as a
/// future that returns pending without registering a waker.
pub trait TaskBody: Sized {
    /// Run the task until it either finishes or suspends on a handle.
    fn poll(&mut self, ctx: &mut SystemState<Self>) -> (r: TaskPoll)
        requires
            old(ctx).wf(),
            old(ctx)@.cur is Some,
            old(ctx)@.cur_task is Some,
        ensures
            final(ctx).wf(),
            old(ctx)@.extended_by(final(ctx)@),
    ;
}

/// An asynchronous task: the process that owns it paired with its
/// suspended body, so the scheduler can restore the owning process as
/// current before every poll.
pub(crate) struct Task<B> {
    pub(crate) owner: ProcessId,
    pub(crate) body: B,
}

/// The simplest continuation object: a task that finishes at its first
/// poll with a fixed value, touching nothing.
pub struct Immediate {
    /// The value the task's join handle resolves to.
    pub value: u64,
}

impl TaskBody for Immediate {
    fn poll(&mut self, ctx: &mut SystemState<Immediate>) -> (r: TaskPoll)
        ensures
            r == TaskPoll::Ready(old(self).value),
    {
        proof {
            crate::system::lemma_self_extended(ctx@);
        }
        TaskPoll::Ready(self.value)
    }
}

} // verus!
