use vstd::prelude::*;

use crate::shared::SharedState;
use crate::system::{SysModel, SystemState};

verus! {

/// A future that resolves to a spawned task's result value once that task
/// completes.
///
/// The handle names its task's result slot in the simulation's slot arena;
/// its view is that task's id.  A handle is meant to be awaited by a
/// single task.
pub struct JoinHandle {
    pub(crate) task: crate::task::TaskId,
}

impl View for JoinHandle {
    type V = int;

    closed spec fn view(&self) -> int {
        self.task as int
    }
}

impl JoinHandle {
    /// Handle over the result slot of task `id`.
    pub(crate) fn for_task(id: crate::task::TaskId) -> (h: JoinHandle)
        ensures
            h@ == id as int,
    {
        JoinHandle { task: id }
    }

    /// Poll for the spawned task's result on behalf of the currently
    /// running task: its value if it completed, else `None`, with the
    /// current task registered to be woken when it does.  Polling outside
    /// a running task (or with a foreign handle) observes nothing and
    /// changes nothing.  A handle is meant to be awaited by a single
    /// task: polling a slot another task is already watching is a
    /// contract violation, excluded by the precondition.
    pub fn poll<B>(&self, ctx: &mut SystemState<B>) -> (r: Option<u64>)
        requires
            old(ctx).wf(),
            old(ctx)@.cur_task matches Some(t) ==> (self@ < old(ctx)@.joins.len() ==> (old(
                ctx,
            )@.joins[self@] matches SharedState::Waiting(t2) ==> t2 == t)),
        ensures
            final(ctx).wf(),
            old(ctx)@.extended_by(final(ctx)@),
            old(ctx)@.cur_task matches Some(t) ==> (self@ < old(ctx)@.joins.len() ==> {
                &&& final(ctx)@ == (SysModel {
                    joins: old(ctx)@.joins.update(self@, SharedState::Waiting(t)),
                    ..old(ctx)@
                })
                &&& (old(ctx)@.joins[self@] matches SharedState::Ready(v) ==> r == Some(v))
                &&& (!(old(ctx)@.joins[self@] is Ready) ==> r is None)
            }),
            !(old(ctx)@.cur_task is Some && self@ < old(ctx)@.joins.len()) ==> {
                &&& r is None
                &&& final(ctx)@ == old(ctx)@
            },
    {
        ctx.poll_join_slot(self.task)
    }
}

} // verus!
