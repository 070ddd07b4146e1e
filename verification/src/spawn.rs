use vstd::prelude::*;

use crate::join::JoinHandle;
use crate::shared::SharedState;
use crate::system::{SysModel, SystemState};
use crate::task::TaskBody;

verus! {

/// Register a new asynchronous task, owned by the currently executing
/// process, and enqueue it for execution within the current quiescence
/// round.  The returned handle resolves to the task's result once it
/// completes.
pub fn spawn<B: TaskBody>(ctx: &mut SystemState<B>, body: B) -> (h: JoinHandle)
    requires
        old(ctx).wf(),
        old(ctx)@.cur is Some,
    ensures
        final(ctx).wf(),
        old(ctx)@.extended_by(final(ctx)@),
        h@ == old(ctx)@.tasks.len(),
        old(ctx)@.cur matches Some(p) ==> final(ctx)@ == (SysModel {
            tasks: old(ctx)@.tasks.push(Some(p)),
            joins: old(ctx)@.joins.push(SharedState::Initial),
            ready: old(ctx)@.ready.push(old(ctx)@.tasks.len() as usize),
            ..old(ctx)@
        }),
{
    ctx.spawn(body)
}

} // verus!
