use vstd::prelude::*;

use crate::shared::SharedState;
use crate::system::{SysModel, SystemState};

verus! {

/// A future that resolves to `true` once the acknowledgement round-trip of
/// one sent message completes.
///
/// The handle names the acknowledgement slot of its message in the
/// simulation's slot arena; its view is that message's id.
pub struct AckHandle {
    pub(crate) msg: crate::event::MessageId,
}

impl View for AckHandle {
    type V = int;

    closed spec fn view(&self) -> int {
        self.msg as int
    }
}

impl AckHandle {
    /// Handle over the acknowledgement slot of message `id`.
    pub(crate) fn for_message(id: crate::event::MessageId) -> (h: AckHandle)
        ensures
            h@ == id as int,
    {
        AckHandle { msg: id }
    }

    /// Poll for the acknowledgement on behalf of the currently running
    /// task: its value if it arrived, else `None`, with the current task
    /// registered to be woken when it does.  Polling outside a running
    /// task (or with a foreign handle) observes nothing and changes
    /// nothing.  A handle is meant to be awaited by a single task:
    /// polling a slot another task is already watching is a contract
    /// violation, excluded by the precondition.
    pub fn poll<B>(&self, ctx: &mut SystemState<B>) -> (r: Option<bool>)
        requires
            old(ctx).wf(),
            old(ctx)@.cur_task matches Some(t) ==> (self@ < old(ctx)@.acks.len() ==> (old(
                ctx,
            )@.acks[self@] matches SharedState::Waiting(t2) ==> t2 == t)),
        ensures
            final(ctx).wf(),
            old(ctx)@.extended_by(final(ctx)@),
            old(ctx)@.cur_task matches Some(t) ==> (self@ < old(ctx)@.acks.len() ==> {
                &&& final(ctx)@ == (SysModel {
                    acks: old(ctx)@.acks.update(self@, SharedState::Waiting(t)),
                    ..old(ctx)@
                })
                &&& (old(ctx)@.acks[self@] matches SharedState::Ready(v) ==> r == Some(v))
                &&& (!(old(ctx)@.acks[self@] is Ready) ==> r is None)
            }),
            !(old(ctx)@.cur_task is Some && self@ < old(ctx)@.acks.len()) ==> {
                &&& r is None
                &&& final(ctx)@ == old(ctx)@
            },
    {
        ctx.poll_ack_slot(self.msg)
    }
}

} // verus!
