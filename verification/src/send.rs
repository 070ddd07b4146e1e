use vstd::prelude::*;

use crate::ack::AckHandle;
use crate::event::{EventKindView, EventView};
use crate::process::ProcessId;
use crate::shared::SharedState;
use crate::system::{SysModel, SystemState};

verus! {

/// The currently executing process pushes `msg` into its own local outbox,
/// traced as a `ProcLocalMessage`.  Synchronous; never suspends; no
/// network modeling because it never crosses a process boundary.
pub fn send_local<B>(ctx: &mut SystemState<B>, msg: String)
    requires
        old(ctx).wf(),
        old(ctx)@.cur is Some,
    ensures
        final(ctx).wf(),
        old(ctx)@.extended_by(final(ctx)@),
        old(ctx)@.cur matches Some(p) ==> final(ctx)@ == (SysModel {
            trace: old(ctx)@.trace.push(
                (EventView {
                    time: old(ctx)@.time as int,
                    kind: EventKindView::ProcLocalMessage(p as int, msg@),
                }),
            ),
            outboxes: old(ctx)@.outboxes.update(
                p as int,
                old(ctx)@.outboxes[p as int].push(msg@),
            ),
            ..old(ctx)@
        }),
{
    ctx.send_local(msg)
}

/// The currently executing process initiates a network message to `to`.
///
/// The next message id is allocated, `MessageSent` is traced immediately,
/// delivery becomes a new pending (nondeterministic) event, and a fresh
/// acknowledgement slot is registered.  The call itself never suspends;
/// only the returned handle does, when awaited inside a task, until the
/// acknowledgement round-trip completes.
pub fn send<B>(ctx: &mut SystemState<B>, to: ProcessId, msg: String) -> (h: AckHandle)
    requires
        old(ctx).wf(),
        old(ctx)@.cur is Some,
    ensures
        final(ctx).wf(),
        old(ctx)@.extended_by(final(ctx)@),
        h@ == old(ctx)@.acks.len(),
        old(ctx)@.cur matches Some(p) ==> final(ctx)@ == (SysModel {
            trace: old(ctx)@.trace.push(
                (EventView {
                    time: old(ctx)@.time as int,
                    kind: EventKindView::MessageSent(
                        p as int,
                        to as int,
                        old(ctx)@.acks.len() as int,
                        msg@,
                    ),
                }),
            ),
            acks: old(ctx)@.acks.push(SharedState::Initial),
            pending: old(ctx)@.pending.push(
                EventKindView::MessageDelivered(
                    p as int,
                    to as int,
                    old(ctx)@.acks.len() as int,
                    msg@,
                ),
            ),
            ..old(ctx)@
        }),
{
    ctx.send(to, msg)
}

} // verus!
