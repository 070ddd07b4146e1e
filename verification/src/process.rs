use vstd::prelude::*;

use crate::system::SystemState;
use crate::task::TaskBody;

verus! {

/// Dense index of a registered process inside one `System`; assigned
/// sequentially from 0 on registration and never reused.
pub type ProcessId = usize;

/// Requirements for a user process.
///
/// A process reacts to an incoming network message (`on_message`) and to an
/// externally injected local input (`on_local_message`).  Both entry points
/// receive the simulation context and may use it only through its public
/// operations (sending messages, local notifications, and spawning tasks),
/// each of which preserves the context's well-formedness and only extends
/// its history; the contract below records exactly that, so the engine can
/// keep reasoning about its own state after handing control to a process.
pub trait Process<B: TaskBody> {
    /// Called when a message from process `from` is delivered to this
    /// process.  The engine sets this process as current for the duration.
    fn on_message(&mut self, ctx: &mut SystemState<B>, from: ProcessId, msg: String)
        requires
            old(ctx).wf(),
            old(ctx)@.cur is Some,
        ensures
            final(ctx).wf(),
            old(ctx)@.extended_by(final(ctx)@),
    ;

    /// Called when the driver injects `msg` as local input to this process.
    /// The engine sets this process as current for the duration.
    fn on_local_message(&mut self, ctx: &mut SystemState<B>, msg: &str)
        requires
            old(ctx).wf(),
            old(ctx)@.cur is Some,
        ensures
            final(ctx).wf(),
            old(ctx)@.extended_by(final(ctx)@),
    ;
}

} // verus!
