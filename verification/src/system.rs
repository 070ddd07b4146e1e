use vstd::prelude::*;

use crate::ack::AckHandle;
use crate::event::{
    ack_delivered_for, ack_sent_for, is_message_event,
    lemma_message_event_count_absent, lemma_message_event_count_push,
    lemma_message_event_count_take_monotone, lemma_message_event_count_take_succ,
    message_event_count, message_event_id, message_event_rank, message_event_receiver,
    message_events_agree, Event,
    EventKind, EventKindView, EventView, MessageId,
};
use crate::join::JoinHandle;
use crate::process::{Process, ProcessId};
use crate::shared::SharedState;
use crate::task::{Task, TaskBody, TaskId, TaskPoll};

verus! {

// ---------------------------------------------------------------------------
// The mathematical model of a simulation and its invariants.
// ---------------------------------------------------------------------------
/// Mathematical state of one simulation: what every contract of the engine
/// speaks about.
#[verifier::ext_equal]
pub struct SysModel {
    /// Task ids ready to be polled, front first.
    pub ready: Seq<TaskId>,
    /// Owner of each task in the arena; `None` once completed (or while it
    /// is being polled).
    pub tasks: Seq<Option<ProcessId>>,
    /// Result slot of each task, same index as `tasks`.
    pub joins: Seq<SharedState<u64>>,
    /// Process whose handler or task is currently executing.
    pub cur: Option<ProcessId>,
    /// Task currently being polled, if any.
    pub cur_task: Option<TaskId>,
    /// Per-process local outboxes.
    pub outboxes: Seq<Seq<Seq<char>>>,
    /// Append-only history of everything that happened.
    pub trace: Seq<EventView>,
    /// Logical time.
    pub time: u64,
    /// Acknowledgement slot of each sent message, indexed by message id;
    /// its length is the next message id.
    pub acks: Seq<SharedState<bool>>,
    /// Enabled, not yet applied nondeterministic transitions.
    pub pending: Seq<EventKindView>,
    /// How many scheduler steps (task polls) have ever been performed.
    pub steps: int,
}

/// One trace entry respects the message lifecycle: its id has been
/// allocated, and its protocol rank equals the number of earlier lifecycle
/// events of the same message, so the four steps appear in order.
pub open spec fn trace_entry_ok(tr: Seq<EventView>, i: int, nmsgs: int) -> bool {
    is_message_event(tr[i].kind) ==> {
        &&& 0 <= message_event_id(tr[i].kind) < nmsgs
        &&& message_event_rank(tr[i].kind) == message_event_count(
            tr.take(i),
            message_event_id(tr[i].kind),
        )
    }
}

/// One pending entry is legal: only deliveries and acknowledgement
/// deliveries are ever pending, their message ids are allocated, the
/// trace holds exactly the lifecycle steps that precede them, and the
/// entry names the same sender, receiver and payload as those steps.
pub open spec fn pending_entry_ok(
    pend: Seq<EventKindView>,
    k: int,
    tr: Seq<EventView>,
    nmsgs: int,
) -> bool {
    &&& (pend[k] is MessageDelivered || pend[k] is AckDelivered)
    &&& 0 <= message_event_id(pend[k]) < nmsgs
    &&& (pend[k] is MessageDelivered ==> message_event_count(tr, message_event_id(pend[k])) == 1)
    &&& (pend[k] is AckDelivered ==> message_event_count(tr, message_event_id(pend[k])) == 3)
    &&& forall|i: int|
        0 <= i < tr.len() && is_message_event(#[trigger] tr[i].kind) && message_event_id(
            tr[i].kind,
        ) == message_event_id(pend[k]) ==> message_events_agree(pend[k], tr[i].kind)
}

/// All lifecycle entries of one message name the same sender, receiver
/// and payload, along the whole trace.
pub open spec fn participants_ok(tr: Seq<EventView>) -> bool {
    forall|i: int, j: int|
        #![trigger tr[i].kind, tr[j].kind]
        0 <= i < j < tr.len() && is_message_event(tr[i].kind) && is_message_event(tr[j].kind)
            && message_event_id(tr[i].kind) == message_event_id(tr[j].kind)
            ==> message_events_agree(tr[i].kind, tr[j].kind)
}

/// Message ids of `MessageSent` entries appear in strictly increasing
/// order along the trace.
pub open spec fn sent_ids_increasing(tr: Seq<EventView>) -> bool {
    forall|i: int, j: int|
        #![trigger tr[i].kind, tr[j].kind]
        0 <= i < j < tr.len() && tr[i].kind is MessageSent && tr[j].kind is MessageSent
            ==> message_event_id(tr[i].kind) < message_event_id(tr[j].kind)
}

/// Trace timestamps never exceed `time` and never decrease.
pub open spec fn times_ok(tr: Seq<EventView>, time: int) -> bool {
    &&& forall|i: int| 0 <= i < tr.len() ==> (#[trigger] tr[i]).time <= time
    &&& forall|i: int, j: int|
        #![trigger tr[i].time, tr[j].time]
        0 <= i <= j < tr.len() ==> tr[i].time <= tr[j].time
}

impl SysModel {
    /// The state a fresh simulation starts in.
    pub open spec fn init() -> SysModel {
        SysModel {
            ready: Seq::empty(),
            tasks: Seq::empty(),
            joins: Seq::empty(),
            cur: None,
            cur_task: None,
            outboxes: Seq::empty(),
            trace: Seq::empty(),
            time: 0,
            acks: Seq::empty(),
            pending: Seq::empty(),
            steps: 0,
        }
    }

    /// Structural consistency of the scheduler state: every task reference
    /// (ready queue, registered watchers, current task) points into the
    /// arena, every task has a result slot, and every recorded process
    /// owns an outbox.
    pub open spec fn sched_inv(self) -> bool {
        &&& self.tasks.len() == self.joins.len()
        &&& (self.cur matches Some(p) ==> p < self.outboxes.len())
        &&& (self.cur_task matches Some(t) ==> t < self.tasks.len())
        &&& forall|i: int|
            0 <= i < self.ready.len() ==> (#[trigger] self.ready[i]) < self.tasks.len()
        &&& forall|i: int|
            0 <= i < self.tasks.len() ==> ((#[trigger] self.tasks[i]) matches Some(o) ==> o
                < self.outboxes.len())
        &&& forall|i: int|
            0 <= i < self.joins.len() ==> ((#[trigger] self.joins[i]) matches SharedState::Waiting(
                t,
            ) ==> t < self.tasks.len())
        &&& forall|i: int|
            0 <= i < self.acks.len() ==> ((#[trigger] self.acks[i]) matches SharedState::Waiting(t)
                ==> t < self.tasks.len())
    }

    /// The result slots mirror the protocol phase: a live task's join slot
    /// holds no result yet (its value is produced exactly once, at
    /// completion), and an acknowledgement slot holds a value — always
    /// `true` — exactly from the moment its message's `AckDelivered` was
    /// applied, that is, once all four lifecycle steps are traced.
    pub open spec fn slots_inv(self) -> bool {
        &&& forall|i: int|
            0 <= i < self.tasks.len() ==> ((#[trigger] self.tasks[i]) is Some ==> !(self.joins[i]
                is Ready))
        &&& forall|i: int|
            0 <= i < self.acks.len() ==> ((#[trigger] self.acks[i]) matches SharedState::Ready(v)
                ==> (v == true && message_event_count(self.trace, i) == 4))
    }

    /// Full invariant of a simulation state.
    pub open spec fn inv(self) -> bool {
        &&& self.sched_inv()
        &&& self.slots_inv()
        &&& times_ok(self.trace, self.time as int)
        &&& forall|i: int|
            0 <= i < self.trace.len() ==> #[trigger] trace_entry_ok(
                self.trace,
                i,
                self.acks.len() as int,
            )
        &&& forall|k: int|
            0 <= k < self.pending.len() ==> #[trigger] pending_entry_ok(
                self.pending,
                k,
                self.trace,
                self.acks.len() as int,
            )
        &&& sent_ids_increasing(self.trace)
        &&& participants_ok(self.trace)
        &&& forall|k1: int, k2: int|
            #![trigger self.pending[k1], self.pending[k2]]
            0 <= k1 < k2 < self.pending.len() ==> message_event_id(self.pending[k1])
                != message_event_id(self.pending[k2])
    }

    /// Everything user code (a process handler or a task body) may do to
    /// the simulation through its public operations: history only grows,
    /// within the current round and the current process, only local
    /// output and fresh sends enter the trace, and the engine's own
    /// bookkeeping (current process and task, time, step count, process
    /// count) is untouched.  Result slots can only be consumed or watched
    /// — never filled — by user code.
    pub open spec fn extended_by(self, post: SysModel) -> bool {
        &&& post.outboxes.len() == self.outboxes.len()
        &&& post.cur == self.cur
        &&& post.cur_task == self.cur_task
        &&& post.time == self.time
        &&& post.steps == self.steps
        &&& self.trace.is_prefix_of(post.trace)
        &&& forall|i: int|
            self.trace.len() <= i < post.trace.len() ==> (#[trigger] post.trace[i]).time
                == self.time
        &&& forall|i: int|
            self.trace.len() <= i < post.trace.len() ==> ((#[trigger] post.trace[i]).kind
                is ProcLocalMessage || post.trace[i].kind is MessageSent)
        &&& self.pending.is_prefix_of(post.pending)
        &&& self.tasks.is_prefix_of(post.tasks)
        &&& self.ready.is_prefix_of(post.ready)
        &&& post.joins.len() >= self.joins.len()
        &&& post.acks.len() >= self.acks.len()
        &&& forall|i: int|
            0 <= i < self.joins.len() && !((#[trigger] self.joins[i]) is Ready) ==> !(post.joins[i]
                is Ready)
        &&& forall|i: int|
            0 <= i < self.acks.len() ==> (post.acks[i] == (#[trigger] self.acks[i])
                || post.acks[i] is Waiting)
        &&& forall|p: int|
            0 <= p < self.outboxes.len() ==> (#[trigger] self.outboxes[p]).is_prefix_of(
                post.outboxes[p],
            )
    }

    /// Evolution of the state across part of one quiescence round:
    /// history grows at the current time, pending choices are not
    /// consumed, no process appears or disappears, arenas and the step
    /// count only grow, and a filled acknowledgement slot keeps its value
    /// until the task watching it consumes it.
    pub open spec fn drained_to(self, post: SysModel) -> bool {
        &&& post.outboxes.len() == self.outboxes.len()
        &&& post.time == self.time
        &&& post.steps >= self.steps
        &&& self.trace.is_prefix_of(post.trace)
        &&& forall|i: int|
            self.trace.len() <= i < post.trace.len() ==> (#[trigger] post.trace[i]).time
                == self.time
        &&& self.pending.is_prefix_of(post.pending)
        &&& post.tasks.len() >= self.tasks.len()
        &&& post.joins.len() >= self.joins.len()
        &&& post.acks.len() >= self.acks.len()
        &&& forall|i: int|
            0 <= i < self.acks.len() ==> (post.acks[i] == (#[trigger] self.acks[i])
                || post.acks[i] is Waiting)
        &&& forall|p: int|
            0 <= p < self.outboxes.len() ==> (#[trigger] self.outboxes[p]).is_prefix_of(
                post.outboxes[p],
            )
    }

    /// Evolution of the state across one full external driver call: all
    /// new history carries the old time, and logical time has advanced by
    /// exactly one unit.  The arena-length clauses say task ids and
    /// message ids are assigned monotonically: the arenas never shrink,
    /// so no id is ever reused.
    pub open spec fn quiesced_to(self, post: SysModel) -> bool {
        &&& post.outboxes.len() == self.outboxes.len()
        &&& post.time == self.time + 1
        &&& post.steps >= self.steps
        &&& self.trace.is_prefix_of(post.trace)
        &&& forall|i: int|
            self.trace.len() <= i < post.trace.len() ==> (#[trigger] post.trace[i]).time
                == self.time
        &&& post.tasks.len() >= self.tasks.len()
        &&& post.joins.len() >= self.joins.len()
        &&& post.acks.len() >= self.acks.len()
        &&& forall|p: int|
            0 <= p < self.outboxes.len() ==> (#[trigger] self.outboxes[p]).is_prefix_of(
                post.outboxes[p],
            )
    }

    /// The state in which a process handler runs after the driver injects
    /// `msg` into process `to`: the injection is traced and the target is
    /// the current process.
    pub open spec fn local_injection(self, to: ProcessId, msg: Seq<char>) -> SysModel {
        SysModel {
            cur: Some(to),
            trace: self.trace.push(
                EventView {
                    time: self.time as int,
                    kind: EventKindView::UserLocalMessage(to as int, msg),
                },
            ),
            ..self
        }
    }

    /// The state in which the receiver's handler runs after pending entry
    /// `k`, a `MessageDelivered`, is applied: the delivery is traced, the
    /// entry leaves the pending set, and the receiver is the current
    /// process.
    pub open spec fn delivery_dispatch(self, k: int) -> SysModel {
        SysModel {
            trace: self.trace.push(
                EventView { time: self.time as int, kind: self.pending[k] },
            ),
            pending: self.pending.remove(k),
            cur: Some(message_event_receiver(self.pending[k]) as ProcessId),
            ..self
        }
    }

    /// The state right after pending entry `k`, an `AckDelivered`, is
    /// applied: the delivery is traced, the entry leaves the pending set,
    /// the message's acknowledgement slot receives `true`, and a task
    /// watching that slot is enqueued at the back of the ready queue.
    pub open spec fn ack_resolution(self, k: int) -> SysModel {
        let id = message_event_id(self.pending[k]);
        let woken = match self.acks[id] {
            SharedState::Waiting(t) => self.ready.push(t),
            _ => self.ready,
        };
        SysModel {
            trace: self.trace.push(EventView { time: self.time as int, kind: self.pending[k] }),
            pending: self.pending.remove(k),
            acks: self.acks.update(id, SharedState::Ready(true)),
            ready: woken,
            ..self
        }
    }
}

// ---------------------------------------------------------------------------
// Prefix and evolution helper lemmas.
// ---------------------------------------------------------------------------
proof fn lemma_prefix_refl<A>(s: Seq<A>)
    ensures
        s.is_prefix_of(s),
{
    assert(s =~= s.subrange(0, s.len() as int));
}

proof fn lemma_prefix_push<A>(s: Seq<A>, e: A)
    ensures
        s.is_prefix_of(s.push(e)),
{
    assert(s =~= s.push(e).subrange(0, s.len() as int));
}

proof fn lemma_prefix_trans<A>(a: Seq<A>, b: Seq<A>, c: Seq<A>)
    requires
        a.is_prefix_of(b),
        b.is_prefix_of(c),
    ensures
        a.is_prefix_of(c),
{
    assert(a =~= c.subrange(0, a.len() as int));
}

proof fn lemma_drained_refl(m: SysModel)
    ensures
        m.drained_to(m),
{
    lemma_prefix_refl(m.trace);
    lemma_prefix_refl(m.pending);
    assert forall|p: int| 0 <= p < m.outboxes.len() implies (#[trigger] m.outboxes[p]).is_prefix_of(
        m.outboxes[p],
    ) by {
        lemma_prefix_refl(m.outboxes[p]);
    }
}

proof fn lemma_drained_trans(a: SysModel, b: SysModel, c: SysModel)
    requires
        a.drained_to(b),
        b.drained_to(c),
    ensures
        a.drained_to(c),
{
    lemma_prefix_trans(a.trace, b.trace, c.trace);
    lemma_prefix_trans(a.pending, b.pending, c.pending);
    assert forall|p: int| 0 <= p < a.outboxes.len() implies (#[trigger] a.outboxes[p]).is_prefix_of(
        c.outboxes[p],
    ) by {
        lemma_prefix_trans(a.outboxes[p], b.outboxes[p], c.outboxes[p]);
    }
    assert forall|i: int| a.trace.len() <= i < c.trace.len() implies (#[trigger] c.trace[i]).time
        == a.time by {
        if i < b.trace.len() {
            assert(b.trace[i] == c.trace[i]);
        }
    }
    assert forall|i: int| 0 <= i < a.acks.len() implies (c.acks[i] == (#[trigger] a.acks[i])
        || c.acks[i] is Waiting) by {
        assert(b.acks[i] == a.acks[i] || b.acks[i] is Waiting);
        assert(c.acks[i] == b.acks[i] || c.acks[i] is Waiting);
    }
}

proof fn lemma_extended_implies_drained(a: SysModel, b: SysModel)
    requires
        a.extended_by(b),
    ensures
        a.drained_to(b),
{
}

proof fn lemma_drained_quiesced(a: SysModel, b: SysModel, c: SysModel)
    requires
        a.drained_to(b),
        b.quiesced_to(c),
    ensures
        a.quiesced_to(c),
{
    lemma_prefix_trans(a.trace, b.trace, c.trace);
    assert forall|p: int| 0 <= p < a.outboxes.len() implies (#[trigger] a.outboxes[p]).is_prefix_of(
        c.outboxes[p],
    ) by {
        lemma_prefix_trans(a.outboxes[p], b.outboxes[p], c.outboxes[p]);
    }
    assert forall|i: int| a.trace.len() <= i < c.trace.len() implies (#[trigger] c.trace[i]).time
        == a.time by {
        if i < b.trace.len() {
            assert(b.trace[i] == c.trace[i]);
        }
    }
}

// ---------------------------------------------------------------------------
// Invariant preservation lemmas.
// ---------------------------------------------------------------------------
/// Appending a trace event keeps every entry lifecycle-consistent,
/// provided the new event's rank equals the count of its predecessors.
proof fn lemma_trace_inv_push(tr: Seq<EventView>, e: EventView, n1: int, n2: int)
    requires
        forall|i: int| 0 <= i < tr.len() ==> #[trigger] trace_entry_ok(tr, i, n1),
        n1 <= n2,
        is_message_event(e.kind) ==> {
            &&& 0 <= message_event_id(e.kind) < n2
            &&& message_event_rank(e.kind) == message_event_count(tr, message_event_id(e.kind))
        },
    ensures
        forall|i: int| 0 <= i < tr.push(e).len() ==> #[trigger] trace_entry_ok(tr.push(e), i, n2),
{
    let tr2 = tr.push(e);
    assert forall|i: int| 0 <= i < tr2.len() implies #[trigger] trace_entry_ok(tr2, i, n2) by {
        if i < tr.len() {
            assert(trace_entry_ok(tr, i, n1));
            assert(tr2[i] == tr[i]);
            assert(tr2.take(i) =~= tr.take(i));
        } else {
            assert(tr2[i] == e);
            assert(tr2.take(i) =~= tr);
        }
    }
}

/// Appending a trace event that speaks of no pending entry's message id
/// keeps every pending entry consistent.
proof fn lemma_pending_inv_push_trace(
    pend: Seq<EventKindView>,
    tr: Seq<EventView>,
    e: EventView,
    n1: int,
    n2: int,
)
    requires
        forall|k: int| 0 <= k < pend.len() ==> #[trigger] pending_entry_ok(pend, k, tr, n1),
        n1 <= n2,
        is_message_event(e.kind) ==> forall|k: int|
            0 <= k < pend.len() ==> message_event_id(#[trigger] pend[k]) != message_event_id(
                e.kind,
            ),
    ensures
        forall|k: int| 0 <= k < pend.len() ==> #[trigger] pending_entry_ok(pend, k, tr.push(e), n2),
{
    let tr2 = tr.push(e);
    assert forall|k: int| 0 <= k < pend.len() implies #[trigger] pending_entry_ok(
        pend,
        k,
        tr2,
        n2,
    ) by {
        assert(pending_entry_ok(pend, k, tr, n1));
        lemma_message_event_count_push(tr, e, message_event_id(pend[k]));
        assert forall|i: int|
            0 <= i < tr2.len() && is_message_event(#[trigger] tr2[i].kind) && message_event_id(
                tr2[i].kind,
            ) == message_event_id(pend[k]) implies message_events_agree(pend[k], tr2[i].kind) by {
            assert(tr2[i] == if i < tr.len() {
                tr[i]
            } else {
                e
            });
        }
    }
}

/// New `MessageSent` entries keep the sent ids strictly increasing as
/// long as the new id is at least the message count bound of the trace.
proof fn lemma_sent_increasing_push(tr: Seq<EventView>, e: EventView, n1: int)
    requires
        sent_ids_increasing(tr),
        forall|i: int| 0 <= i < tr.len() ==> #[trigger] trace_entry_ok(tr, i, n1),
        e.kind is MessageSent ==> message_event_id(e.kind) >= n1,
    ensures
        sent_ids_increasing(tr.push(e)),
{
    let tr2 = tr.push(e);
    assert forall|i: int, j: int|
        #![trigger tr2[i].kind, tr2[j].kind]
        0 <= i < j < tr2.len() && tr2[i].kind is MessageSent && tr2[j].kind
            is MessageSent implies message_event_id(tr2[i].kind) < message_event_id(
        tr2[j].kind,
    ) by {
        assert(tr2[i] == tr[i]);
        if j < tr.len() {
            assert(tr2[j] == tr[j]);
        } else {
            assert(tr2[j] == e);
            assert(trace_entry_ok(tr, i, n1));
        }
    }
}

/// A new trace entry that agrees with every earlier lifecycle entry of
/// its message keeps the participants consistent.
proof fn lemma_participants_push(tr: Seq<EventView>, e: EventView)
    requires
        participants_ok(tr),
        forall|i: int|
            0 <= i < tr.len() && is_message_event(#[trigger] tr[i].kind) && is_message_event(
                e.kind,
            ) && message_event_id(tr[i].kind) == message_event_id(e.kind)
                ==> message_events_agree(tr[i].kind, e.kind),
    ensures
        participants_ok(tr.push(e)),
{
    let tr2 = tr.push(e);
    assert forall|i: int, j: int|
        #![trigger tr2[i].kind, tr2[j].kind]
        0 <= i < j < tr2.len() && is_message_event(tr2[i].kind) && is_message_event(tr2[j].kind)
            && message_event_id(tr2[i].kind) == message_event_id(
            tr2[j].kind,
        ) implies message_events_agree(tr2[i].kind, tr2[j].kind) by {
        assert(tr2[i] == tr[i]);
        assert(tr2[j] == if j < tr.len() {
            tr[j]
        } else {
            e
        });
    }
}

/// Appending an event carrying the current time keeps the timestamps
/// bounded and sorted.
proof fn lemma_times_ok_push(tr: Seq<EventView>, e: EventView, time: int)
    requires
        times_ok(tr, time),
        e.time == time,
    ensures
        times_ok(tr.push(e), time),
{
    let tr2 = tr.push(e);
    assert forall|i: int| 0 <= i < tr2.len() implies (#[trigger] tr2[i]).time <= time by {
        if i < tr.len() {
            assert(tr2[i] == tr[i]);
        }
    }
    assert forall|i: int, j: int|
        #![trigger tr2[i].time, tr2[j].time]
        0 <= i <= j < tr2.len() implies tr2[i].time <= tr2[j].time by {
        assert(tr2[i] == if i < tr.len() { tr[i] } else { e });
        assert(tr2[j] == if j < tr.len() { tr[j] } else { e });
    }
}

// ---------------------------------------------------------------------------
// The execution context.
// ---------------------------------------------------------------------------
/// State of one simulation: ready-task queue, task arena, current-process
/// marker, local outboxes, trace, logical time, pending nondeterministic
/// events and acknowledgement slots.
///
/// A `System` owns one; process handlers and task bodies receive it as
/// their explicit execution context and use it through `send`,
/// `send_local`, `spawn` and the handle `poll` operations.
pub struct SystemState<B> {
    /// Task ids ready to be polled, front first (FIFO).
    pending_tasks: Vec<TaskId>,
    /// Task arena, indexed by `TaskId`; the length is the next task id.
    /// A completed task (or one currently being polled) leaves `None`.
    tasks: Vec<Option<Task<B>>>,
    /// Result slot of each task, same index as `tasks`.
    join_slots: Vec<SharedState<u64>>,
    /// Process which owns the currently executing task, or whose handler
    /// is called now.
    current_process: Option<ProcessId>,
    /// Task currently being polled, registered as watcher by handle polls.
    current_task: Option<TaskId>,
    /// Per-process local outboxes, indexed by `ProcessId`.
    local_messages: Vec<Vec<String>>,
    /// Append-only history of everything that happened.
    trace: Vec<Event>,
    /// Logical time.
    time: u64,
    /// Acknowledgement slot of each sent message, indexed by `MessageId`;
    /// the length is the next message id.
    waiting_ack: Vec<SharedState<bool>>,
    /// Enabled, not yet applied nondeterministic transitions.
    pending_events: Vec<EventKind>,
    /// How many scheduler steps (task polls) have ever been performed.
    steps: Ghost<int>,
}

impl<B> View for SystemState<B> {
    type V = SysModel;

    closed spec fn view(&self) -> SysModel {
        SysModel {
            ready: self.pending_tasks@,
            tasks: self.tasks@.map_values(
                |t: Option<Task<B>>|
                    match t {
                        Some(task) => Some(task.owner),
                        None => None,
                    },
            ),
            joins: self.join_slots@,
            cur: self.current_process,
            cur_task: self.current_task,
            outboxes: self.local_messages.deep_view(),
            trace: self.trace.deep_view(),
            time: self.time,
            acks: self.waiting_ack@,
            pending: self.pending_events.deep_view(),
            steps: self.steps@,
        }
    }
}

impl<B> SystemState<B> {
    /// The invariant every reachable simulation state satisfies.
    pub open spec fn wf(self) -> bool {
        self@.inv()
    }

    /// Append `kind` to the trace at the current time.
    pub(crate) fn add_event(&mut self, kind: EventKind)
        ensures
            final(self)@ == (SysModel {
                trace: old(self)@.trace.push(
                    (EventView { time: old(self)@.time as int, kind: kind@ }),
                ),
                ..old(self)@
            }),
    {
        let ghost pre = self@;
        let ghost kv = kind@;
        let time = self.time;
        self.trace.push(Event { time, kind });
        proof {
            assert(self.trace.deep_view() =~= pre.trace.push(
                EventView { time: pre.time as int, kind: kv },
            ));
            assert(self@ =~= (SysModel {
                trace: pre.trace.push(EventView { time: pre.time as int, kind: kv }),
                ..pre
            }));
        }
    }

    /// Advance logical time by one unit.
    pub(crate) fn inc_time(&mut self)
        requires
            old(self)@.time < u64::MAX,
        ensures
            final(self)@ == (SysModel { time: (old(self)@.time + 1) as u64, ..old(self)@ }),
    {
        let ghost pre = self@;
        self.time = self.time + 1;
        proof {
            assert(self@ =~= (SysModel { time: (pre.time + 1) as u64, ..pre }));
        }
    }

    /// The current process pushes `msg` into its own local outbox; traced
    /// as a `ProcLocalMessage`.
    pub(crate) fn send_local(&mut self, msg: String)
        requires
            old(self).wf(),
            old(self)@.cur is Some,
        ensures
            final(self).wf(),
            old(self)@.extended_by(final(self)@),
            old(self)@.cur matches Some(p) ==> final(self)@ == (SysModel {
                trace: old(self)@.trace.push(
                    (EventView {
                        time: old(self)@.time as int,
                        kind: EventKindView::ProcLocalMessage(p as int, msg@),
                    }),
                ),
                outboxes: old(self)@.outboxes.update(
                    p as int,
                    old(self)@.outboxes[p as int].push(msg@),
                ),
                ..old(self)@
            }),
    {
        let ghost pre = self@;
        let ghost msgv = msg@;
        let p = self.current_process.unwrap();
        let cloned = msg.clone();
        let mut ob = self.local_messages.remove(p);
        ob.push(cloned);
        self.local_messages.insert(p, ob);
        let ghost mid = self@;
        proof {
            assert(self.local_messages@ =~= old(self).local_messages@.update(
                p as int,
                self.local_messages@[p as int],
            ));
            assert(self.local_messages.deep_view() =~~= pre.outboxes.update(
                p as int,
                pre.outboxes[p as int].push(msgv),
            ));
            assert(mid =~= (SysModel {
                outboxes: pre.outboxes.update(p as int, pre.outboxes[p as int].push(msgv)),
                ..pre
            }));
        }
        self.add_event(EventKind::ProcLocalMessage(p, msg));
        proof {
            let ev = EventView {
                time: pre.time as int,
                kind: EventKindView::ProcLocalMessage(p as int, msgv),
            };
            let post = self@;
            assert(post == (SysModel {
                trace: pre.trace.push(ev),
                outboxes: pre.outboxes.update(p as int, pre.outboxes[p as int].push(msgv)),
                ..pre
            }));
            lemma_trace_inv_push(pre.trace, ev, pre.acks.len() as int, pre.acks.len() as int);
            lemma_pending_inv_push_trace(
                pre.pending,
                pre.trace,
                ev,
                pre.acks.len() as int,
                pre.acks.len() as int,
            );
            lemma_sent_increasing_push(pre.trace, ev, pre.acks.len() as int);
            lemma_participants_push(pre.trace, ev);
            lemma_times_ok_push(pre.trace, ev, pre.time as int);
            assert forall|i: int|
                0 <= i < post.acks.len() implies ((#[trigger] post.acks[i])
                matches SharedState::Ready(v) ==> (v == true && message_event_count(
                post.trace,
                i,
            ) == 4)) by {
                lemma_message_event_count_push(pre.trace, ev, i);
            }
            assert(post.inv());
            lemma_prefix_push(pre.trace, ev);
            lemma_prefix_refl(pre.pending);
            lemma_prefix_refl(pre.tasks);
            lemma_prefix_refl(pre.ready);
            assert forall|i: int|
                pre.trace.len() <= i < post.trace.len() implies ((#[trigger] post.trace[i]).kind
                is ProcLocalMessage || post.trace[i].kind is MessageSent) by {
                assert(post.trace[i] == ev);
            }
            assert forall|q: int| 0 <= q < pre.outboxes.len() implies (
            #[trigger] pre.outboxes[q]).is_prefix_of(post.outboxes[q]) by {
                if q == p as int {
                    lemma_prefix_push(pre.outboxes[q], msgv);
                } else {
                    lemma_prefix_refl(pre.outboxes[q]);
                }
            }
            assert(pre.extended_by(post));
        }
    }

    /// The current process initiates a message to `to`: the next message
    /// id is allocated, `MessageSent` is traced at once, delivery becomes
    /// a new pending event and a fresh acknowledgement slot is registered.
    pub(crate) fn send(&mut self, to: ProcessId, msg: String) -> (h: AckHandle)
        requires
            old(self).wf(),
            old(self)@.cur is Some,
        ensures
            final(self).wf(),
            old(self)@.extended_by(final(self)@),
            h@ == old(self)@.acks.len(),
            old(self)@.cur matches Some(p) ==> final(self)@ == (SysModel {
                trace: old(self)@.trace.push(
                    (EventView {
                        time: old(self)@.time as int,
                        kind: EventKindView::MessageSent(
                            p as int,
                            to as int,
                            old(self)@.acks.len() as int,
                            msg@,
                        ),
                    }),
                ),
                acks: old(self)@.acks.push(SharedState::Initial),
                pending: old(self)@.pending.push(
                    EventKindView::MessageDelivered(
                        p as int,
                        to as int,
                        old(self)@.acks.len() as int,
                        msg@,
                    ),
                ),
                ..old(self)@
            }),
    {
        let ghost pre = self@;
        let ghost msgv = msg@;
        let from = self.current_process.unwrap();
        let msg_id = self.waiting_ack.len();
        self.waiting_ack.push(SharedState::Initial);
        let cloned = msg.clone();
        self.add_event(EventKind::MessageSent(from, to, msg_id, cloned));
        self.pending_events.push(EventKind::MessageDelivered(from, to, msg_id, msg));
        let ghost post = self@;
        proof {
            let n = pre.acks.len() as int;
            let sev = EventView {
                time: pre.time as int,
                kind: EventKindView::MessageSent(from as int, to as int, n, msgv),
            };
            let dev = EventKindView::MessageDelivered(from as int, to as int, n, msgv);
            assert(self.pending_events.deep_view() =~= pre.pending.push(dev));
            assert(post == (SysModel {
                trace: pre.trace.push(sev),
                acks: pre.acks.push(SharedState::Initial),
                pending: pre.pending.push(dev),
                ..pre
            }));
            // The freshly allocated id appears nowhere in the trace yet.
            assert forall|i: int|
                0 <= i < pre.trace.len() implies !(is_message_event(
                #[trigger] pre.trace[i].kind) && message_event_id(pre.trace[i].kind) == n) by {
                assert(trace_entry_ok(pre.trace, i, n));
            }
            lemma_message_event_count_absent(pre.trace, n);
            lemma_trace_inv_push(pre.trace, sev, n, n + 1);
            assert forall|k: int|
                0 <= k < pre.pending.len() implies message_event_id(#[trigger] pre.pending[k])
                != n by {
                assert(pending_entry_ok(pre.pending, k, pre.trace, n));
            }
            lemma_pending_inv_push_trace(pre.pending, pre.trace, sev, n, n + 1);
            lemma_sent_increasing_push(pre.trace, sev, n);
            assert forall|i: int|
                0 <= i < pre.trace.len() && is_message_event(#[trigger] pre.trace[i].kind)
                    && is_message_event(sev.kind) && message_event_id(pre.trace[i].kind)
                    == message_event_id(sev.kind) implies message_events_agree(
                pre.trace[i].kind,
                sev.kind,
            ) by {
                assert(trace_entry_ok(pre.trace, i, n));
            }
            lemma_participants_push(pre.trace, sev);
            lemma_times_ok_push(pre.trace, sev, pre.time as int);
            // The new pending entry is consistent: its count is exactly 1
            // and the only trace entry of its message is the send itself.
            lemma_message_event_count_push(pre.trace, sev, n);
            assert forall|k: int| 0 <= k < post.pending.len() implies #[trigger] pending_entry_ok(
                post.pending,
                k,
                post.trace,
                n + 1,
            ) by {
                if k < pre.pending.len() {
                    assert(pending_entry_ok(pre.pending, k, post.trace, n + 1));
                    assert(post.pending[k] == pre.pending[k]);
                } else {
                    assert(post.pending[k] == dev);
                    assert forall|i: int|
                        0 <= i < post.trace.len() && is_message_event(
                            #[trigger] post.trace[i].kind,
                        ) && message_event_id(post.trace[i].kind) == message_event_id(
                            dev,
                        ) implies message_events_agree(dev, post.trace[i].kind) by {
                        if i < pre.trace.len() {
                            assert(trace_entry_ok(pre.trace, i, n));
                            assert(post.trace[i] == pre.trace[i]);
                        } else {
                            assert(post.trace[i] == sev);
                        }
                    }
                }
            }
            assert forall|i: int|
                0 <= i < post.acks.len() implies ((#[trigger] post.acks[i])
                matches SharedState::Ready(v) ==> (v == true && message_event_count(
                post.trace,
                i,
            ) == 4)) by {
                if i < pre.acks.len() {
                    lemma_message_event_count_push(pre.trace, sev, i);
                } else {
                    assert(post.acks[i] == SharedState::<bool>::Initial);
                }
            }
            assert(post.inv());
            lemma_prefix_push(pre.trace, sev);
            lemma_prefix_push(pre.pending, dev);
            lemma_prefix_refl(pre.tasks);
            lemma_prefix_refl(pre.ready);
            assert forall|i: int|
                pre.trace.len() <= i < post.trace.len() implies ((#[trigger] post.trace[i]).kind
                is ProcLocalMessage || post.trace[i].kind is MessageSent) by {
                assert(post.trace[i] == sev);
            }
            assert forall|q: int| 0 <= q < pre.outboxes.len() implies (
            #[trigger] pre.outboxes[q]).is_prefix_of(post.outboxes[q]) by {
                lemma_prefix_refl(pre.outboxes[q]);
            }
            assert(pre.extended_by(post));
        }
        AckHandle::for_message(msg_id)
    }

    /// Register a new task owned by the current process and enqueue it.
    pub(crate) fn spawn(&mut self, body: B) -> (h: JoinHandle)
        requires
            old(self).wf(),
            old(self)@.cur is Some,
        ensures
            final(self).wf(),
            old(self)@.extended_by(final(self)@),
            h@ == old(self)@.tasks.len(),
            old(self)@.cur matches Some(p) ==> final(self)@ == (SysModel {
                tasks: old(self)@.tasks.push(Some(p)),
                joins: old(self)@.joins.push(SharedState::Initial),
                ready: old(self)@.ready.push(old(self)@.tasks.len() as usize),
                ..old(self)@
            }),
    {
        let ghost pre = self@;
        let owner = self.current_process.unwrap();
        let id = self.tasks.len();
        self.tasks.push(Some(Task { owner, body }));
        self.join_slots.push(SharedState::Initial);
        self.pending_tasks.push(id);
        let ghost post = self@;
        proof {
            assert(post.tasks =~= pre.tasks.push(Some(owner)));
            assert(post == (SysModel {
                tasks: pre.tasks.push(Some(owner)),
                joins: pre.joins.push(SharedState::Initial),
                ready: pre.ready.push(id),
                ..pre
            }));
            assert forall|i: int|
                0 <= i < post.tasks.len() implies ((#[trigger] post.tasks[i]) is Some ==> !(
                post.joins[i] is Ready)) by {
                if i < pre.tasks.len() {
                    assert(post.tasks[i] == pre.tasks[i]);
                    assert(post.joins[i] == pre.joins[i]);
                } else {
                    assert(post.joins[i] == SharedState::<u64>::Initial);
                }
            }
            assert(post.inv());
            lemma_prefix_refl(pre.trace);
            lemma_prefix_refl(pre.pending);
            lemma_prefix_push(pre.tasks, Some(owner));
            lemma_prefix_push(pre.ready, id);
            assert forall|q: int| 0 <= q < pre.outboxes.len() implies (
            #[trigger] pre.outboxes[q]).is_prefix_of(post.outboxes[q]) by {
                lemma_prefix_refl(pre.outboxes[q]);
            }
            assert(pre.extended_by(post));
        }
        JoinHandle::for_task(id)
    }

    /// Poll the acknowledgement slot `idx` on behalf of the current task.
    pub(crate) fn poll_ack_slot(&mut self, idx: MessageId) -> (r: Option<bool>)
        requires
            old(self).wf(),
            old(self)@.cur_task matches Some(t) ==> (idx < old(self)@.acks.len() ==> (old(
                self,
            )@.acks[idx as int] matches SharedState::Waiting(t2) ==> t2 == t)),
        ensures
            final(self).wf(),
            old(self)@.extended_by(final(self)@),
            old(self)@.cur_task matches Some(t) ==> (idx < old(self)@.acks.len() ==> {
                &&& final(self)@ == (SysModel {
                    acks: old(self)@.acks.update(idx as int, SharedState::Waiting(t)),
                    ..old(self)@
                })
                &&& (old(self)@.acks[idx as int] matches SharedState::Ready(v) ==> r == Some(v))
                &&& (!(old(self)@.acks[idx as int] is Ready) ==> r is None)
            }),
            !(old(self)@.cur_task is Some && idx < old(self)@.acks.len()) ==> {
                &&& r is None
                &&& final(self)@ == old(self)@
            },
    {
        let ghost pre = self@;
        match self.current_task {
            None => {
                proof {
                    lemma_self_extended(pre);
                }
                None
            },
            Some(t) => {
                if idx < self.waiting_ack.len() {
                    let mut slot = self.waiting_ack.remove(idx);
                    let r = slot.take(t);
                    self.waiting_ack.insert(idx, slot);
                    let ghost post = self@;
                    proof {
                        assert(post.acks =~= pre.acks.update(
                            idx as int,
                            SharedState::Waiting(t),
                        ));
                        assert(post == (SysModel {
                            acks: pre.acks.update(idx as int, SharedState::Waiting(t)),
                            ..pre
                        }));
                        assert(post.inv());
                        lemma_slot_update_extended(pre, post);
                    }
                    r
                } else {
                    proof {
                        lemma_self_extended(pre);
                    }
                    None
                }
            },
        }
    }

    /// Poll the result slot of task `idx` on behalf of the current task.
    pub(crate) fn poll_join_slot(&mut self, idx: TaskId) -> (r: Option<u64>)
        requires
            old(self).wf(),
            old(self)@.cur_task matches Some(t) ==> (idx < old(self)@.joins.len() ==> (old(
                self,
            )@.joins[idx as int] matches SharedState::Waiting(t2) ==> t2 == t)),
        ensures
            final(self).wf(),
            old(self)@.extended_by(final(self)@),
            old(self)@.cur_task matches Some(t) ==> (idx < old(self)@.joins.len() ==> {
                &&& final(self)@ == (SysModel {
                    joins: old(self)@.joins.update(idx as int, SharedState::Waiting(t)),
                    ..old(self)@
                })
                &&& (old(self)@.joins[idx as int] matches SharedState::Ready(v) ==> r == Some(v))
                &&& (!(old(self)@.joins[idx as int] is Ready) ==> r is None)
            }),
            !(old(self)@.cur_task is Some && idx < old(self)@.joins.len()) ==> {
                &&& r is None
                &&& final(self)@ == old(self)@
            },
    {
        let ghost pre = self@;
        match self.current_task {
            None => {
                proof {
                    lemma_self_extended(pre);
                }
                None
            },
            Some(t) => {
                if idx < self.join_slots.len() {
                    let mut slot = self.join_slots.remove(idx);
                    let r = slot.take(t);
                    self.join_slots.insert(idx, slot);
                    let ghost post = self@;
                    proof {
                        assert(post.joins =~= pre.joins.update(
                            idx as int,
                            SharedState::Waiting(t),
                        ));
                        assert(post == (SysModel {
                            joins: pre.joins.update(idx as int, SharedState::Waiting(t)),
                            ..pre
                        }));
                        assert(post.inv());
                        lemma_slot_update_extended(pre, post);
                    }
                    r
                } else {
                    proof {
                        lemma_self_extended(pre);
                    }
                    None
                }
            },
        }
    }

    /// Complete task `tid` with `value`: fill its result slot and wake the
    /// watcher, if one was registered.
    pub(crate) fn complete_task(&mut self, tid: TaskId, value: u64)
        requires
            old(self).wf(),
            tid < old(self)@.joins.len(),
            old(self)@.tasks[tid as int] is None,
            !(old(self)@.joins[tid as int] is Ready),
        ensures
            final(self).wf(),
            old(self)@.joins[tid as int] matches SharedState::Waiting(t) ==> final(self)@ == (
            SysModel {
                joins: old(self)@.joins.update(tid as int, SharedState::Ready(value)),
                ready: old(self)@.ready.push(t),
                ..old(self)@
            }),
            !(old(self)@.joins[tid as int] is Waiting) ==> final(self)@ == (SysModel {
                joins: old(self)@.joins.update(tid as int, SharedState::Ready(value)),
                ..old(self)@
            }),
    {
        let ghost pre = self@;
        let mut slot = self.join_slots.remove(tid);
        let w = slot.put(value);
        self.join_slots.insert(tid, slot);
        proof {
            assert(self.join_slots@ =~= pre.joins.update(tid as int, SharedState::Ready(value)));
        }
        match w {
            Some(t) => {
                self.pending_tasks.push(t);
                proof {
                    assert(self@ == (SysModel {
                        joins: pre.joins.update(tid as int, SharedState::Ready(value)),
                        ready: pre.ready.push(t),
                        ..pre
                    }));
                    assert(self@.inv());
                }
            },
            None => {
                proof {
                    assert(self@ == (SysModel {
                        joins: pre.joins.update(tid as int, SharedState::Ready(value)),
                        ..pre
                    }));
                    assert(self@.inv());
                }
            },
        }
    }

    /// Resolve the acknowledgement of message `id`: fill its slot with
    /// `true` and wake the watcher, if one was registered.
    pub(crate) fn deliver_ack(&mut self, id: MessageId)
        requires
            old(self).wf(),
            id < old(self)@.acks.len(),
            !(old(self)@.acks[id as int] is Ready),
            message_event_count(old(self)@.trace, id as int) == 4,
        ensures
            final(self).wf(),
            old(self)@.acks[id as int] matches SharedState::Waiting(t) ==> final(self)@ == (
            SysModel {
                acks: old(self)@.acks.update(id as int, SharedState::Ready(true)),
                ready: old(self)@.ready.push(t),
                ..old(self)@
            }),
            !(old(self)@.acks[id as int] is Waiting) ==> final(self)@ == (SysModel {
                acks: old(self)@.acks.update(id as int, SharedState::Ready(true)),
                ..old(self)@
            }),
    {
        let ghost pre = self@;
        let mut slot = self.waiting_ack.remove(id);
        let w = slot.put(true);
        self.waiting_ack.insert(id, slot);
        proof {
            assert(self.waiting_ack@ =~= pre.acks.update(id as int, SharedState::Ready(true)));
        }
        match w {
            Some(t) => {
                self.pending_tasks.push(t);
                proof {
                    assert(self@ == (SysModel {
                        acks: pre.acks.update(id as int, SharedState::Ready(true)),
                        ready: pre.ready.push(t),
                        ..pre
                    }));
                    assert(self@.inv());
                }
            },
            None => {
                proof {
                    assert(self@ == (SysModel {
                        acks: pre.acks.update(id as int, SharedState::Ready(true)),
                        ..pre
                    }));
                    assert(self@.inv());
                }
            },
        }
    }
}

// ---------------------------------------------------------------------------
// The public facade.
// ---------------------------------------------------------------------------
/// The simulation facade: owns the registered processes and the simulation
/// state; the only long-lived, externally held object.
///
/// Every operation is a deterministic function of the state and its
/// arguments: the engine itself draws on no source of nondeterminism, so
/// the same process implementations driven by the same sequence of
/// injections and pending-event choices reproduce the same trace.  That
/// property relates two runs and the behaviour of user-supplied handlers,
/// so it is not statable as a single contract here; the tests exercise it
/// by replaying a choice sequence.
pub struct System<P, B> {
    proc: Vec<P>,
    state: SystemState<B>,
}

impl<P, B> System<P, B> {
    /// Mathematical state of the owned simulation.
    pub closed spec fn model(self) -> SysModel {
        self.state@
    }

    /// The registered processes, in registration order.
    pub closed spec fn procs(self) -> Seq<P> {
        self.proc@
    }

    /// Number of registered processes.
    pub open spec fn nprocs(self) -> nat {
        self.procs().len()
    }

    /// Well-formed: the simulation invariant holds and every registered
    /// process owns exactly one outbox.
    pub open spec fn wf(self) -> bool {
        &&& self.model().inv()
        &&& self.model().outboxes.len() == self.nprocs()
    }
}

impl<P, B> System<P, B> {
    /// Register `process`; its id is the next dense index, never reused.
    pub fn add_process(&mut self, process: P) -> (id: ProcessId)
        requires
            old(self).wf(),
        ensures
            final(self).wf(),
            id == old(self).nprocs(),
            final(self).procs() == old(self).procs().push(process),
            final(self).model() == (SysModel {
                outboxes: old(self).model().outboxes.push(Seq::empty()),
                ..old(self).model()
            }),
    {
        let ghost pre = self.model();
        let id = self.proc.len();
        self.proc.push(process);
        self.state.local_messages.push(Vec::new());
        proof {
            assert(self.state.local_messages.deep_view() =~~= pre.outboxes.push(Seq::empty()));
            assert(self.model() =~= (SysModel {
                outboxes: pre.outboxes.push(Seq::empty()),
                ..pre
            }));
            assert(self.model().inv());
        }
        id
    }

    /// Atomically drain and return everything `proc`'s outbox accumulated
    /// since the last drain, in send order.  A second immediate read
    /// returns an empty sequence: reading consumes, it does not peek.
    pub fn read_local(&mut self, proc: ProcessId) -> (msgs: Vec<String>)
        requires
            old(self).wf(),
            proc < old(self).nprocs(),
        ensures
            final(self).wf(),
            msgs.deep_view() == old(self).model().outboxes[proc as int],
            final(self).procs() == old(self).procs(),
            final(self).model() == (SysModel {
                outboxes: old(self).model().outboxes.update(proc as int, Seq::empty()),
                ..old(self).model()
            }),
    {
        let ghost pre = self.model();
        let msgs = self.state.local_messages.remove(proc);
        self.state.local_messages.insert(proc, Vec::new());
        proof {
            assert(msgs.deep_view() =~~= pre.outboxes[proc as int]);
            assert(self.state.local_messages.deep_view() =~~= pre.outboxes.update(
                proc as int,
                Seq::empty(),
            ));
            assert(self.model() =~= (SysModel {
                outboxes: pre.outboxes.update(proc as int, Seq::empty()),
                ..pre
            }));
            assert(self.model().inv());
        }
        msgs
    }

    /// The full historical event log since creation, as a copy.
    pub fn get_trace(&self) -> (tr: Vec<Event>)
        ensures
            tr.deep_view() == self.model().trace,
    {
        let tr = self.state.trace.clone();
        proof {
            assert forall|i: int| 0 <= i < tr@.len() implies tr@[i] == self.state.trace@[i] by {
                assert(cloned::<Event>(self.state.trace@[i], tr@[i]));
            }
            assert(tr@ =~= self.state.trace@);
            assert(tr.deep_view() =~~= self.model().trace);
        }
        tr
    }

    /// A copy of the pending (nondeterministic) event kinds, in their
    /// current order; entry `i` is what `apply_pending_event(i)` would
    /// apply next.
    pub fn get_pending_events(&self) -> (evs: Vec<EventKind>)
        ensures
            evs.deep_view() == self.model().pending,
    {
        let evs = self.state.pending_events.clone();
        proof {
            assert forall|i: int|
                0 <= i < evs@.len() implies evs@[i] == self.state.pending_events@[i] by {
                assert(cloned::<EventKind>(self.state.pending_events@[i], evs@[i]));
            }
            assert(evs@ =~= self.state.pending_events@);
            assert(evs.deep_view() =~~= self.model().pending);
        }
        evs
    }

    /// How many pending choices there are: the valid index range for the
    /// next `apply_pending_event` call is `[0, count)`.
    pub fn get_pending_events_count(&self) -> (n: usize)
        ensures
            n == self.model().pending.len(),
    {
        self.state.pending_events.len()
    }
}

impl<P, B> Default for System<P, B> {
    /// A fresh simulation: no processes, no tasks, empty trace, time 0.
    fn default() -> (s: System<P, B>)
        ensures
            s.wf(),
            s.nprocs() == 0,
            s.model() == SysModel::init(),
    {
        let s = System {
            proc: Vec::new(),
            state: SystemState {
                pending_tasks: Vec::new(),
                tasks: Vec::new(),
                join_slots: Vec::new(),
                current_process: None,
                current_task: None,
                local_messages: Vec::new(),
                trace: Vec::new(),
                time: 0,
                waiting_ack: Vec::new(),
                pending_events: Vec::new(),
                steps: Ghost(0),
            },
        };
        proof {
            assert(s.model() =~~= SysModel::init());
        }
        s
    }
}

// ---------------------------------------------------------------------------
// Application of pending events: invariant lemmas.
// ---------------------------------------------------------------------------
/// Raising the time bound keeps trace timestamps consistent.
proof fn lemma_times_ok_advance(tr: Seq<EventView>, t1: int, t2: int)
    requires
        times_ok(tr, t1),
        t1 <= t2,
    ensures
        times_ok(tr, t2),
{
}

/// States that agree on trace, pending, outboxes, acknowledgement slots
/// and time, with arenas and the step count only growing, evolve
/// trivially.
proof fn lemma_drained_same_obs(a: SysModel, b: SysModel)
    requires
        b.outboxes == a.outboxes,
        b.time == a.time,
        b.trace == a.trace,
        b.pending == a.pending,
        b.acks == a.acks,
        b.steps >= a.steps,
        b.tasks.len() >= a.tasks.len(),
        b.joins.len() >= a.joins.len(),
    ensures
        a.drained_to(b),
{
    lemma_prefix_refl(a.trace);
    lemma_prefix_refl(a.pending);
    assert forall|p: int| 0 <= p < a.outboxes.len() implies (#[trigger] a.outboxes[p]).is_prefix_of(
        b.outboxes[p],
    ) by {
        lemma_prefix_refl(a.outboxes[p]);
    }
}

/// If the index is within the prefix, both sequences agree there.
proof fn lemma_prefix_index<A>(a: Seq<A>, b: Seq<A>, i: int)
    requires
        a.is_prefix_of(b),
        0 <= i < a.len(),
    ensures
        a[i] == b[i],
{
}

/// Composition of a full driver call: if the step from `pre` to `mid`
/// only appended history at the current time, with arenas and step count
/// only growing (the pending set may have changed arbitrarily), then a
/// quiescence round after it completes a quiescence round from `pre`.
proof fn lemma_quiesced_obs(pre: SysModel, mid: SysModel, fin: SysModel)
    requires
        pre.trace.is_prefix_of(mid.trace),
        forall|i: int|
            pre.trace.len() <= i < mid.trace.len() ==> (#[trigger] mid.trace[i]).time == pre.time,
        mid.outboxes.len() == pre.outboxes.len(),
        forall|p: int|
            0 <= p < pre.outboxes.len() ==> (#[trigger] pre.outboxes[p]).is_prefix_of(
                mid.outboxes[p],
            ),
        mid.time == pre.time,
        mid.steps >= pre.steps,
        mid.tasks.len() >= pre.tasks.len(),
        mid.joins.len() >= pre.joins.len(),
        mid.acks.len() >= pre.acks.len(),
        mid.quiesced_to(fin),
    ensures
        pre.quiesced_to(fin),
{
    lemma_prefix_trans(pre.trace, mid.trace, fin.trace);
    assert forall|i: int| pre.trace.len() <= i < fin.trace.len() implies (
    #[trigger] fin.trace[i]).time == pre.time by {
        if i < mid.trace.len() {
            lemma_prefix_index(mid.trace, fin.trace, i);
        }
    }
    assert forall|p: int| 0 <= p < pre.outboxes.len() implies (
    #[trigger] pre.outboxes[p]).is_prefix_of(fin.outboxes[p]) by {
        lemma_prefix_trans(pre.outboxes[p], mid.outboxes[p], fin.outboxes[p]);
    }
}

/// A run of trace entries produced by user code (only local-output and
/// fresh-send entries) leaves the lifecycle count of a message already
/// under way untouched: a `MessageSent` of that message is impossible
/// there, because its rank would have to be zero.
proof fn lemma_count_stable_suffix(tr: Seq<EventView>, from: int, id: int, n: int)
    requires
        0 <= from <= tr.len(),
        forall|i: int| 0 <= i < tr.len() ==> #[trigger] trace_entry_ok(tr, i, n),
        forall|i: int|
            from <= i < tr.len() ==> ((#[trigger] tr[i]).kind is ProcLocalMessage || tr[i].kind
                is MessageSent),
        message_event_count(tr.take(from), id) >= 1,
    ensures
        message_event_count(tr, id) == message_event_count(tr.take(from), id),
    decreases tr.len() - from,
{
    if from < tr.len() {
        lemma_message_event_count_take_succ(tr, from, id);
        if is_message_event(tr[from].kind) && message_event_id(tr[from].kind) == id {
            assert(trace_entry_ok(tr, from, n));
            assert(message_event_rank(tr[from].kind) == 0);
            assert(false);
        }
        lemma_count_stable_suffix(tr, from + 1, id, n);
    } else {
        assert(tr.take(from) =~= tr);
    }
}

/// Tracing a pending delivery and handing control to the receiver
/// preserves the invariant: the delivery is the second lifecycle step of
/// its message and every other pending entry speaks of another message.
proof fn lemma_apply_md_dispatch(pre: SysModel, post: SysModel, k: int)
    requires
        pre.inv(),
        0 <= k < pre.pending.len(),
        pre.pending[k] is MessageDelivered,
        post == pre.delivery_dispatch(k),
        0 <= message_event_receiver(pre.pending[k]) < post.outboxes.len(),
    ensures
        post.inv(),
{
    let e = pre.pending[k];
    let id = message_event_id(e);
    let n = pre.acks.len() as int;
    let ev1 = EventView { time: pre.time as int, kind: e };
    assert(pending_entry_ok(pre.pending, k, pre.trace, n));
    lemma_trace_inv_push(pre.trace, ev1, n, n);
    lemma_message_event_count_push(pre.trace, ev1, id);
    lemma_sent_increasing_push(pre.trace, ev1, n);
    assert forall|i: int|
        0 <= i < pre.trace.len() && is_message_event(#[trigger] pre.trace[i].kind)
            && is_message_event(ev1.kind) && message_event_id(pre.trace[i].kind)
            == message_event_id(ev1.kind) implies message_events_agree(
        pre.trace[i].kind,
        ev1.kind,
    ) by {
        assert(message_events_agree(e, pre.trace[i].kind));
    }
    lemma_participants_push(pre.trace, ev1);
    lemma_times_ok_push(pre.trace, ev1, pre.time as int);
    assert forall|j: int| 0 <= j < post.pending.len() implies #[trigger] pending_entry_ok(
        post.pending,
        j,
        post.trace,
        n,
    ) by {
        let j0 = if j < k {
            j
        } else {
            j + 1
        };
        assert(post.pending[j] == pre.pending[j0]);
        assert(pending_entry_ok(pre.pending, j0, pre.trace, n));
        assert(message_event_id(pre.pending[j0]) != id);
        lemma_message_event_count_push(pre.trace, ev1, message_event_id(pre.pending[j0]));
        assert forall|i: int|
            0 <= i < post.trace.len() && is_message_event(#[trigger] post.trace[i].kind)
                && message_event_id(post.trace[i].kind) == message_event_id(
                pre.pending[j0],
            ) implies message_events_agree(pre.pending[j0], post.trace[i].kind) by {
            assert(post.trace[i] == if i < pre.trace.len() {
                pre.trace[i]
            } else {
                ev1
            });
        }
    }
    assert forall|k1: int, k2: int|
        #![trigger post.pending[k1], post.pending[k2]]
        0 <= k1 < k2 < post.pending.len() implies message_event_id(post.pending[k1])
        != message_event_id(post.pending[k2]) by {
        let j1 = if k1 < k {
            k1
        } else {
            k1 + 1
        };
        let j2 = if k2 < k {
            k2
        } else {
            k2 + 1
        };
        assert(post.pending[k1] == pre.pending[j1]);
        assert(post.pending[k2] == pre.pending[j2]);
    }
    // A message whose delivery is still pending cannot have a filled
    // acknowledgement slot, so all filled slots keep their counts.
    assert forall|i: int|
        0 <= i < post.acks.len() implies ((#[trigger] post.acks[i]) matches SharedState::Ready(v)
            ==> (v == true && message_event_count(post.trace, i) == 4)) by {
        lemma_message_event_count_push(pre.trace, ev1, i);
    }
}

/// After the receiver's handler ran, tracing the acknowledgement-sent
/// step and making the acknowledgement delivery pending preserves the
/// invariant: the handler can only have appended local output and fresh
/// sends, so the delivered message's lifecycle count is still two.
proof fn lemma_apply_md_ack(pre: SysModel, dis: SysModel, m3: SysModel, m4: SysModel, k: int)
    requires
        pre.inv(),
        0 <= k < pre.pending.len(),
        pre.pending[k] is MessageDelivered,
        dis == pre.delivery_dispatch(k),
        dis.extended_by(m3),
        m3.inv(),
        m4 == (SysModel {
            trace: m3.trace.push(
                (EventView { time: pre.time as int, kind: ack_sent_for(pre.pending[k]) }),
            ),
            pending: m3.pending.push(ack_delivered_for(pre.pending[k])),
            ..m3
        }),
    ensures
        m4.inv(),
{
    let e = pre.pending[k];
    let id = message_event_id(e);
    let n3 = m3.acks.len() as int;
    let ev1 = EventView { time: pre.time as int, kind: e };
    let ev2 = EventView { time: pre.time as int, kind: ack_sent_for(e) };
    let from = pre.trace.len() + 1;
    assert(pending_entry_ok(pre.pending, k, pre.trace, pre.acks.len() as int));
    // The delivered message counts exactly two lifecycle steps, before
    // and after the handler ran.
    assert(dis.trace =~= m3.trace.take(from as int));
    lemma_message_event_count_push(pre.trace, ev1, id);
    assert(message_event_count(m3.trace.take(from as int), id) == 2);
    lemma_count_stable_suffix(m3.trace, from as int, id, n3);
    assert(message_event_count(m3.trace, id) == 2);
    // The acknowledgement-sent entry is the third step.
    lemma_trace_inv_push(m3.trace, ev2, n3, n3);
    lemma_message_event_count_push(m3.trace, ev2, id);
    lemma_sent_increasing_push(m3.trace, ev2, n3);
    // The acknowledgement agrees with every earlier entry of its message,
    // through the delivery entry all of them agree with.
    assert(m3.trace[pre.trace.len() as int] == ev1);
    assert forall|i: int|
        0 <= i < m3.trace.len() && is_message_event(#[trigger] m3.trace[i].kind)
            && is_message_event(ev2.kind) && message_event_id(m3.trace[i].kind)
            == message_event_id(ev2.kind) implies message_events_agree(
        m3.trace[i].kind,
        ev2.kind,
    ) by {
        if i != pre.trace.len() as int {
            assert(message_events_agree(m3.trace[i].kind, ev1.kind));
        }
    }
    lemma_participants_push(m3.trace, ev2);
    lemma_times_ok_push(m3.trace, ev2, pre.time as int);
    assert forall|j: int| 0 <= j < m4.pending.len() implies #[trigger] pending_entry_ok(
        m4.pending,
        j,
        m4.trace,
        n3,
    ) by {
        if j < m3.pending.len() {
            assert(pending_entry_ok(m3.pending, j, m3.trace, n3));
            assert(message_event_id(m3.pending[j]) != id);
            assert(m4.pending[j] == m3.pending[j]);
            lemma_message_event_count_push(m3.trace, ev2, message_event_id(m3.pending[j]));
            assert forall|i: int|
                0 <= i < m4.trace.len() && is_message_event(#[trigger] m4.trace[i].kind)
                    && message_event_id(m4.trace[i].kind) == message_event_id(
                    m3.pending[j],
                ) implies message_events_agree(m3.pending[j], m4.trace[i].kind) by {
                assert(m4.trace[i] == if i < m3.trace.len() {
                    m3.trace[i]
                } else {
                    ev2
                });
            }
        } else {
            let ad = ack_delivered_for(e);
            assert(m4.pending[j] == ad);
            assert forall|i: int|
                0 <= i < m4.trace.len() && is_message_event(#[trigger] m4.trace[i].kind)
                    && message_event_id(m4.trace[i].kind) == message_event_id(
                    ad,
                ) implies message_events_agree(ad, m4.trace[i].kind) by {
                if i < m3.trace.len() {
                    if i != pre.trace.len() as int {
                        assert(message_events_agree(m3.trace[i].kind, ev1.kind));
                    }
                } else {
                    assert(m4.trace[i] == ev2);
                }
            }
        }
    }
    assert forall|k1: int, k2: int|
        #![trigger m4.pending[k1], m4.pending[k2]]
        0 <= k1 < k2 < m4.pending.len() implies message_event_id(m4.pending[k1])
        != message_event_id(m4.pending[k2]) by {
        assert(m4.pending[k1] == m3.pending[k1]);
        if k2 < m3.pending.len() {
            assert(m4.pending[k2] == m3.pending[k2]);
        } else {
            assert(m4.pending[k2] == ack_delivered_for(e));
            assert(pending_entry_ok(m3.pending, k1, m3.trace, n3));
        }
    }
    assert forall|i: int|
        0 <= i < m4.acks.len() implies ((#[trigger] m4.acks[i]) matches SharedState::Ready(v) ==> (
        v == true && message_event_count(m4.trace, i) == 4)) by {
        lemma_message_event_count_push(m3.trace, ev2, i);
    }
}

/// Applying a pending `AckDelivered` preserves the invariant: it is traced
/// as the final lifecycle step of its message and simply leaves the
/// pending set.
proof fn lemma_apply_ad(pre: SysModel, post: SysModel, k: int)
    requires
        pre.inv(),
        0 <= k < pre.pending.len(),
        pre.pending[k] is AckDelivered,
        post.trace == pre.trace.push(
            (EventView { time: pre.time as int, kind: pre.pending[k] }),
        ),
        post.pending == pre.pending.remove(k),
        post.cur == pre.cur,
        post.cur_task == pre.cur_task,
        post.ready == pre.ready,
        post.tasks == pre.tasks,
        post.joins == pre.joins,
        post.acks == pre.acks,
        post.outboxes == pre.outboxes,
        post.time == pre.time,
        post.steps == pre.steps,
    ensures
        post.inv(),
{
    let e = pre.pending[k];
    let id = message_event_id(e);
    let n = pre.acks.len() as int;
    let ev1 = EventView { time: pre.time as int, kind: e };
    assert(pending_entry_ok(pre.pending, k, pre.trace, n));
    lemma_trace_inv_push(pre.trace, ev1, n, n);
    lemma_sent_increasing_push(pre.trace, ev1, n);
    // The traced acknowledgement delivery agrees with every earlier
    // lifecycle entry of this message.
    assert forall|i: int|
        0 <= i < pre.trace.len() && is_message_event(#[trigger] pre.trace[i].kind)
            && is_message_event(ev1.kind) && message_event_id(pre.trace[i].kind)
            == message_event_id(ev1.kind) implies message_events_agree(
        pre.trace[i].kind,
        ev1.kind,
    ) by {
        assert(message_events_agree(e, pre.trace[i].kind));
    }
    lemma_participants_push(pre.trace, ev1);
    lemma_times_ok_push(pre.trace, ev1, pre.time as int);
    assert forall|j: int| 0 <= j < post.pending.len() implies #[trigger] pending_entry_ok(
        post.pending,
        j,
        post.trace,
        n,
    ) by {
        let j0 = if j < k {
            j
        } else {
            j + 1
        };
        assert(post.pending[j] == pre.pending[j0]);
        assert(pending_entry_ok(pre.pending, j0, pre.trace, n));
        assert(message_event_id(pre.pending[j0]) != id);
        lemma_message_event_count_push(pre.trace, ev1, message_event_id(pre.pending[j0]));
        assert forall|i: int|
            0 <= i < post.trace.len() && is_message_event(#[trigger] post.trace[i].kind)
                && message_event_id(post.trace[i].kind) == message_event_id(
                pre.pending[j0],
            ) implies message_events_agree(pre.pending[j0], post.trace[i].kind) by {
            assert(post.trace[i] == if i < pre.trace.len() {
                pre.trace[i]
            } else {
                ev1
            });
        }
    }
    assert forall|k1: int, k2: int|
        #![trigger post.pending[k1], post.pending[k2]]
        0 <= k1 < k2 < post.pending.len() implies message_event_id(post.pending[k1])
        != message_event_id(post.pending[k2]) by {
        let j1 = if k1 < k {
            k1
        } else {
            k1 + 1
        };
        let j2 = if k2 < k {
            k2
        } else {
            k2 + 1
        };
        assert(post.pending[k1] == pre.pending[j1]);
        assert(post.pending[k2] == pre.pending[j2]);
    }
    // Counts of filled acknowledgement slots are untouched: this
    // message's own slot is not filled yet, its count being three.
    assert forall|i: int|
        0 <= i < post.acks.len() implies ((#[trigger] post.acks[i]) matches SharedState::Ready(v)
            ==> (v == true && message_event_count(post.trace, i) == 4)) by {
        lemma_message_event_count_push(pre.trace, ev1, i);
    }
}

// ---------------------------------------------------------------------------
// The scheduler and the external driver calls.
// ---------------------------------------------------------------------------
impl<P: Process<B>, B: TaskBody> System<P, B> {
    /// Pop the front ready task id (FIFO) and give that task one step: a
    /// stale id whose task already completed is skipped; otherwise the
    /// task's owner becomes the current process and the body is polled
    /// once.  A completed task's result fills its join slot, waking a
    /// registered watcher; a still-pending task is parked until a handle
    /// it polled wakes it.  Answers whether there was a task id to pop.
    fn process_pending_task(&mut self) -> (progressed: bool)
        requires
            old(self).wf(),
        ensures
            final(self).wf(),
            final(self).procs() == old(self).procs(),
            old(self).model().drained_to(final(self).model()),
            old(self).model().pending.is_prefix_of(final(self).model().pending),
            progressed <==> old(self).model().ready.len() > 0,
            !progressed ==> final(self).model() == old(self).model(),
            progressed ==> final(self).model().steps == old(self).model().steps + 1,
            progressed ==> old(self).model().ready.remove(0).is_prefix_of(
                final(self).model().ready,
            ),
            progressed ==> (old(self).model().tasks[old(self).model().ready[0] as int]
                matches Some(o) ==> {
                &&& final(self).model().cur == Some(o)
                &&& final(self).model().cur_task is None
                &&& (!(final(self).model().tasks[old(self).model().ready[0] as int] is Some)
                    ==> final(self).model().joins[old(self).model().ready[0] as int] is Ready)
            }),
            progressed ==> (old(self).model().tasks[old(self).model().ready[0] as int] is None
                ==> final(self).model() == (SysModel {
                ready: old(self).model().ready.remove(0),
                steps: old(self).model().steps + 1,
                ..old(self).model()
            })),
    {
        let ghost pre = self.model();
        if self.state.pending_tasks.len() == 0 {
            proof {
                lemma_drained_refl(pre);
                lemma_prefix_refl(pre.pending);
            }
            return false;
        }
        let task_id = self.state.pending_tasks.remove(0);
        proof {
            self.state.steps@ = self.state.steps@ + 1;
        }
        let topt = self.state.tasks.remove(task_id);
        self.state.tasks.insert(task_id, None);
        let ghost m1 = self.model();
        proof {
            assert(task_id == pre.ready[0]);
            assert(self.state.tasks@ =~= old(self).state.tasks@.update(task_id as int, None));
            assert(m1.ready =~= pre.ready.remove(0));
            assert(m1.tasks =~= pre.tasks.update(task_id as int, None));
            assert(m1 == (SysModel {
                ready: pre.ready.remove(0),
                tasks: pre.tasks.update(task_id as int, None),
                steps: pre.steps + 1,
                ..pre
            }));
            assert forall|i: int| 0 <= i < m1.ready.len() implies (#[trigger] m1.ready[i])
                < m1.tasks.len() by {
                assert(m1.ready[i] == pre.ready[i + 1]);
            }
            assert forall|i: int|
                0 <= i < m1.tasks.len() implies ((#[trigger] m1.tasks[i]) is Some ==> !(
                m1.joins[i] is Ready)) by {
                if i != task_id as int {
                    assert(m1.tasks[i] == pre.tasks[i]);
                }
            }
            assert(m1.inv());
            lemma_drained_same_obs(pre, m1);
            lemma_prefix_refl(pre.pending);
        }
        match topt {
            None => {
                // A stale wake-up of a task that already completed.
                proof {
                    assert(m1.tasks =~= pre.tasks);
                    assert(m1 == (SysModel {
                        ready: pre.ready.remove(0),
                        steps: pre.steps + 1,
                        ..pre
                    }));
                    lemma_prefix_refl(m1.ready);
                }
                true
            },
            Some(mut task) => {
                let owner = task.owner;
                proof {
                    assert(pre.tasks[task_id as int] == Some(owner));
                    assert(!(pre.joins[task_id as int] is Ready));
                }
                self.state.current_process = Some(owner);
                self.state.current_task = Some(task_id);
                let ghost m2 = self.model();
                proof {
                    assert(m2 == (SysModel {
                        cur: Some(owner),
                        cur_task: Some(task_id),
                        ..m1
                    }));
                    assert(m2.inv());
                    lemma_drained_same_obs(m1, m2);
                }
                let r = task.body.poll(&mut self.state);
                let ghost m3 = self.model();
                self.state.current_task = None;
                let ghost m4 = self.model();
                proof {
                    assert(m4 == (SysModel { cur_task: None, ..m3 }));
                    assert(m4.inv());
                    lemma_extended_implies_drained(m2, m3);
                    lemma_drained_same_obs(m3, m4);
                    lemma_drained_trans(pre, m1, m2);
                    lemma_drained_trans(pre, m2, m3);
                    lemma_drained_trans(pre, m3, m4);
                    lemma_prefix_trans(pre.pending, m2.pending, m3.pending);
                    lemma_prefix_index(m2.tasks, m3.tasks, task_id as int);
                    assert(m4.tasks[task_id as int] is None);
                    assert(!(m4.joins[task_id as int] is Ready));
                }
                match r {
                    TaskPoll::Pending => {
                        self.state.tasks.remove(task_id);
                        self.state.tasks.insert(task_id, Some(task));
                        proof {
                            let fin = self.model();
                            assert(self.state.tasks@[task_id as int] == Some(
                                Task { owner, body: task.body },
                            ));
                            assert(fin.tasks =~= m4.tasks.update(task_id as int, Some(owner)));
                            assert(fin == (SysModel {
                                tasks: m4.tasks.update(task_id as int, Some(owner)),
                                ..m4
                            }));
                            assert(owner < m4.outboxes.len());
                            assert forall|i: int|
                                0 <= i < fin.tasks.len() implies ((#[trigger] fin.tasks[i])
                                is Some ==> !(fin.joins[i] is Ready)) by {
                                if i != task_id as int {
                                    assert(fin.tasks[i] == m4.tasks[i]);
                                }
                            }
                            assert(fin.inv());
                            lemma_drained_same_obs(m4, fin);
                            lemma_drained_trans(pre, m4, fin);
                            lemma_prefix_trans(m2.ready, m3.ready, fin.ready);
                        }
                        true
                    },
                    TaskPoll::Ready(v) => {
                        proof {
                            assert(task_id < m4.joins.len());
                        }
                        self.state.complete_task(task_id, v);
                        proof {
                            let fin = self.model();
                            lemma_drained_same_obs(m4, fin);
                            lemma_drained_trans(pre, m4, fin);
                            if m4.joins[task_id as int] is Waiting {
                                lemma_prefix_push(
                                    m4.ready,
                                    fin.ready[fin.ready.len() - 1],
                                );
                                assert(fin.ready =~= m4.ready.push(
                                    fin.ready[fin.ready.len() - 1],
                                ));
                                lemma_prefix_trans(m2.ready, m4.ready, fin.ready);
                            } else {
                                lemma_prefix_trans(m2.ready, m3.ready, fin.ready);
                            }
                        }
                        true
                    },
                }
            },
        }
    }

    /// Drain the ready queue to quiescence in FIFO order, then advance
    /// logical time by one unit.  Answers how many scheduler steps were
    /// performed; short of the astronomical step budget, the ready queue
    /// is empty on return.
    fn process_pending_tasks(&mut self) -> (cnt: u64)
        requires
            old(self).wf(),
            old(self).model().time < u64::MAX,
        ensures
            final(self).wf(),
            final(self).procs() == old(self).procs(),
            old(self).model().quiesced_to(final(self).model()),
            old(self).model().pending.is_prefix_of(final(self).model().pending),
            cnt as int == final(self).model().steps - old(self).model().steps,
            cnt < u64::MAX ==> final(self).model().ready.len() == 0,
            exists|m: SysModel|
                #[trigger] old(self).model().drained_to(m) && final(self).model() == (SysModel {
                    time: (m.time + 1) as u64,
                    ..m
                }),
    {
        let mut cnt: u64 = 0;
        loop
            invariant
                self.wf(),
                self.procs() == old(self).procs(),
                old(self).model().drained_to(self.model()),
                old(self).model().pending.is_prefix_of(self.model().pending),
                old(self).model().time < u64::MAX,
                cnt as int == self.model().steps - old(self).model().steps,
            ensures
                self.wf(),
                self.procs() == old(self).procs(),
                old(self).model().drained_to(self.model()),
                old(self).model().pending.is_prefix_of(self.model().pending),
                cnt as int == self.model().steps - old(self).model().steps,
                cnt == u64::MAX || self.model().ready.len() == 0,
            decreases u64::MAX as int - cnt as int,
        {
            proof {
                lemma_drained_refl(self.model());
                lemma_prefix_refl(self.model().pending);
            }
            if cnt == u64::MAX {
                break;
            }
            let ghost mid = self.model();
            if self.process_pending_task() {
                cnt = cnt + 1;
                proof {
                    lemma_drained_trans(old(self).model(), mid, self.model());
                    lemma_prefix_trans(
                        old(self).model().pending,
                        mid.pending,
                        self.model().pending,
                    );
                }
            } else {
                break;
            }
        }
        let ghost before = self.model();
        self.state.inc_time();
        proof {
            assert(self.model() == (SysModel { time: (before.time + 1) as u64, ..before }));
            lemma_times_ok_advance(
                self.model().trace,
                before.time as int,
                self.model().time as int,
            );
            assert(self.model().inv());
            lemma_drained_tick(old(self).model(), before, self.model());
        }
        cnt
    }

    /// Inject `msg` as local input to process `to`: the injection is
    /// traced and `to`'s handler runs synchronously as the current
    /// process; then the scheduler drains spawned tasks to quiescence and
    /// logical time advances by one unit.
    pub fn send_local_message(&mut self, to: ProcessId, msg: &str)
        requires
            old(self).wf(),
            to < old(self).nprocs(),
            old(self).model().time < u64::MAX,
        ensures
            final(self).wf(),
            final(self).nprocs() == old(self).nprocs(),
            forall|i: int|
                0 <= i < old(self).nprocs() && i != to ==> final(self).procs()[i] == old(
                    self,
                ).procs()[i],
            old(self).model().quiesced_to(final(self).model()),
            old(self).model().pending.is_prefix_of(final(self).model().pending),
            final(self).model().trace.len() > old(self).model().trace.len(),
            final(self).model().trace[old(self).model().trace.len() as int] == (EventView {
                time: old(self).model().time as int,
                kind: EventKindView::UserLocalMessage(to as int, msg@),
            }),
            final(self).model().ready.len() == 0 || final(self).model().steps - old(
                self,
            ).model().steps >= u64::MAX,
            exists|m: SysModel|
                #[trigger] old(self).model().local_injection(to, msg@).extended_by(m)
                    && m.quiesced_to(final(self).model()),
    {
        let ghost pre = self.model();
        let ghost ev = EventView {
            time: pre.time as int,
            kind: EventKindView::UserLocalMessage(to as int, msg@),
        };
        self.state.current_process = Some(to);
        let ghost m1 = self.model();
        proof {
            assert(m1 == (SysModel { cur: Some(to), ..pre }));
            assert(m1.inv());
            lemma_drained_same_obs(pre, m1);
        }
        self.state.add_event(EventKind::UserLocalMessage(to, msg.to_owned()));
        let ghost m2 = self.model();
        proof {
            assert(m2 == (SysModel { trace: m1.trace.push(ev), ..m1 }));
            assert(m2 == pre.local_injection(to, msg@));
            lemma_trace_inv_push(m1.trace, ev, m1.acks.len() as int, m1.acks.len() as int);
            lemma_pending_inv_push_trace(
                m1.pending,
                m1.trace,
                ev,
                m1.acks.len() as int,
                m1.acks.len() as int,
            );
            lemma_sent_increasing_push(m1.trace, ev, m1.acks.len() as int);
            lemma_participants_push(m1.trace, ev);
            lemma_times_ok_push(m1.trace, ev, m1.time as int);
            assert forall|i: int|
                0 <= i < m2.acks.len() implies ((#[trigger] m2.acks[i])
                matches SharedState::Ready(v) ==> (v == true && message_event_count(
                m2.trace,
                i,
            ) == 4)) by {
                lemma_message_event_count_push(m1.trace, ev, i);
            }
            assert(m2.inv());
            lemma_prefix_push(m1.trace, ev);
            lemma_prefix_refl(m1.pending);
            assert forall|p: int| 0 <= p < m1.outboxes.len() implies (
            #[trigger] m1.outboxes[p]).is_prefix_of(m2.outboxes[p]) by {
                lemma_prefix_refl(m1.outboxes[p]);
            }
            assert forall|i: int| m1.trace.len() <= i < m2.trace.len() implies (
            #[trigger] m2.trace[i]).time == m1.time by {
                assert(m2.trace[i] == ev);
            }
            assert(m1.drained_to(m2));
            lemma_drained_trans(pre, m1, m2);
        }
        let mut p = self.proc.remove(to);
        p.on_local_message(&mut self.state, msg);
        self.proc.insert(to, p);
        let ghost m3 = self.model();
        proof {
            assert(self.procs() =~= old(self).procs().update(to as int, self.proc@[to as int]));
            assert(self.wf());
            lemma_extended_implies_drained(m2, m3);
            lemma_drained_trans(pre, m2, m3);
            lemma_prefix_trans(pre.pending, m2.pending, m3.pending);
        }
        let cnt = self.process_pending_tasks();
        proof {
            let fin = self.model();
            lemma_drained_quiesced(pre, m3, fin);
            lemma_prefix_trans(pre.pending, m3.pending, fin.pending);
            lemma_prefix_index(m2.trace, fin.trace, pre.trace.len() as int);
            assert(pre.local_injection(to, msg@).extended_by(m3));
            assert(m3.quiesced_to(fin));
            assert(m3.steps == pre.steps);
            if fin.ready.len() != 0 {
                assert(cnt == u64::MAX);
            }
        }
    }

    /// Remove pending entry `event` (later entries shift down), trace it
    /// and perform its delivery semantics.  A message delivery runs the
    /// receiver's handler as the current process, then traces the
    /// acknowledgement-sent step and makes the acknowledgement delivery
    /// pending; an acknowledgement delivery resolves the sender's
    /// acknowledgement slot to `true`, waking a watching task.  Spawned
    /// tasks are then drained to quiescence and time advances by one
    /// unit.
    pub fn apply_pending_event(&mut self, event: usize)
        requires
            old(self).wf(),
            event < old(self).model().pending.len(),
            old(self).model().time < u64::MAX,
            old(self).model().pending[event as int] is MessageDelivered ==> message_event_receiver(
                old(self).model().pending[event as int],
            ) < old(self).nprocs(),
        ensures
            final(self).wf(),
            final(self).nprocs() == old(self).nprocs(),
            old(self).model().quiesced_to(final(self).model()),
            final(self).model().trace.len() > old(self).model().trace.len(),
            final(self).model().trace[old(self).model().trace.len() as int] == (EventView {
                time: old(self).model().time as int,
                kind: old(self).model().pending[event as int],
            }),
            old(self).model().pending.remove(event as int).is_prefix_of(
                final(self).model().pending,
            ),
            final(self).model().ready.len() == 0 || final(self).model().steps - old(
                self,
            ).model().steps >= u64::MAX,
            old(self).model().pending[event as int] is MessageDelivered ==> {
                &&& exists|m: SysModel|
                    #[trigger] old(self).model().delivery_dispatch(event as int).extended_by(m)
                        && (SysModel {
                        trace: m.trace.push(
                            (EventView {
                                time: old(self).model().time as int,
                                kind: ack_sent_for(old(self).model().pending[event as int]),
                            }),
                        ),
                        pending: m.pending.push(
                            ack_delivered_for(old(self).model().pending[event as int]),
                        ),
                        ..m
                    }).quiesced_to(final(self).model()) && m.pending.push(
                        ack_delivered_for(old(self).model().pending[event as int]),
                    ).is_prefix_of(final(self).model().pending)
                &&& forall|i: int|
                    0 <= i < old(self).nprocs() && i != message_event_receiver(
                        old(self).model().pending[event as int],
                    ) ==> final(self).procs()[i] == old(self).procs()[i]
            },
            old(self).model().pending[event as int] is AckDelivered ==> {
                &&& exists|m: SysModel|
                    #[trigger] old(self).model().ack_resolution(event as int).drained_to(m)
                        && final(self).model() == (SysModel { time: (m.time + 1) as u64, ..m })
                &&& final(self).procs() == old(self).procs()
            },
    {
        let ghost pre = self.model();
        let ghost e = pre.pending[event as int];
        proof {
            assert(pending_entry_ok(pre.pending, event as int, pre.trace, pre.acks.len() as int));
        }
        let ev = self.state.pending_events.remove(event);
        proof {
            assert(ev@ == e);
            assert(self.state.pending_events.deep_view() =~= pre.pending.remove(event as int));
        }
        let ev2 = ev.clone();
        self.state.add_event(ev2);
        let ghost m2 = self.model();
        proof {
            assert(m2 == (SysModel {
                trace: pre.trace.push((EventView { time: pre.time as int, kind: e })),
                pending: pre.pending.remove(event as int),
                ..pre
            }));
        }
        match ev {
            EventKind::MessageDelivered(from, to, msg_id, m) => {
                self.state.current_process = Some(to);
                let ghost dis = self.model();
                proof {
                    assert(e == EventKindView::MessageDelivered(
                        from as int,
                        to as int,
                        msg_id as int,
                        m@,
                    ));
                    assert(dis == (SysModel { cur: Some(to), ..m2 }));
                    assert(dis == pre.delivery_dispatch(event as int));
                    lemma_apply_md_dispatch(pre, dis, event as int);
                    assert(dis.inv());
                }
                let mut p = self.proc.remove(to);
                p.on_message(&mut self.state, from, m);
                self.proc.insert(to, p);
                let ghost m3 = self.model();
                self.state.add_event(EventKind::AckSent(to, from, msg_id));
                self.state.pending_events.push(EventKind::AckDelivered(to, from, msg_id));
                let ghost m4 = self.model();
                proof {
                    let ghost ev1 = EventView { time: pre.time as int, kind: e };
                    let ghost ackev = EventView { time: pre.time as int, kind: ack_sent_for(e) };
                    assert(ack_sent_for(e) == EventKindView::AckSent(
                        to as int,
                        from as int,
                        msg_id as int,
                    ));
                    assert(ack_delivered_for(e) == EventKindView::AckDelivered(
                        to as int,
                        from as int,
                        msg_id as int,
                    ));
                    assert(self.state.pending_events.deep_view() =~= m3.pending.push(
                        ack_delivered_for(e),
                    ));
                    assert(m4 == (SysModel {
                        trace: m3.trace.push(ackev),
                        pending: m3.pending.push(ack_delivered_for(e)),
                        ..m3
                    }));
                    lemma_apply_md_ack(pre, dis, m3, m4, event as int);
                    assert(m4.inv());
                    assert(self.procs() =~= old(self).procs().update(
                        to as int,
                        self.proc@[to as int],
                    ));
                    assert(self.wf());
                }
                let cnt = self.process_pending_tasks();
                proof {
                    let fin = self.model();
                    let ev1 = EventView { time: pre.time as int, kind: e };
                    let ackev = EventView { time: pre.time as int, kind: ack_sent_for(e) };
                    assert(m4.quiesced_to(fin));
                    assert(m4.pending.is_prefix_of(fin.pending));
                    // The public three-phase claim, witnessed by the
                    // handler's end state.
                    assert(pre.delivery_dispatch(event as int).extended_by(m3));
                    lemma_prefix_push(m3.pending, ack_delivered_for(e));
                    lemma_prefix_trans(
                        m3.pending.push(ack_delivered_for(e)),
                        m4.pending,
                        fin.pending,
                    );
                    lemma_prefix_trans(dis.pending, m3.pending, m4.pending);
                    lemma_prefix_trans(dis.pending, m4.pending, fin.pending);
                    // The traced delivery stays at its index.
                    lemma_prefix_push(m3.trace, ackev);
                    lemma_prefix_trans(dis.trace, m3.trace, m4.trace);
                    lemma_prefix_trans(dis.trace, m4.trace, fin.trace);
                    lemma_prefix_index(dis.trace, fin.trace, pre.trace.len() as int);
                    // One full quiescence round from the initial state.
                    lemma_prefix_push(pre.trace, ev1);
                    lemma_prefix_trans(pre.trace, dis.trace, m3.trace);
                    lemma_prefix_trans(pre.trace, m3.trace, m4.trace);
                    assert forall|i: int| pre.trace.len() <= i < m4.trace.len() implies (
                    #[trigger] m4.trace[i]).time == pre.time by {
                        if i < m3.trace.len() {
                            lemma_prefix_index(m3.trace, m4.trace, i);
                            if i == pre.trace.len() as int {
                                lemma_prefix_index(dis.trace, m3.trace, i);
                            }
                        } else {
                            assert(m4.trace[i] == ackev);
                        }
                    }
                    assert forall|q: int| 0 <= q < pre.outboxes.len() implies (
                    #[trigger] pre.outboxes[q]).is_prefix_of(m4.outboxes[q]) by {
                        assert(dis.outboxes[q] == pre.outboxes[q]);
                    }
                    lemma_quiesced_obs(pre, m4, fin);
                    if fin.ready.len() != 0 {
                        assert(cnt == u64::MAX);
                        assert(m4.steps == pre.steps);
                    }
                }
            },
            EventKind::AckDelivered(_, _, msg_id) => {
                proof {
                    let ghost ev1 = EventView { time: pre.time as int, kind: e };
                    assert(e is AckDelivered);
                    assert(message_event_id(e) == msg_id as int);
                    lemma_apply_ad(pre, m2, event as int);
                    assert(m2.inv());
                    lemma_message_event_count_push(pre.trace, ev1, msg_id as int);
                    assert(message_event_count(m2.trace, msg_id as int) == 4);
                    assert(!(m2.acks[msg_id as int] is Ready));
                }
                self.state.deliver_ack(msg_id);
                let ghost m3 = self.model();
                proof {
                    match pre.acks[msg_id as int] {
                        SharedState::Waiting(t) => {
                            assert(m3 == (SysModel {
                                acks: m2.acks.update(msg_id as int, SharedState::Ready(true)),
                                ready: m2.ready.push(t),
                                ..m2
                            }));
                        },
                        _ => {
                            assert(m3 == (SysModel {
                                acks: m2.acks.update(msg_id as int, SharedState::Ready(true)),
                                ..m2
                            }));
                        },
                    }
                    assert(m3 == pre.ack_resolution(event as int));
                }
                let cnt = self.process_pending_tasks();
                proof {
                    let fin = self.model();
                    let ev1 = EventView { time: pre.time as int, kind: e };
                    assert(m3.quiesced_to(fin));
                    lemma_prefix_trans(m2.pending, m3.pending, fin.pending);
                    lemma_prefix_index(m3.trace, fin.trace, pre.trace.len() as int);
                    // The resolution state is drained, then time advances.
                    let mend = choose|mm: SysModel|
                        #![auto]
                        m3.drained_to(mm) && fin == (SysModel { time: (mm.time + 1) as u64, ..mm });
                    assert(pre.ack_resolution(event as int).drained_to(mend));
                    // One full quiescence round from the initial state.
                    lemma_prefix_push(pre.trace, ev1);
                    assert forall|i: int| pre.trace.len() <= i < m3.trace.len() implies (
                    #[trigger] m3.trace[i]).time == pre.time by {
                        assert(m3.trace[i] == ev1);
                    }
                    assert forall|q: int| 0 <= q < pre.outboxes.len() implies (
                    #[trigger] pre.outboxes[q]).is_prefix_of(m3.outboxes[q]) by {
                        lemma_prefix_refl(pre.outboxes[q]);
                    }
                    lemma_quiesced_obs(pre, m3, fin);
                    if fin.ready.len() != 0 {
                        assert(cnt == u64::MAX);
                        assert(m3.steps == pre.steps);
                    }
                }
            },
            _ => {
                proof {
                    assert(false);
                }
            },
        }
    }
}

// ---------------------------------------------------------------------------
// Laws of every reachable simulation state.
// ---------------------------------------------------------------------------
/// Law: the four lifecycle steps of one message appear in the trace in
/// protocol order — `MessageSent`, then `MessageDelivered`, then
/// `AckSent`, then `AckDelivered` — with no step repeated, however many
/// entries of other messages interleave.
pub proof fn lemma_message_lifecycle_order(m: SysModel, i: int, j: int)
    requires
        m.inv(),
        0 <= i < j < m.trace.len(),
        is_message_event(m.trace[i].kind),
        is_message_event(m.trace[j].kind),
        message_event_id(m.trace[i].kind) == message_event_id(m.trace[j].kind),
    ensures
        message_event_rank(m.trace[i].kind) < message_event_rank(m.trace[j].kind),
{
    let id = message_event_id(m.trace[i].kind);
    assert(trace_entry_ok(m.trace, i, m.acks.len() as int));
    assert(trace_entry_ok(m.trace, j, m.acks.len() as int));
    lemma_message_event_count_take_succ(m.trace, i, id);
    lemma_message_event_count_take_monotone(m.trace, i + 1, j, id);
}

/// Law: a lifecycle event's protocol rank equals the number of earlier
/// lifecycle events of the same message.  Together with the ordering law
/// this says the per-message subsequence of the trace is exactly a prefix
/// of `MessageSent`, `MessageDelivered`, `AckSent`, `AckDelivered`.
pub proof fn lemma_message_lifecycle_exact(m: SysModel, j: int)
    requires
        m.inv(),
        0 <= j < m.trace.len(),
        is_message_event(m.trace[j].kind),
    ensures
        message_event_rank(m.trace[j].kind) == message_event_count(
            m.trace.take(j),
            message_event_id(m.trace[j].kind),
        ),
{
    assert(trace_entry_ok(m.trace, j, m.acks.len() as int));
}

/// Law: message ids are strictly increasing along the `MessageSent`
/// entries of the trace, and hence unique, regardless of how many
/// processes or concurrent sends are in flight.
pub proof fn lemma_message_ids_strictly_increasing(m: SysModel, i: int, j: int)
    requires
        m.inv(),
        0 <= i < j < m.trace.len(),
        m.trace[i].kind is MessageSent,
        m.trace[j].kind is MessageSent,
    ensures
        message_event_id(m.trace[i].kind) < message_event_id(m.trace[j].kind),
{
}

/// Law: all lifecycle entries of one message name the same sender, the
/// same receiver and — where they carry one — the same payload: the
/// delivery and acknowledgement steps of `MessageSent(f, t, id, m)` speak
/// exactly of `f`, `t` and `m`.
pub proof fn lemma_message_lifecycle_participants(m: SysModel, i: int, j: int)
    requires
        m.inv(),
        0 <= i < j < m.trace.len(),
        is_message_event(m.trace[i].kind),
        is_message_event(m.trace[j].kind),
        message_event_id(m.trace[i].kind) == message_event_id(m.trace[j].kind),
    ensures
        message_events_agree(m.trace[i].kind, m.trace[j].kind),
{
}

/// Law: logical time never decreases along the trace and never exceeds
/// the current time.  That it advances by exactly one unit per external
/// driver call is stated by the `ensures` of `send_local_message` and
/// `apply_pending_event`.
pub proof fn lemma_time_monotone(m: SysModel, i: int, j: int)
    requires
        m.inv(),
        0 <= i <= j < m.trace.len(),
    ensures
        m.trace[i].time <= m.trace[j].time,
        m.trace[j].time <= m.time,
{
}

/// Trivial evolution: a state extends itself.
pub(crate) proof fn lemma_self_extended(m: SysModel)
    ensures
        m.extended_by(m),
{
    lemma_prefix_refl(m.trace);
    lemma_prefix_refl(m.pending);
    lemma_prefix_refl(m.tasks);
    lemma_prefix_refl(m.ready);
    assert forall|p: int| 0 <= p < m.outboxes.len() implies (#[trigger] m.outboxes[p]).is_prefix_of(
        m.outboxes[p],
    ) by {
        lemma_prefix_refl(m.outboxes[p]);
    }
}

/// A state whose only change is one slot turning into a watcher
/// registration extends the state it came from.
proof fn lemma_slot_update_extended(pre: SysModel, post: SysModel)
    requires
        post.ready == pre.ready,
        post.tasks == pre.tasks,
        post.cur == pre.cur,
        post.cur_task == pre.cur_task,
        post.outboxes == pre.outboxes,
        post.trace == pre.trace,
        post.time == pre.time,
        post.steps == pre.steps,
        post.pending == pre.pending,
        post.joins.len() >= pre.joins.len(),
        post.acks.len() >= pre.acks.len(),
        forall|i: int|
            0 <= i < pre.joins.len() && !((#[trigger] pre.joins[i]) is Ready) ==> !(post.joins[i]
                is Ready),
        forall|i: int|
            0 <= i < pre.acks.len() ==> (post.acks[i] == (#[trigger] pre.acks[i])
                || post.acks[i] is Waiting),
    ensures
        pre.extended_by(post),
{
    lemma_prefix_refl(pre.trace);
    lemma_prefix_refl(pre.pending);
    lemma_prefix_refl(pre.tasks);
    lemma_prefix_refl(pre.ready);
    assert forall|p: int| 0 <= p < pre.outboxes.len() implies (
    #[trigger] pre.outboxes[p]).is_prefix_of(post.outboxes[p]) by {
        lemma_prefix_refl(pre.outboxes[p]);
    }
}

/// A drain followed by the one-unit time advance is a full quiescence
/// round.
proof fn lemma_drained_tick(a: SysModel, m: SysModel, fin: SysModel)
    requires
        a.drained_to(m),
        m.time < u64::MAX,
        fin == (SysModel { time: (m.time + 1) as u64, ..m }),
    ensures
        a.quiesced_to(fin),
{
}

} // verus!
