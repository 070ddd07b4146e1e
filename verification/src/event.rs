use vstd::prelude::*;

use crate::process::ProcessId;

verus! {

/// Identifier of a network message, unique within one `System` instance;
/// assigned sequentially from 0 each time a message is sent.
pub type MessageId = usize;

/// Everything that can happen in a simulation, with the processes, message
/// ids and payloads involved.
///
/// Only `MessageDelivered` and `AckDelivered` ever appear in the pending
/// (nondeterministic) event set; the other kinds are always applied eagerly.
#[derive(Debug)]
pub enum EventKind {
    /// A process pushed this text into its own local outbox.
    ProcLocalMessage(ProcessId, String),
    /// The driver injected this text as input to the process.
    UserLocalMessage(ProcessId, String),
    /// `from` initiated a network message to `to`.
    MessageSent(ProcessId, ProcessId, MessageId, String),
    /// The message was handed to `to`.
    MessageDelivered(ProcessId, ProcessId, MessageId, String),
    /// `to` implicitly acknowledges receipt back to `from`.
    AckSent(ProcessId, ProcessId, MessageId),
    /// The acknowledgement reached `from`.
    AckDelivered(ProcessId, ProcessId, MessageId),
}

/// Mathematical image of an `EventKind`: payloads as character sequences,
/// identifiers as unbounded integers.
pub enum EventKindView {
    ProcLocalMessage(int, Seq<char>),
    UserLocalMessage(int, Seq<char>),
    MessageSent(int, int, int, Seq<char>),
    MessageDelivered(int, int, int, Seq<char>),
    AckSent(int, int, int),
    AckDelivered(int, int, int),
}

impl View for EventKind {
    type V = EventKindView;

    open spec fn view(&self) -> EventKindView {
        match self {
            EventKind::ProcLocalMessage(p, s) => EventKindView::ProcLocalMessage(
                *p as int,
                s@,
            ),
            EventKind::UserLocalMessage(p, s) => EventKindView::UserLocalMessage(
                *p as int,
                s@,
            ),
            EventKind::MessageSent(f, t, id, s) => EventKindView::MessageSent(
                *f as int,
                *t as int,
                *id as int,
                s@,
            ),
            EventKind::MessageDelivered(f, t, id, s) => EventKindView::MessageDelivered(
                *f as int,
                *t as int,
                *id as int,
                s@,
            ),
            EventKind::AckSent(t, f, id) => EventKindView::AckSent(*t as int, *f as int, *id as int),
            EventKind::AckDelivered(t, f, id) => EventKindView::AckDelivered(
                *t as int,
                *f as int,
                *id as int,
            ),
        }
    }
}

impl DeepView for EventKind {
    type V = EventKindView;

    open spec fn deep_view(&self) -> EventKindView {
        self.view()
    }
}

impl Clone for EventKind {
    fn clone(&self) -> (r: EventKind)
        ensures
            r == *self,
    {
        match self {
            EventKind::ProcLocalMessage(p, s) => EventKind::ProcLocalMessage(*p, s.clone()),
            EventKind::UserLocalMessage(p, s) => EventKind::UserLocalMessage(*p, s.clone()),
            EventKind::MessageSent(f, t, id, s) => EventKind::MessageSent(*f, *t, *id, s.clone()),
            EventKind::MessageDelivered(f, t, id, s) => EventKind::MessageDelivered(
                *f,
                *t,
                *id,
                s.clone(),
            ),
            EventKind::AckSent(t, f, id) => EventKind::AckSent(*t, *f, *id),
            EventKind::AckDelivered(t, f, id) => EventKind::AckDelivered(*t, *f, *id),
        }
    }
}

impl PartialEq for EventKind {
    fn eq(&self, other: &EventKind) -> (r: bool) {
        match (self, other) {
            (
                EventKind::ProcLocalMessage(p1, s1),
                EventKind::ProcLocalMessage(p2, s2),
            ) => *p1 == *p2 && *s1 == *s2,
            (
                EventKind::UserLocalMessage(p1, s1),
                EventKind::UserLocalMessage(p2, s2),
            ) => *p1 == *p2 && *s1 == *s2,
            (
                EventKind::MessageSent(f1, t1, id1, s1),
                EventKind::MessageSent(f2, t2, id2, s2),
            ) => *f1 == *f2 && *t1 == *t2 && *id1 == *id2 && *s1 == *s2,
            (
                EventKind::MessageDelivered(f1, t1, id1, s1),
                EventKind::MessageDelivered(f2, t2, id2, s2),
            ) => *f1 == *f2 && *t1 == *t2 && *id1 == *id2 && *s1 == *s2,
            (
                EventKind::AckSent(t1, f1, id1),
                EventKind::AckSent(t2, f2, id2),
            ) => *t1 == *t2 && *f1 == *f2 && *id1 == *id2,
            (
                EventKind::AckDelivered(t1, f1, id1),
                EventKind::AckDelivered(t2, f2, id2),
            ) => *t1 == *t2 && *f1 == *f2 && *id1 == *id2,
            _ => false,
        }
    }
}

impl vstd::std_specs::cmp::PartialEqSpecImpl for EventKind {
    open spec fn obeys_eq_spec() -> bool {
        true
    }

    open spec fn eq_spec(&self, other: &EventKind) -> bool {
        self@ == other@
    }
}

impl Eq for EventKind {

}

/// One entry of the trace: an event kind stamped with the logical time of
/// the quiescence round in which it happened.
#[derive(Debug)]
pub struct Event {
    /// Logical time: starts at 0 and advances by one unit per external
    /// driver call, after the scheduler has drained all ready tasks.
    pub time: u64,
    /// What happened.
    pub kind: EventKind,
}

/// Mathematical image of an `Event`.
pub struct EventView {
    pub time: int,
    pub kind: EventKindView,
}

impl View for Event {
    type V = EventView;

    open spec fn view(&self) -> EventView {
        EventView { time: self.time as int, kind: self.kind@ }
    }
}

impl DeepView for Event {
    type V = EventView;

    open spec fn deep_view(&self) -> EventView {
        self.view()
    }
}

impl Clone for Event {
    fn clone(&self) -> (r: Event)
        ensures
            r == *self,
    {
        Event { time: self.time, kind: self.kind.clone() }
    }
}

impl PartialEq for Event {
    fn eq(&self, other: &Event) -> (r: bool) {
        self.time == other.time && self.kind == other.kind
    }
}

impl vstd::std_specs::cmp::PartialEqSpecImpl for Event {
    open spec fn obeys_eq_spec() -> bool {
        true
    }

    open spec fn eq_spec(&self, other: &Event) -> bool {
        self.time == other.time && self.kind@ == other.kind@
    }
}

impl Eq for Event {

}

/// Whether this kind belongs to the four-step lifecycle of one network
/// message (sent, delivered, acknowledgement sent, acknowledgement
/// delivered).
pub open spec fn is_message_event(k: EventKindView) -> bool {
    match k {
        EventKindView::MessageSent(_, _, _, _) => true,
        EventKindView::MessageDelivered(_, _, _, _) => true,
        EventKindView::AckSent(_, _, _) => true,
        EventKindView::AckDelivered(_, _, _) => true,
        _ => false,
    }
}

/// The message id a lifecycle event speaks about (meaningful only when
/// `is_message_event` holds).
pub open spec fn message_event_id(k: EventKindView) -> int {
    match k {
        EventKindView::MessageSent(_, _, id, _) => id,
        EventKindView::MessageDelivered(_, _, id, _) => id,
        EventKindView::AckSent(_, _, id) => id,
        EventKindView::AckDelivered(_, _, id) => id,
        _ => 0,
    }
}

/// Position of a lifecycle event within the protocol of one message:
/// sent, delivered, acknowledgement sent, acknowledgement delivered, in
/// that order (meaningful only when `is_message_event` holds).
pub open spec fn message_event_rank(k: EventKindView) -> int {
    match k {
        EventKindView::MessageSent(_, _, _, _) => 0,
        EventKindView::MessageDelivered(_, _, _, _) => 1,
        EventKindView::AckSent(_, _, _) => 2,
        EventKindView::AckDelivered(_, _, _) => 3,
        _ => 0,
    }
}

/// The process that sent the message a lifecycle event speaks about
/// (meaningful only when `is_message_event` holds).
pub open spec fn message_event_sender(k: EventKindView) -> int {
    match k {
        EventKindView::MessageSent(f, _, _, _) => f,
        EventKindView::MessageDelivered(f, _, _, _) => f,
        EventKindView::AckSent(_, f, _) => f,
        EventKindView::AckDelivered(_, f, _) => f,
        _ => 0,
    }
}

/// The process the message of a lifecycle event is addressed to
/// (meaningful only when `is_message_event` holds).
pub open spec fn message_event_receiver(k: EventKindView) -> int {
    match k {
        EventKindView::MessageSent(_, t, _, _) => t,
        EventKindView::MessageDelivered(_, t, _, _) => t,
        EventKindView::AckSent(t, _, _) => t,
        EventKindView::AckDelivered(t, _, _) => t,
        _ => 0,
    }
}

/// Whether a lifecycle event carries the message's payload.
pub open spec fn carries_payload(k: EventKindView) -> bool {
    k is MessageSent || k is MessageDelivered
}

/// The payload a lifecycle event carries (meaningful only when
/// `carries_payload` holds).
pub open spec fn message_event_payload(k: EventKindView) -> Seq<char> {
    match k {
        EventKindView::MessageSent(_, _, _, m) => m,
        EventKindView::MessageDelivered(_, _, _, m) => m,
        _ => Seq::empty(),
    }
}

/// Two lifecycle events describe the same message consistently: same
/// sender, same receiver, and — where both carry one — the same payload.
pub open spec fn message_events_agree(k1: EventKindView, k2: EventKindView) -> bool {
    &&& message_event_sender(k1) == message_event_sender(k2)
    &&& message_event_receiver(k1) == message_event_receiver(k2)
    &&& (carries_payload(k1) && carries_payload(k2) ==> message_event_payload(k1)
        == message_event_payload(k2))
}

/// The acknowledgement-sent event that applying a `MessageDelivered`
/// appends to the trace.
pub open spec fn ack_sent_for(k: EventKindView) -> EventKindView {
    EventKindView::AckSent(message_event_receiver(k), message_event_sender(k), message_event_id(k))
}

/// The acknowledgement-delivery event that applying a `MessageDelivered`
/// makes pending.
pub open spec fn ack_delivered_for(k: EventKindView) -> EventKindView {
    EventKindView::AckDelivered(
        message_event_receiver(k),
        message_event_sender(k),
        message_event_id(k),
    )
}

/// How many lifecycle events for message `id` the trace holds.
pub open spec fn message_event_count(tr: Seq<EventView>, id: int) -> int
    decreases tr.len(),
{
    if tr.len() == 0 {
        0
    } else {
        message_event_count(tr.drop_last(), id) + if is_message_event(tr.last().kind)
            && message_event_id(tr.last().kind) == id {
            1int
        } else {
            0int
        }
    }
}

/// Appending one event raises the count for exactly the id it speaks about.
pub proof fn lemma_message_event_count_push(tr: Seq<EventView>, e: EventView, id: int)
    ensures
        message_event_count(tr.push(e), id) == message_event_count(tr, id) + if is_message_event(
            e.kind,
        ) && message_event_id(e.kind) == id {
            1int
        } else {
            0int
        },
{
    assert(tr.push(e).drop_last() =~= tr);
    assert(tr.push(e).last() == e);
}

/// A trace with no lifecycle event for `id` counts zero for it.
pub proof fn lemma_message_event_count_absent(tr: Seq<EventView>, id: int)
    requires
        forall|i: int|
            0 <= i < tr.len() ==> !(is_message_event(#[trigger] tr[i].kind) && message_event_id(
                tr[i].kind,
            ) == id),
    ensures
        message_event_count(tr, id) == 0,
    decreases tr.len(),
{
    if tr.len() > 0 {
        assert(tr.last() == tr[tr.len() - 1]);
        lemma_message_event_count_absent(tr.drop_last(), id);
    }
}

/// Taking a longer prefix never lowers the count, and taking one more
/// element past a lifecycle event for `id` raises it by one.
pub proof fn lemma_message_event_count_take_succ(tr: Seq<EventView>, i: int, id: int)
    requires
        0 <= i < tr.len(),
    ensures
        message_event_count(tr.take(i + 1), id) == message_event_count(tr.take(i), id) + if
            is_message_event(tr[i].kind) && message_event_id(tr[i].kind) == id {
            1int
        } else {
            0int
        },
{
    assert(tr.take(i + 1) =~= tr.take(i).push(tr[i]));
    lemma_message_event_count_push(tr.take(i), tr[i], id);
}

/// Counts are monotone in the length of the prefix taken.
pub proof fn lemma_message_event_count_take_monotone(tr: Seq<EventView>, i: int, j: int, id: int)
    requires
        0 <= i <= j <= tr.len(),
    ensures
        message_event_count(tr.take(i), id) <= message_event_count(tr.take(j), id),
    decreases j - i,
{
    if i < j {
        lemma_message_event_count_take_succ(tr, j - 1, id);
        lemma_message_event_count_take_monotone(tr, i, j - 1, id);
    }
}

} // verus!
