//! A deterministic simulation harness for distributed message-passing
//! protocols.
//!
//! Processes communicate only through explicitly modeled messages and local
//! notifications.  A single-threaded cooperative scheduler runs their
//! suspended activities to quiescence, and every point of network
//! nondeterminism (which pending delivery or acknowledgement fires next) is
//! exposed as an indexable choice, so a driver can replay or exhaustively
//! enumerate orderings and obtain identical traces for identical choices.

mod ack;
mod event;
mod join;
mod process;
mod send;
mod shared;
mod spawn;
mod system;
mod task;

pub use ack::AckHandle;
pub use event::{Event, EventKind, EventKindView, EventView, MessageId};
pub use join::JoinHandle;
pub use process::{Process, ProcessId};
pub use send::{send, send_local};
pub use shared::SharedState;
pub use spawn::spawn;
pub use event::{
    ack_delivered_for, ack_sent_for, is_message_event, message_event_count, message_event_id,
    message_event_payload, message_event_rank, message_event_receiver, message_event_sender,
    message_events_agree,
};
pub use system::{
    lemma_message_ids_strictly_increasing, lemma_message_lifecycle_exact,
    lemma_message_lifecycle_order, lemma_message_lifecycle_participants, lemma_time_monotone,
    SysModel, System, SystemState,
};
pub use task::{Immediate, TaskBody, TaskId, TaskPoll};
