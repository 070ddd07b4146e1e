use std::cell::RefCell;
use std::rc::Rc;

use flurry::EventKind;

struct SendTask {
    to: flurry::ProcessId,
    msg: Option<String>,
    handle: Option<flurry::AckHandle>,
    sent_cnt: Rc<RefCell<usize>>,
}

impl flurry::TaskBody for SendTask {
    fn poll(&mut self, ctx: &mut flurry::SystemState<SendTask>) -> flurry::TaskPoll {
        if self.handle.is_none() {
            let msg = self.msg.take().unwrap();
            self.handle = Some(flurry::send(ctx, self.to, msg));
        }
        match self.handle.as_ref().unwrap().poll(ctx) {
            Some(_) => {
                *self.sent_cnt.borrow_mut() += 1;
                flurry::send_local(ctx, format!("sent: {}", *self.sent_cnt.borrow()));
                flurry::TaskPoll::Ready(0)
            }
            None => flurry::TaskPoll::Pending,
        }
    }
}

struct SendProcess {
    sent_cnt: Rc<RefCell<usize>>,
    recv_cnt: usize,
    pair: flurry::ProcessId,
}

impl SendProcess {
    fn send(
        &self,
        ctx: &mut flurry::SystemState<SendTask>,
        to: flurry::ProcessId,
        msg: String,
    ) {
        let sent_cnt = self.sent_cnt.clone();
        flurry::spawn(
            ctx,
            SendTask {
                to,
                msg: Some(msg),
                handle: None,
                sent_cnt,
            },
        );
    }
}

impl flurry::Process<SendTask> for SendProcess {
    fn on_message(
        &mut self,
        ctx: &mut flurry::SystemState<SendTask>,
        from: flurry::ProcessId,
        msg: String,
    ) {
        self.recv_cnt += 1;
        flurry::send_local(ctx, format!("received: {}", self.recv_cnt));
        self.send(ctx, from, msg);
    }

    fn on_local_message(&mut self, ctx: &mut flurry::SystemState<SendTask>, msg: &str) {
        self.send(ctx, self.pair, msg.to_string());
    }
}

fn ping_pong_system() -> flurry::System<SendProcess, SendTask> {
    let mut system: flurry::System<SendProcess, SendTask> = Default::default();
    system.add_process(SendProcess {
        sent_cnt: Rc::new(RefCell::new(0)),
        recv_cnt: 0,
        pair: 1,
    });
    system.add_process(SendProcess {
        sent_cnt: Rc::new(RefCell::new(0)),
        recv_cnt: 0,
        pair: 0,
    });
    system
}

#[test]
fn send() {
    let mut system: flurry::System<SendProcess, SendTask> = Default::default();

    let proc1 = system.add_process(SendProcess {
        sent_cnt: Rc::new(RefCell::new(0)),
        recv_cnt: 0,
        pair: 1,
    });
    assert_eq!(proc1, 0);

    let proc2 = system.add_process(SendProcess {
        sent_cnt: Rc::new(RefCell::new(0)),
        recv_cnt: 0,
        pair: 0,
    });
    assert_eq!(proc2, 1);

    system.send_local_message(proc1, "some message");
    assert_eq!(system.get_pending_events_count(), 1);
    let trace = system.get_trace();
    assert_eq!(trace.len(), 2);
    assert_eq!(
        trace[0].kind,
        EventKind::UserLocalMessage(proc1, "some message".to_string())
    );
    assert_eq!(
        trace[1].kind,
        EventKind::MessageSent(proc1, proc2, 0, "some message".to_string())
    );

    system.apply_pending_event(0);
    let trace = system.get_trace();
    assert_eq!(trace.len(), 6);
    assert_eq!(
        trace[2].kind,
        EventKind::MessageDelivered(proc1, proc2, 0, "some message".to_string())
    );
    // The receiver's synchronous handler output is traced before the
    // acknowledgement-sent step.
    assert_eq!(
        trace[3].kind,
        EventKind::ProcLocalMessage(proc2, "received: 1".to_string())
    );
    assert_eq!(trace[4].kind, EventKind::AckSent(proc2, proc1, 0));
    assert_eq!(
        trace[5].kind,
        EventKind::MessageSent(proc2, proc1, 1, "some message".to_string())
    );

    let proc2_local = system.read_local(proc2);
    assert_eq!(proc2_local.len(), 1);
    assert_eq!(proc2_local[0], "received: 1");

    assert_eq!(system.get_pending_events_count(), 2);
    system.apply_pending_event(0);
    let proc1_local = system.read_local(proc1);
    assert_eq!(proc1_local.len(), 1);
    assert_eq!(proc1_local[0], "sent: 1");

    for i in 1..11 {
        assert_eq!(system.get_pending_events_count(), 1);
        system.apply_pending_event(0); // apply `MessageDelivered`
        let receiver_proc_local = system.read_local((i + 1) % 2);
        assert_eq!(receiver_proc_local.len(), 1);
        assert_eq!(receiver_proc_local[0], format!("received: {}", 1 + i / 2));
        system.apply_pending_event(0); // apply `Ack`
        let sender_proc_local = system.read_local(i % 2);
        assert_eq!(sender_proc_local.len(), 1);
        assert_eq!(sender_proc_local[0], format!("sent: {}", 1 + i / 2));
    }
}

#[test]
fn identical_choices_identical_traces() {
    // The same process implementations and the same choice indices must
    // produce byte-identical traces.
    let choices = [0usize, 0, 0, 1, 0, 0, 0];
    let mut traces: Vec<Vec<flurry::Event>> = Vec::new();
    for _ in 0..2 {
        let mut system = ping_pong_system();
        system.send_local_message(0, "ping");
        system.send_local_message(1, "ping");
        for &c in choices.iter() {
            assert!(c < system.get_pending_events_count());
            system.apply_pending_event(c);
        }
        traces.push(system.get_trace());
    }
    assert_eq!(traces[0].len(), traces[1].len());
    for i in 0..traces[0].len() {
        assert_eq!(traces[0][i].time, traces[1][i].time);
        assert_eq!(traces[0][i].kind, traces[1][i].kind);
    }
}

#[test]
fn message_ids_strictly_increase() {
    let mut system = ping_pong_system();
    system.send_local_message(0, "a");
    system.send_local_message(1, "b");
    for _ in 0..6 {
        system.apply_pending_event(0);
    }
    let trace = system.get_trace();
    let mut last_id: Option<flurry::MessageId> = None;
    let mut sent_cnt = 0;
    for ev in trace.iter() {
        if let EventKind::MessageSent(_, _, id, _) = ev.kind {
            if let Some(prev) = last_id {
                assert!(prev < id);
            }
            last_id = Some(id);
            sent_cnt += 1;
        }
    }
    assert!(sent_cnt >= 2);
}

#[test]
fn per_message_lifecycle_order() {
    // For every message id, the trace holds its lifecycle steps in
    // protocol order: sent, delivered, ack sent, ack delivered.
    let mut system = ping_pong_system();
    system.send_local_message(0, "x");
    for _ in 0..4 {
        system.apply_pending_event(0);
    }
    let trace = system.get_trace();
    // (message id, protocol rank, sender, receiver) of a lifecycle entry.
    let describe = |kind: &EventKind| -> Option<(flurry::MessageId, u32, usize, usize)> {
        match kind {
            EventKind::MessageSent(f, t, id, _) => Some((*id, 0, *f, *t)),
            EventKind::MessageDelivered(f, t, id, _) => Some((*id, 1, *f, *t)),
            EventKind::AckSent(t, f, id) => Some((*id, 2, *f, *t)),
            EventKind::AckDelivered(t, f, id) => Some((*id, 3, *f, *t)),
            _ => None,
        }
    };
    for i in 0..trace.len() {
        for j in (i + 1)..trace.len() {
            if let (Some((id1, r1, f1, t1)), Some((id2, r2, f2, t2))) =
                (describe(&trace[i].kind), describe(&trace[j].kind))
            {
                if id1 == id2 {
                    assert!(r1 < r2);
                    assert_eq!(f1, f2);
                    assert_eq!(t1, t2);
                }
            }
        }
    }
}
