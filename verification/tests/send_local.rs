struct SendLocalProcess {}

impl flurry::Process<flurry::Immediate> for SendLocalProcess {
    fn on_message(
        &mut self,
        _ctx: &mut flurry::SystemState<flurry::Immediate>,
        _from: flurry::ProcessId,
        _msg: String,
    ) {
        unreachable!()
    }

    fn on_local_message(&mut self, ctx: &mut flurry::SystemState<flurry::Immediate>, msg: &str) {
        flurry::send_local(ctx, msg.to_string());
    }
}

#[test]
fn send_local() {
    let mut system: flurry::System<SendLocalProcess, flurry::Immediate> = Default::default();
    let proc = system.add_process(SendLocalProcess {});

    system.send_local_message(proc, "msg1");
    system.send_local_message(proc, "msg2");
    system.send_local_message(proc, "msg3");

    let msgs = system.read_local(proc);
    assert_eq!(msgs.len(), 3);
    assert_eq!(msgs[0], "msg1");
    assert_eq!(msgs[1], "msg2");
    assert_eq!(msgs[2], "msg3");

    assert!(system.read_local(proc).is_empty());

    let trace = system.get_trace();
    assert_eq!(trace.len(), 6);

    assert_eq!(trace[0].time, 0);
    assert_eq!(trace[1].time, 0);

    assert_eq!(trace[2].time, 1);
    assert_eq!(trace[3].time, 1);

    assert_eq!(trace[4].time, 2);
    assert_eq!(trace[5].time, 2);
}

#[test]
fn read_local_drains() {
    // Draining the outbox is destructive: a second immediate read returns
    // an empty sequence, and other outboxes are untouched.
    let mut system: flurry::System<SendLocalProcess, flurry::Immediate> = Default::default();
    let p0 = system.add_process(SendLocalProcess {});
    let p1 = system.add_process(SendLocalProcess {});
    system.send_local_message(p0, "one");
    system.send_local_message(p1, "two");
    assert_eq!(system.read_local(p0), vec!["one".to_string()]);
    assert!(system.read_local(p0).is_empty());
    assert!(system.read_local(p0).is_empty());
    assert_eq!(system.read_local(p1), vec!["two".to_string()]);
    assert!(system.read_local(p1).is_empty());
}
