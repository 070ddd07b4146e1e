struct OneShotTask {
    to: flurry::ProcessId,
    msg: Option<String>,
    handle: Option<flurry::AckHandle>,
}

impl flurry::TaskBody for OneShotTask {
    fn poll(&mut self, ctx: &mut flurry::SystemState<OneShotTask>) -> flurry::TaskPoll {
        if self.handle.is_none() {
            let msg = self.msg.take().unwrap();
            self.handle = Some(flurry::send(ctx, self.to, msg));
        }
        match self.handle.as_ref().unwrap().poll(ctx) {
            Some(_) => flurry::TaskPoll::Ready(0),
            None => flurry::TaskPoll::Pending,
        }
    }
}

/// Sends exactly one message to its pair per local input and records each
/// received message, never replying: every run is finite.
struct PairProcess {
    pair: flurry::ProcessId,
}

impl flurry::Process<OneShotTask> for PairProcess {
    fn on_message(
        &mut self,
        ctx: &mut flurry::SystemState<OneShotTask>,
        _from: flurry::ProcessId,
        msg: String,
    ) {
        flurry::send_local(ctx, format!("got {msg}"));
    }

    fn on_local_message(&mut self, ctx: &mut flurry::SystemState<OneShotTask>, msg: &str) {
        flurry::spawn(
            ctx,
            OneShotTask {
                to: self.pair,
                msg: Some(msg.to_string()),
                handle: None,
            },
        );
    }
}

fn replay(choices: &[usize]) -> flurry::System<PairProcess, OneShotTask> {
    let mut system: flurry::System<PairProcess, OneShotTask> = Default::default();
    let a = system.add_process(PairProcess { pair: 1 });
    let b = system.add_process(PairProcess { pair: 0 });
    system.send_local_message(a, "ma");
    system.send_local_message(b, "mb");
    for &c in choices {
        assert!(c < system.get_pending_events_count());
        system.apply_pending_event(c);
    }
    system
}

fn explore(prefix: &mut Vec<usize>, depth: usize, leaves: &mut usize) {
    // The run is bounded: two messages produce at most four pending
    // events over a run, so every branch reaches quiescence.
    assert!(depth <= 4);
    let mut system = replay(prefix);
    let count = system.get_pending_events_count();
    if count == 0 {
        // Every fully explored branch: each process received the other's
        // message exactly once.
        let got_a = system.read_local(0);
        let got_b = system.read_local(1);
        assert_eq!(got_a, vec!["got mb".to_string()]);
        assert_eq!(got_b, vec!["got ma".to_string()]);
        *leaves += 1;
        return;
    }
    for c in 0..count {
        prefix.push(c);
        explore(prefix, depth + 1, leaves);
        prefix.pop();
    }
}

#[test]
fn exhaustive_search_terminates() {
    let mut prefix: Vec<usize> = Vec::new();
    let mut leaves: usize = 0;
    explore(&mut prefix, 0, &mut leaves);
    // Two independent delivery/acknowledgement chains of two hops each:
    // every interleaving reaches quiescence.
    assert_eq!(leaves, 6);
}
