enum SpawnTask {
    Root {
        started: bool,
        res3: Option<flurry::JoinHandle>,
    },
    Child2,
    Child3 {
        started: bool,
        res2: Option<flurry::JoinHandle>,
    },
}

impl flurry::TaskBody for SpawnTask {
    fn poll(&mut self, ctx: &mut flurry::SystemState<SpawnTask>) -> flurry::TaskPoll {
        match self {
            SpawnTask::Root { started, res3 } => {
                if !*started {
                    *started = true;
                    flurry::send_local(ctx, format!("spawn1"));
                    let res2 = flurry::spawn(ctx, SpawnTask::Child2);
                    *res3 = Some(flurry::spawn(
                        ctx,
                        SpawnTask::Child3 {
                            started: false,
                            res2: Some(res2),
                        },
                    ));
                }
                match res3.as_ref().unwrap().poll(ctx) {
                    Some(v) => {
                        let total_result = v + 1; // must be 2+3+1
                        flurry::send_local(ctx, format!("total_result: {total_result}"));
                        flurry::TaskPoll::Ready(0)
                    }
                    None => flurry::TaskPoll::Pending,
                }
            }
            SpawnTask::Child2 => {
                flurry::send_local(ctx, format!("spawn2"));
                flurry::TaskPoll::Ready(2)
            }
            SpawnTask::Child3 { started, res2 } => {
                if !*started {
                    *started = true;
                    flurry::send_local(ctx, format!("spawn3"));
                }
                match res2.as_ref().unwrap().poll(ctx) {
                    Some(v) => flurry::TaskPoll::Ready(v + 3),
                    None => flurry::TaskPoll::Pending,
                }
            }
        }
    }
}

struct SpawnProcess {}

impl flurry::Process<SpawnTask> for SpawnProcess {
    fn on_message(
        &mut self,
        _ctx: &mut flurry::SystemState<SpawnTask>,
        _from: flurry::ProcessId,
        _msg: String,
    ) {
        unreachable!()
    }

    fn on_local_message(&mut self, ctx: &mut flurry::SystemState<SpawnTask>, _msg: &str) {
        flurry::spawn(
            ctx,
            SpawnTask::Root {
                started: false,
                res3: None,
            },
        );
    }
}

#[test]
fn spawn() {
    let mut sys: flurry::System<SpawnProcess, SpawnTask> = Default::default();
    let proc = sys.add_process(SpawnProcess {});
    sys.send_local_message(proc, "some msg");
    let msgs = sys.read_local(proc);
    assert_eq!(msgs.len(), 4);
    assert_eq!(msgs[0], "spawn1");
    assert_eq!(msgs[1], "spawn2");
    assert_eq!(msgs[2], "spawn3");
    assert_eq!(msgs[3], "total_result: 6");
}

enum ReorderTask {
    Root {
        started: bool,
        handle: Option<flurry::JoinHandle>,
    },
    Middle {
        inner: Option<flurry::JoinHandle>,
    },
    Leaf,
}

impl flurry::TaskBody for ReorderTask {
    fn poll(&mut self, ctx: &mut flurry::SystemState<ReorderTask>) -> flurry::TaskPoll {
        match self {
            ReorderTask::Root { started, handle } => {
                if !*started {
                    *started = true;
                    *handle = Some(flurry::spawn(ctx, ReorderTask::Middle { inner: None }));
                    flurry::send_local(ctx, "send1".to_string());
                }
                match handle.as_ref().unwrap().poll(ctx) {
                    Some(_) => {
                        flurry::send_local(ctx, "send3".to_string());
                        flurry::TaskPoll::Ready(0)
                    }
                    None => flurry::TaskPoll::Pending,
                }
            }
            ReorderTask::Middle { inner } => {
                if inner.is_none() {
                    *inner = Some(flurry::spawn(ctx, ReorderTask::Leaf));
                }
                match inner.as_ref().unwrap().poll(ctx) {
                    Some(_) => flurry::TaskPoll::Ready(0),
                    None => flurry::TaskPoll::Pending,
                }
            }
            ReorderTask::Leaf => {
                flurry::send_local(ctx, "send2".to_string());
                flurry::TaskPoll::Ready(0)
            }
        }
    }
}

struct ReorderSpawnProcess {}

impl flurry::Process<ReorderTask> for ReorderSpawnProcess {
    fn on_message(
        &mut self,
        _ctx: &mut flurry::SystemState<ReorderTask>,
        _from: flurry::ProcessId,
        _msg: String,
    ) {
        unreachable!()
    }

    fn on_local_message(&mut self, ctx: &mut flurry::SystemState<ReorderTask>, _msg: &str) {
        flurry::spawn(
            ctx,
            ReorderTask::Root {
                started: false,
                handle: None,
            },
        );
    }
}

#[test]
fn reordered_spawns() {
    let mut sys: flurry::System<ReorderSpawnProcess, ReorderTask> = Default::default();
    let proc = sys.add_process(ReorderSpawnProcess {});
    sys.send_local_message(proc, "some msg");
    let msgs = sys.read_local(proc);
    assert_eq!(msgs.len(), 3);
    assert_eq!(msgs[0], "send1");
    assert_eq!(msgs[1], "send2");
    assert_eq!(msgs[2], "send3");
}

struct AwaitImmediateTask {
    handle: Option<flurry::JoinHandle>,
}

impl flurry::TaskBody for AwaitImmediateTask {
    fn poll(&mut self, ctx: &mut flurry::SystemState<AwaitImmediateTask>) -> flurry::TaskPoll {
        // A completed task's handle resolves to its result value.
        if self.handle.is_none() {
            flurry::TaskPoll::Ready(0)
        } else {
            match self.handle.as_ref().unwrap().poll(ctx) {
                Some(v) => {
                    flurry::send_local(ctx, format!("joined: {v}"));
                    flurry::TaskPoll::Ready(v)
                }
                None => flurry::TaskPoll::Pending,
            }
        }
    }
}

struct JoinValueProcess {}

impl flurry::Process<AwaitImmediateTask> for JoinValueProcess {
    fn on_message(
        &mut self,
        _ctx: &mut flurry::SystemState<AwaitImmediateTask>,
        _from: flurry::ProcessId,
        _msg: String,
    ) {
        unreachable!()
    }

    fn on_local_message(
        &mut self,
        ctx: &mut flurry::SystemState<AwaitImmediateTask>,
        _msg: &str,
    ) {
        let inner = flurry::spawn(ctx, AwaitImmediateTask { handle: None });
        flurry::spawn(
            ctx,
            AwaitImmediateTask {
                handle: Some(inner),
            },
        );
    }
}

#[test]
fn join_handle_resolves_to_task_result() {
    let mut sys: flurry::System<JoinValueProcess, AwaitImmediateTask> = Default::default();
    let proc = sys.add_process(JoinValueProcess {});
    sys.send_local_message(proc, "go");
    let msgs = sys.read_local(proc);
    assert_eq!(msgs, vec!["joined: 0".to_string()]);
}
