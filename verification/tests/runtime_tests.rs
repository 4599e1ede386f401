use dfs::simulation::runtime::counter::Counter;
use dfs::simulation::runtime::environment::file_system::memory::FileSystem as MemoryFs;
use dfs::simulation::runtime::environment::file_system::FileSystem as _;
use dfs::simulation::runtime::environment::{Action, Environment};
use dfs::simulation::runtime::event_queue::EventQueue;
use dfs::simulation::runtime::fault_injector::perfect::FaultInjector as Perfect;
use dfs::simulation::runtime::fault_injector::{Fault, FaultInjector as _};
use dfs::simulation::runtime::replica::handles::file_system::{FileOp, FileResult};
use dfs::simulation::runtime::replica::handles::{Request, Response};
use dfs::simulation::runtime::scheduler::fifo::Scheduler as Fifo;
use dfs::simulation::runtime::scheduler::Scheduler as _;
use dfs::simulation::runtime::{Event, Runtime, Step};

fn event(replica_id: usize, fire_at: u64, priority: u64, sequence: u64) -> Event {
    Event {
        replica_id,
        req: Request::Start,
        fault: None,
        fire_at,
        priority,
        sequence,
    }
}

#[test]
fn counter_hands_out_consecutive_ids() {
    let mut counter = Counter::new();
    assert_eq!(counter.next(), 0);
    assert_eq!(counter.next(), 1);
    assert_eq!(counter.next(), 2);
    assert!(counter.has_next());
    let mut other = Counter::default();
    assert_eq!(other.next(), 0);
}

#[test]
fn event_queue_pops_by_time_then_priority_then_sequence() {
    let mut queue = EventQueue::new();
    assert!(queue.is_empty());
    queue.push(event(0, 5, 0, 0));
    queue.push(event(1, 1, 9, 3));
    queue.push(event(2, 1, 2, 7));
    queue.push(event(3, 1, 2, 4));
    queue.push(event(4, 0, 100, 100));
    assert!(!queue.is_empty());
    let order: Vec<usize> = std::iter::from_fn(|| queue.pop().map(|e| e.replica_id)).collect();
    assert_eq!(order, vec![4, 3, 2, 1, 0]);
    assert!(queue.is_empty());
    assert!(queue.pop().is_none());
}

#[test]
fn fifo_scheduler_stamps_sequence_numbers() {
    let mut scheduler = Fifo::new();
    assert!(scheduler.has_capacity());
    let a = scheduler.schedule(Request::Start, 3);
    let b = scheduler.schedule(Request::Shutdown, 1);
    assert_eq!((a.replica_id, a.sequence, a.fire_at, a.priority), (3, 0, 0, 0));
    assert_eq!(a.req, Request::Start);
    assert!(a.fault.is_none());
    assert_eq!((b.replica_id, b.sequence), (1, 1));
    assert_eq!(b.req, Request::Shutdown);
    let c = scheduler.reschedule(a);
    assert_eq!((c.replica_id, c.sequence), (3, 2));
    assert_eq!(c.req, Request::Start);
}

#[test]
fn perfect_injector_marks_no_fault() {
    let mut injector = Perfect {};
    let e = injector.inject(event(2, 7, 8, 9));
    assert!(matches!(e.fault, Some(Fault::NoFault)));
    assert_eq!((e.replica_id, e.fire_at, e.priority, e.sequence), (2, 7, 8, 9));
    assert_eq!(e.req, Request::Start);
}

#[test]
fn environment_answers_start_and_drops_shutdown() {
    let mut env = Environment::new(MemoryFs {});
    assert!(matches!(env.serve(event(0, 0, 0, 0)), Action::Run(Response::Start)));
    let mut shutdown = event(0, 0, 0, 1);
    shutdown.req = Request::Shutdown;
    assert!(matches!(env.serve(shutdown), Action::Remove));
    let mut file = event(0, 0, 0, 2);
    file.req = Request::File(FileOp::Close { fd: 1 });
    assert!(matches!(
        env.serve(file),
        Action::Run(Response::File(FileResult::Open(Ok(42))))
    ));
}

#[test]
fn memory_file_system_opens_descriptor_42() {
    let mut fs = MemoryFs {};
    let mut e = event(1, 0, 0, 0);
    e.req = Request::File(FileOp::Delete {
        path: String::from("x"),
    });
    assert!(matches!(
        fs.serve(e),
        Action::Run(Response::File(FileResult::Open(Ok(42))))
    ));
}

#[test]
fn runtime_runs_a_replica_until_it_shuts_down() {
    let mut runtime: Runtime<Fifo, Perfect, MemoryFs> =
        Runtime::new(Fifo::new(), Perfect {}, Environment::new(MemoryFs {}));
    assert!(runtime.can_schedule());
    assert!(runtime.can_add_replica());
    let id = runtime.add_replica();
    assert_eq!(id, 0);

    // The replica's start is answered first.
    match runtime.step() {
        Step::Trap { replica_id, resp } => {
            assert_eq!(replica_id, 0);
            assert!(matches!(resp, Response::Start));
        }
        _ => panic!("expected the start to be delivered"),
    }
    // The replica then shuts down; its shutdown is dropped and the run ends.
    runtime.resume(0, Request::Shutdown);
    assert!(matches!(runtime.step(), Step::Removed));
    assert!(matches!(runtime.step(), Step::Done));
}

#[test]
fn runtime_serves_replicas_in_scheduling_order() {
    let mut runtime: Runtime<Fifo, Perfect, MemoryFs> =
        Runtime::new(Fifo::new(), Perfect {}, Environment::new(MemoryFs {}));
    assert_eq!(runtime.add_replica(), 0);
    assert_eq!(runtime.add_replica(), 1);
    let mut served = Vec::new();
    for _ in 0..2 {
        match runtime.step() {
            Step::Trap { replica_id, .. } => served.push(replica_id),
            _ => panic!("expected a delivery"),
        }
    }
    assert_eq!(served, vec![0, 1]);
    runtime.resume(1, Request::File(FileOp::Close { fd: 3 }));
    match runtime.step() {
        Step::Trap { replica_id, resp } => {
            assert_eq!(replica_id, 1);
            assert!(matches!(resp, Response::File(FileResult::Open(Ok(42)))));
        }
        _ => panic!("expected a delivery"),
    }
    assert!(matches!(runtime.step(), Step::Done));
}

#[test]
fn runtime_handle_carries_out_each_action() {
    let mut runtime: Runtime<Fifo, Perfect, MemoryFs> =
        Runtime::new(Fifo::new(), Perfect {}, Environment::new(MemoryFs {}));
    assert_eq!(runtime.add_replica(), 0);
    // The start is still queued; a response is handed over as it is.
    match runtime.handle(0, Action::Run(Response::Shutdown)) {
        Step::Trap { replica_id, resp } => {
            assert_eq!(replica_id, 0);
            assert!(matches!(resp, Response::Shutdown));
        }
        _ => panic!("expected a delivery"),
    }
    assert!(matches!(runtime.handle(0, Action::Remove), Step::Removed));
    // A requeued event goes back behind the start, with the next sequence number.
    assert!(matches!(
        runtime.handle(0, Action::Requeue(event(0, 0, 0, 99))),
        Step::Requeued
    ));
    match runtime.step() {
        Step::Trap { resp, .. } => assert!(matches!(resp, Response::Start)),
        _ => panic!("expected the start first"),
    }
    match runtime.step() {
        Step::Trap { resp, .. } => assert!(matches!(resp, Response::Start)),
        _ => panic!("expected the requeued start"),
    }
    assert!(matches!(runtime.step(), Step::Done));
}

fn describe(step: Step) -> String {
    match step {
        Step::Trap { replica_id, resp } => format!("trap {} {:?}", replica_id, resp),
        Step::Requeued => String::from("requeued"),
        Step::Removed => String::from("removed"),
        Step::Done => String::from("done"),
    }
}

fn scripted_run() -> Vec<String> {
    let mut runtime: Runtime<Fifo, Perfect, MemoryFs> =
        Runtime::new(Fifo::new(), Perfect {}, Environment::new(MemoryFs {}));
    runtime.add_replica();
    runtime.add_replica();
    let mut log = Vec::new();
    let mut rounds = 0;
    loop {
        let step = runtime.step();
        if let Step::Trap { replica_id, .. } = &step {
            let id = *replica_id;
            rounds += 1;
            let req = if rounds < 4 {
                Request::File(FileOp::Close { fd: rounds })
            } else {
                Request::Shutdown
            };
            log.push(describe(step));
            runtime.resume(id, req);
        } else {
            let done = matches!(step, Step::Done);
            log.push(describe(step));
            if done {
                break;
            }
        }
    }
    log
}

#[test]
fn runtime_replays_the_same_run() {
    let first = scripted_run();
    let second = scripted_run();
    assert_eq!(first, second);
    assert_eq!(first[0], "trap 0 Start");
    assert_eq!(first[1], "trap 1 Start");
    assert_eq!(first.last().unwrap(), "done");
}

#[test]
fn runtime_serve_next_answers_the_first_event() {
    let mut runtime: Runtime<Fifo, Perfect, MemoryFs> =
        Runtime::new(Fifo::new(), Perfect {}, Environment::new(MemoryFs {}));
    assert!(runtime.serve_next().is_none());
    runtime.add_replica();
    match runtime.serve_next() {
        Some((0, Action::Run(Response::Start))) => {}
        _ => panic!("expected the start of replica 0"),
    }
    assert!(runtime.serve_next().is_none());
}
