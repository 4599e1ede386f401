//! The deterministic simulation runtime: events are taken from the queue in
//! order, pass the fault injector, are served by the environment, and the
//! replica's next request goes back into the queue.
pub mod counter;
pub mod environment;
pub mod event_queue;
pub mod fault_injector;
pub mod replica;
pub mod scheduler;

use environment::file_system::FileSystem;
use environment::{Action, Environment};
use event_queue::{lemma_next_is_unique, EventQueue};
use fault_injector::{Fault, FaultInjector};
use replica::handles::{Request, Response};
use scheduler::Scheduler;
use vstd::multiset::Multiset;
use vstd::prelude::*;

verus! {

pub type ReplicaId = usize;

pub type TimeStamp = u64;

pub struct Event {
    pub replica_id: ReplicaId,
    pub req: Request,
    pub fault: Option<Fault>,
    pub fire_at: TimeStamp,
    pub priority: u64,
    pub sequence: u64,
}

} // verus!

verus! {

/// What one step of the runtime leaves for the caller to do.
pub enum Step {
    /// Hand `resp` to the replica and pass its next request to `resume`.
    Trap { replica_id: ReplicaId, resp: Response },
    /// The event went back into the queue.
    Requeued,
    /// The event was dropped.
    Removed,
    /// The queue is empty: the run is over.
    Done,
}

pub struct Runtime<S: Scheduler, F: FaultInjector, FS: FileSystem> {
    scheduler: S,
    fault_injector: F,
    environment: Environment<FS>,
    queue: EventQueue,
    replicas: usize,
}

impl<S: Scheduler, F: FaultInjector, FS: FileSystem> Runtime<S, F, FS> {
    /// The number of replicas spawned so far; they have the ids below it.
    pub closed spec fn replica_count(&self) -> nat {
        self.replicas as nat
    }

    /// The events waiting in the queue.
    pub closed spec fn queue(&self) -> EventQueue {
        self.queue
    }

    pub closed spec fn scheduler(&self) -> S {
        self.scheduler
    }

    pub closed spec fn fault_injector(&self) -> F {
        self.fault_injector
    }

    pub closed spec fn environment(&self) -> Environment<FS> {
        self.environment
    }

    /// Every queued event belongs to a spawned replica.
    pub open spec fn wf(&self) -> bool {
        forall|e: Event| #[trigger] self.queue()@.count(e) > 0 ==> e.replica_id < self.replica_count()
    }

    pub fn new(scheduler: S, fault_injector: F, environment: Environment<FS>) -> (r: Self)
        ensures
            r.wf(),
            r.queue()@ =~= Multiset::empty(),
            r.replica_count() == 0,
            r.scheduler() == scheduler,
            r.fault_injector() == fault_injector,
            r.environment() == environment,
    {
        Self { scheduler, fault_injector, environment, queue: EventQueue::new(), replicas: 0 }
    }

    /// Whether the scheduler can take another event, which `step`,
    /// `add_replica` and `resume` need.
    pub fn can_schedule(&self) -> (b: bool)
        ensures
            b == self.scheduler().can_schedule(),
    {
        self.scheduler.has_capacity()
    }

    /// Whether more replicas can be added.
    pub fn can_add_replica(&self) -> (b: bool)
        ensures
            b == (self.replica_count() < usize::MAX),
    {
        self.replicas < usize::MAX
    }

    /// What the environment answers to `e` once the fault injector handled it.
    pub open spec fn answer_to(&self, e: Event) -> Action {
        self.environment().answer(self.fault_injector().injected(e))
    }

    /// `serve_next` went from `old` to `new` with the event `e`: `e` fired
    /// first, left the queue, and went through the fault injector and the
    /// environment, which moved on to their next states.
    pub open spec fn serve_post(old: Self, new: Self, e: Event) -> bool {
        &&& old.queue().is_next(e)
        &&& old.fault_injector().injected(e).replica_id == e.replica_id
        &&& old.fault_injector().injected(e).req == e.req
        &&& new.queue()@ == old.queue()@.remove(e)
        &&& new.replica_count() == old.replica_count()
        &&& new.scheduler() == old.scheduler()
        &&& new.fault_injector() == old.fault_injector().after_inject(e)
        &&& new.environment().file_system() == old.environment().served_fs(
            old.fault_injector().injected(e),
        )
    }

    /// `handle` went from `old` to `new` with outcome `s` for the answer `a`
    /// to an event of replica `replica_id`.
    pub open spec fn handle_post(old: Self, new: Self, replica_id: ReplicaId, a: Action, s: Step) -> bool {
        &&& new.replica_count() == old.replica_count()
        &&& new.fault_injector() == old.fault_injector()
        &&& new.environment() == old.environment()
        &&& match a {
            Action::Run(resp) => {
                &&& s == Step::Trap { replica_id, resp }
                &&& new.queue()@ == old.queue()@
                &&& new.scheduler() == old.scheduler()
            },
            Action::Requeue(ev) => {
                &&& s is Requeued
                &&& new.queue()@ == old.queue()@.insert(old.scheduler().rescheduled(ev))
                &&& new.scheduler() == old.scheduler().after_reschedule(ev)
            },
            Action::Remove => {
                &&& s is Removed
                &&& new.queue()@ == old.queue()@
                &&& new.scheduler() == old.scheduler()
            },
        }
    }

    /// `step` went from `old` to `new` with outcome `s`: nothing happens on an
    /// empty queue; otherwise the first event is served and the answer carried
    /// out.
    pub open spec fn step_post(old: Self, new: Self, s: Step) -> bool {
        if old.queue()@.len() == 0 {
            &&& s is Done
            &&& new.queue()@ == old.queue()@
            &&& new.replica_count() == old.replica_count()
            &&& new.scheduler() == old.scheduler()
            &&& new.fault_injector() == old.fault_injector()
            &&& new.environment() == old.environment()
        } else {
            exists|e: Event, mid: Self|
                #![trigger Self::serve_post(old, mid, e)]
                Self::serve_post(old, mid, e) && Self::handle_post(mid, new, e.replica_id, old.answer_to(e), s)
        }
    }

    /// Registers a new replica and queues the event the scheduler makes of its
    /// start.
    pub fn add_replica(&mut self) -> (id: ReplicaId)
        requires
            old(self).wf(),
            old(self).scheduler().can_schedule(),
            old(self).replica_count() < usize::MAX,
        ensures
            final(self).wf(),
            id == old(self).replica_count(),
            final(self).replica_count() == old(self).replica_count() + 1,
            final(self).queue()@ == old(self).queue()@.insert(
                old(self).scheduler().scheduled(Request::Start, id),
            ),
            old(self).scheduler().scheduled(Request::Start, id).req == Request::Start,
            old(self).scheduler().scheduled(Request::Start, id).replica_id == id,
            final(self).scheduler() == old(self).scheduler().after_schedule(Request::Start, id),
            final(self).fault_injector() == old(self).fault_injector(),
            final(self).environment() == old(self).environment(),
    {
        let id: ReplicaId = self.replicas;
        let event = self.scheduler.schedule(Request::Start, id);
        let ghost e = event;
        self.queue.push(event);
        self.replicas = self.replicas + 1;
        proof {
            assert(self.queue()@ =~= old(self).queue()@.insert(e));
        }
        id
    }

    fn done(&self) -> (b: bool)
        ensures
            b == (self.queue()@.len() == 0),
    {
        self.queue.is_empty()
    }

    /// Takes out the event that fires first and lets the fault injector and
    /// then the environment handle it; gives the replica and the answer.
    pub fn serve_next(&mut self) -> (r: Option<(ReplicaId, Action)>)
        requires
            old(self).wf(),
        ensures
            final(self).wf(),
            old(self).queue()@.len() == 0 ==> {
                &&& r is None
                &&& final(self).queue()@ == old(self).queue()@
                &&& final(self).replica_count() == old(self).replica_count()
                &&& final(self).scheduler() == old(self).scheduler()
                &&& final(self).fault_injector() == old(self).fault_injector()
                &&& final(self).environment() == old(self).environment()
            },
            old(self).queue()@.len() > 0 ==> exists|e: Event|
                #![trigger Self::serve_post(*old(self), *final(self), e)]
                Self::serve_post(*old(self), *final(self), e) && r == Some((e.replica_id, old(self).answer_to(e))),
            r matches Some((id, a)) ==> id < final(self).replica_count() && (a matches Action::Requeue(
                ev,
            ) ==> ev.replica_id < final(self).replica_count()),
    {
        if self.done() {
            return None;
        }
        let next = self.queue.pop().unwrap();
        let ghost e = next;
        let next = self.fault_injector.inject(next);
        let replica_id = next.replica_id;
        let action = self.environment.serve(next);
        proof {
            assert(old(self).queue().is_next(e));
            assert(Self::serve_post(*old(self), *self, e));
        }
        Some((replica_id, action))
    }

    /// Carries out what the environment answered for an event of replica
    /// `replica_id`: a response is handed to the caller for that replica, an
    /// event put back goes into the queue as the scheduler reschedules it,
    /// and a dropped event leaves nothing behind.
    pub fn handle(&mut self, replica_id: ReplicaId, action: Action) -> (s: Step)
        requires
            old(self).wf(),
            replica_id < old(self).replica_count(),
            action matches Action::Requeue(ev) ==> ev.replica_id < old(self).replica_count()
                && old(self).scheduler().can_schedule(),
        ensures
            final(self).wf(),
            Self::handle_post(*old(self), *final(self), replica_id, action, s),
    {
        match action {
            Action::Requeue(event) => {
                let event = self.scheduler.reschedule(event);
                let ghost e = event;
                self.queue.push(event);
                proof {
                    assert(self.queue()@ =~= old(self).queue()@.insert(e));
                }
                Step::Requeued
            },
            Action::Run(resp) => Step::Trap { replica_id, resp },
            Action::Remove => Step::Removed,
        }
    }

    /// One step of the run: serves the event that fires first and carries out
    /// the environment's answer. The scheduler needs room only when the event
    /// is put back.
    pub fn step(&mut self) -> (s: Step)
        requires
            old(self).wf(),
            forall|e: Event|
                #[trigger] old(self).queue().is_next(e) && old(self).answer_to(e) is Requeue
                    ==> old(self).scheduler().can_schedule(),
        ensures
            final(self).wf(),
            Self::step_post(*old(self), *final(self), s),
    {
        let ghost before = *self;
        match self.serve_next() {
            None => Step::Done,
            Some((replica_id, action)) => {
                let ghost mid = *self;
                proof {
                    let e = choose|e: Event| #[trigger] Self::serve_post(before, mid, e) && Some((replica_id, action)) == Some((e.replica_id, before.answer_to(e)));
                    assert(Self::serve_post(before, mid, e));
                }
                let s = self.handle(replica_id, action);
                proof {
                    let e = choose|e: Event| #[trigger] Self::serve_post(before, mid, e) && Some((replica_id, action)) == Some((e.replica_id, before.answer_to(e)));
                    assert(Self::serve_post(before, mid, e) && Self::handle_post(mid, *self, e.replica_id, before.answer_to(e), s));
                }
                s
            },
        }
    }

    /// Queues the event the scheduler makes of the next request of a replica
    /// that was handed a response.
    pub fn resume(&mut self, replica_id: ReplicaId, req: Request)
        requires
            old(self).wf(),
            old(self).scheduler().can_schedule(),
            replica_id < old(self).replica_count(),
        ensures
            final(self).wf(),
            final(self).replica_count() == old(self).replica_count(),
            final(self).queue()@ == old(self).queue()@.insert(old(self).scheduler().scheduled(req, replica_id)),
            old(self).scheduler().scheduled(req, replica_id).req == req,
            old(self).scheduler().scheduled(req, replica_id).replica_id == replica_id,
            final(self).scheduler() == old(self).scheduler().after_schedule(req, replica_id),
            final(self).fault_injector() == old(self).fault_injector(),
            final(self).environment() == old(self).environment(),
    {
        let event = self.scheduler.schedule(req, replica_id);
        let ghost e = event;
        self.queue.push(event);
        proof {
            assert(self.queue()@ =~= old(self).queue()@.insert(e));
        }
    }
}

/// Replay: a step from the same state gives the same outcome and the same next
/// state, when no two pending events share fire time, priority and sequence.
pub proof fn lemma_step_replays<S: Scheduler, F: FaultInjector, FS: FileSystem>(
    old: Runtime<S, F, FS>,
    new1: Runtime<S, F, FS>,
    s1: Step,
    new2: Runtime<S, F, FS>,
    s2: Step,
)
    requires
        Runtime::step_post(old, new1, s1),
        Runtime::step_post(old, new2, s2),
        forall|x: Event, y: Event|
            #[trigger] old.queue()@.count(x) > 0 && #[trigger] old.queue()@.count(y) > 0 && x.fire_at
                == y.fire_at && x.priority == y.priority && x.sequence == y.sequence ==> x == y,
    ensures
        s1 == s2,
        new1.queue()@ == new2.queue()@,
        new1.replica_count() == new2.replica_count(),
        new1.scheduler() == new2.scheduler(),
        new1.fault_injector() == new2.fault_injector(),
        new1.environment() == new2.environment(),
{
    if old.queue()@.len() > 0 {
        let (e1, m1) = choose|e: Event, mid: Runtime<S, F, FS>|
            #![trigger Runtime::serve_post(old, mid, e)]
            Runtime::serve_post(old, mid, e) && Runtime::handle_post(mid, new1, e.replica_id, old.answer_to(e), s1);
        let (e2, m2) = choose|e: Event, mid: Runtime<S, F, FS>|
            #![trigger Runtime::serve_post(old, mid, e)]
            Runtime::serve_post(old, mid, e) && Runtime::handle_post(mid, new2, e.replica_id, old.answer_to(e), s2);
        lemma_next_is_unique(old.queue()@, e1, e2);
        Environment::lemma_same(m1.environment(), m2.environment());
    }
}

impl<F: FaultInjector, FS: FileSystem> Runtime<scheduler::fifo::Scheduler, F, FS> {
    /// Under the FIFO scheduler: every queued event has a sequence number
    /// below the scheduler's next one, and no two queued events share one.
    pub open spec fn sequences_fresh(&self) -> bool {
        &&& forall|e: Event| #[trigger] self.queue()@.count(e) > 0 ==> e.sequence < self.scheduler()@
        &&& forall|x: Event, y: Event|
            #[trigger] self.queue()@.count(x) > 0 && #[trigger] self.queue()@.count(y) > 0 && x.sequence
                == y.sequence ==> x == y
    }
}

/// Under the FIFO scheduler, fresh sequence numbers make the order of the
/// queue total: no two pending events share fire time, priority and sequence,
/// so `lemma_step_replays` applies to every step.
pub proof fn lemma_fresh_keys_unique<F: FaultInjector, FS: FileSystem>(
    rt: Runtime<scheduler::fifo::Scheduler, F, FS>,
)
    requires
        rt.sequences_fresh(),
    ensures
        forall|x: Event, y: Event|
            #[trigger] rt.queue()@.count(x) > 0 && #[trigger] rt.queue()@.count(y) > 0 && x.fire_at
                == y.fire_at && x.priority == y.priority && x.sequence == y.sequence ==> x == y,
{
}

/// Under the FIFO scheduler, queueing the event made of a request keeps the
/// sequence numbers fresh (`add_replica` and `resume`).
pub proof fn lemma_fifo_schedule_keeps_fresh<F: FaultInjector, FS: FileSystem>(
    old: Runtime<scheduler::fifo::Scheduler, F, FS>,
    new: Runtime<scheduler::fifo::Scheduler, F, FS>,
    req: Request,
    replica_id: ReplicaId,
)
    requires
        old.sequences_fresh(),
        old.scheduler()@ < u64::MAX,
        new.queue()@ == old.queue()@.insert(old.scheduler().scheduled(req, replica_id)),
        new.scheduler() == old.scheduler().after_schedule(req, replica_id),
    ensures
        new.sequences_fresh(),
{
    old.scheduler().lemma_advances(req, replica_id, old.scheduler().scheduled(req, replica_id));
}

/// Under the FIFO scheduler, a step keeps the sequence numbers fresh, so a
/// run from the same start replays exactly.
pub proof fn lemma_fifo_step_keeps_fresh<F: FaultInjector, FS: FileSystem>(
    old: Runtime<scheduler::fifo::Scheduler, F, FS>,
    new: Runtime<scheduler::fifo::Scheduler, F, FS>,
    s: Step,
)
    requires
        Runtime::step_post(old, new, s),
        old.sequences_fresh(),
        old.scheduler()@ < u64::MAX,
    ensures
        new.sequences_fresh(),
{
    if old.queue()@.len() > 0 {
        let (e, mid) = choose|e: Event, mid: Runtime<scheduler::fifo::Scheduler, F, FS>|
            #![trigger Runtime::serve_post(old, mid, e)]
            Runtime::serve_post(old, mid, e) && Runtime::handle_post(mid, new, e.replica_id, old.answer_to(e), s);
        if let Action::Requeue(ev) = old.answer_to(e) {
            old.scheduler().lemma_advances(arbitrary(), 0, ev);
        }
    }
}

} // verus!
