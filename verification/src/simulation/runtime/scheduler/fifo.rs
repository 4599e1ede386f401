//! Schedules events in the order they arrive: all fire at once, with no
//! priority, ordered by a sequence number.
use crate::simulation::runtime::counter::Counter;
use crate::simulation::runtime::replica::handles::Request;
use crate::simulation::runtime::event_queue::fires_first;
use crate::simulation::runtime::{Event, ReplicaId};
use vstd::prelude::*;

verus! {

pub struct Scheduler {
    counter: Counter,
}

impl View for Scheduler {
    type V = nat;

    /// The sequence number of the next event.
    closed spec fn view(&self) -> nat {
        self.counter@
    }
}

impl Scheduler {
    /// Scheduling or rescheduling advances the sequence number by one.
    pub proof fn lemma_advances(&self, req: Request, replica_id: ReplicaId, event: Event)
        requires
            self@ < u64::MAX,
        ensures
            <Self as super::Scheduler>::after_schedule(self, req, replica_id)@ == self@ + 1,
            <Self as super::Scheduler>::after_reschedule(self, event)@ == self@ + 1,
    {
        self.counter.lemma_advanced();
    }

    pub fn new() -> (s: Self)
        ensures
            s@ == 0,
    {
        Self { counter: Counter::new() }
    }
}

impl Default for Scheduler {
    fn default() -> (s: Self)
        ensures
            s@ == 0,
    {
        Self::new()
    }
}

impl super::Scheduler for Scheduler {
    open spec fn can_schedule(&self) -> bool {
        self@ < u64::MAX
    }

    /// The request is stamped with the next sequence number, to fire at time 0
    /// with priority 0 and no fault.
    open spec fn scheduled(&self, req: Request, replica_id: ReplicaId) -> Event {
        Event { replica_id, req, fault: None, fire_at: 0, priority: 0, sequence: self@ as u64 }
    }

    /// The sequence number advances by one.
    closed spec fn after_schedule(&self, req: Request, replica_id: ReplicaId) -> Self {
        Scheduler { counter: self.counter.advanced() }
    }

    /// The event gets the next sequence number and keeps the rest.
    open spec fn rescheduled(&self, event: Event) -> Event {
        Event { sequence: self@ as u64, ..event }
    }

    /// The sequence number advances by one.
    closed spec fn after_reschedule(&self, event: Event) -> Self {
        Scheduler { counter: self.counter.advanced() }
    }

    fn has_capacity(&self) -> (b: bool) {
        self.counter.has_next()
    }

    /// Stamps the request with the next sequence number, to fire at time 0
    /// with priority 0 and no fault.
    fn schedule(&mut self, req: Request, replica_id: ReplicaId) -> (e: Event)
        ensures
            e == (Event { replica_id, req, fault: None, fire_at: 0, priority: 0, sequence: old(self)@ as u64 }),
            final(self)@ == old(self)@ + 1,
    {
        let sequence = self.counter.next();
        Event { replica_id, req, fault: None, fire_at: 0, priority: 0, sequence }
    }

    /// Gives the event the next sequence number, which puts it behind all
    /// events scheduled before.
    fn reschedule(&mut self, event: Event) -> (e: Event)
        ensures
            e == (Event { sequence: old(self)@ as u64, ..event }),
            final(self)@ == old(self)@ + 1,
    {
        let mut event = event;
        event.sequence = self.counter.next();
        event
    }
}

/// First scheduled, first served: of two events this scheduler stamped, the
/// one with the smaller sequence number leaves the queue first.
pub proof fn lemma_first_scheduled_first_out(a: Event, b: Event)
    requires
        a.fire_at == 0 && a.priority == 0,
        b.fire_at == 0 && b.priority == 0,
        a.sequence < b.sequence,
    ensures
        fires_first(a, b),
{
}

} // verus!
