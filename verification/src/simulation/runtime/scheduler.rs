//! Assigns timing and sequence to the events of replicas.
pub mod fifo;

use super::replica::handles::Request;
use super::Event;
use super::ReplicaId;
use vstd::prelude::*;

verus! {

/// Turns requests into events. The event carries the request and the replica
/// as given; the scheduler picks only its time, priority and sequence.
pub trait Scheduler: Sized {
    /// Whether another event can be scheduled.
    spec fn can_schedule(&self) -> bool;

    /// The event this scheduler, in its present state, makes of `req` of
    /// replica `replica_id`.
    spec fn scheduled(&self, req: Request, replica_id: ReplicaId) -> Event;

    /// The state of this scheduler after it scheduled `req` of `replica_id`.
    spec fn after_schedule(&self, req: Request, replica_id: ReplicaId) -> Self;

    /// The event this scheduler, in its present state, makes of `event` when
    /// it is put back.
    spec fn rescheduled(&self, event: Event) -> Event;

    /// The state of this scheduler after it put `event` back.
    spec fn after_reschedule(&self, event: Event) -> Self;

    fn has_capacity(&self) -> (b: bool)
        ensures
            b == self.can_schedule(),
    ;

    fn schedule(&mut self, req: Request, replica_id: ReplicaId) -> (e: Event)
        requires
            old(self).can_schedule(),
        ensures
            e == old(self).scheduled(req, replica_id),
            *final(self) == old(self).after_schedule(req, replica_id),
            e.req == req,
            e.replica_id == replica_id,
    ;

    fn reschedule(&mut self, event: Event) -> (e: Event)
        requires
            old(self).can_schedule(),
        ensures
            e == old(self).rescheduled(event),
            *final(self) == old(self).after_reschedule(event),
            e.req == event.req,
            e.replica_id == event.replica_id,
    ;
}

} // verus!
