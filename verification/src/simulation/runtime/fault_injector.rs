//! Decides what, if anything, goes wrong with an event.
pub mod perfect;

use super::Event;
use vstd::prelude::*;

verus! {

/// The fault an event suffers on its way to the environment.
pub enum Fault {
    /// Nothing goes wrong.
    NoFault,
    Corrupted,
}

/// Decides the fault of each event before it is served. The event keeps its
/// request and stays with the replica that sent it.
pub trait FaultInjector: Sized {
    /// The event this injector, in its present state, makes of `event`.
    spec fn injected(&self, event: Event) -> Event;

    /// The state of this injector after it handled `event`.
    spec fn after_inject(&self, event: Event) -> Self;

    fn inject(&mut self, event: Event) -> (e: Event)
        ensures
            e == old(self).injected(event),
            *final(self) == old(self).after_inject(event),
            e.replica_id == event.replica_id,
            e.req == event.req,
    ;
}

} // verus!
