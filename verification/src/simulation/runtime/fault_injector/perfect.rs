//! A fault injector under which nothing goes wrong.
use super::Event;
use super::Fault;
use vstd::prelude::*;

verus! {

pub struct FaultInjector {}

impl super::FaultInjector for FaultInjector {
    /// Marks the event as free of faults and changes nothing else.
    open spec fn injected(&self, event: Event) -> Event {
        Event { fault: Some(Fault::NoFault), ..event }
    }

    /// The injector keeps no state.
    open spec fn after_inject(&self, event: Event) -> Self {
        *self
    }

    fn inject(&mut self, event: Event) -> (e: Event)
        ensures
            e == (Event { fault: Some(Fault::NoFault), ..event }),
    {
        let mut event = event;
        event.fault = Some(Fault::NoFault);
        event
    }
}

} // verus!
