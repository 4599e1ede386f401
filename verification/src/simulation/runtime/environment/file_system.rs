//! The file system backend that serves replicas' file requests.
pub mod memory;

use crate::simulation::runtime::environment::Action;
use crate::simulation::runtime::Event;
use vstd::prelude::*;

verus! {

/// A backend that serves file requests.
pub trait FileSystem: Sized {
    /// How this backend, in its present state, answers `event`.
    spec fn answer(&self, event: Event) -> Action;

    /// The state of this backend after it served `event`.
    spec fn after_serve(&self, event: Event) -> Self;

    /// Serves one event. An event that is put back in the queue stays with
    /// the replica that sent it.
    fn serve(&mut self, event: Event) -> (a: Action)
        ensures
            a == old(self).answer(event),
            *final(self) == old(self).after_serve(event),
            a matches Action::Requeue(e) ==> e.replica_id == event.replica_id,
    ;
}

} // verus!
