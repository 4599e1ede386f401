//! Serves the requests of replicas.
pub mod file_system;

use crate::simulation::runtime::replica::handles::{Request, Response};
use crate::simulation::runtime::Event;
use file_system::FileSystem;
use vstd::prelude::*;

verus! {

/// What becomes of an event that the environment served.
pub enum Action {
    /// Deliver this response to the replica.
    Run(Response),
    /// Put the event back in the queue.
    Requeue(Event),
    /// Drop the event.
    Remove,
}

pub struct Environment<FS: FileSystem> {
    file_system: FS,
}

impl<FS: FileSystem> Environment<FS> {
    pub fn new(file_system: FS) -> (env: Self)
        ensures
            env.file_system() == file_system,
    {
        Self { file_system }
    }

    /// The backend that serves file requests.
    pub closed spec fn file_system(&self) -> FS {
        self.file_system
    }

    /// How the environment answers `event`: a start at once, a shutdown by
    /// dropping the event, a file request as the backend does.
    pub open spec fn answer(&self, event: Event) -> Action {
        match event.req {
            Request::Start => Action::Run(Response::Start),
            Request::Shutdown => Action::Remove,
            Request::File(_) => self.file_system().answer(event),
        }
    }

    /// The backend after the environment served `event`: only a file request
    /// reaches it.
    pub open spec fn served_fs(&self, event: Event) -> FS {
        match event.req {
            Request::File(_) => self.file_system().after_serve(event),
            _ => self.file_system(),
        }
    }

    /// Two environments with the same backend are the same.
    pub proof fn lemma_same(a: Self, b: Self)
        requires
            a.file_system() == b.file_system(),
        ensures
            a == b,
    {
    }

    /// Every file request, whatever its operation, goes to the backend: the
    /// environment answers it as the backend does and the backend moves on to
    /// its state after serving it. A start is answered at once and a shutdown
    /// is dropped, neither touching the backend; so the environment itself
    /// drops nothing but a shutdown.
    pub proof fn lemma_file_requests_reach_backend(env: Self, event: Event)
        ensures
            event.req is File ==> env.answer(event) == env.file_system().answer(event)
                && env.served_fs(event) == env.file_system().after_serve(event),
            event.req is Start ==> env.answer(event) == Action::Run(Response::Start)
                && env.served_fs(event) == env.file_system(),
            event.req is Shutdown ==> env.answer(event) is Remove && env.served_fs(event)
                == env.file_system(),
            env.answer(event) is Remove ==> event.req is Shutdown || (event.req is File
                && env.file_system().answer(event) is Remove),
    {
    }

    /// A start is answered at once, a shutdown drops the event, and a file
    /// request goes to the file system backend, whose answer is returned.
    /// Only a file request reaches the backend.
    pub fn serve(&mut self, event: Event) -> (a: Action)
        ensures
            a == old(self).answer(event),
            final(self).file_system() == old(self).served_fs(event),
            a matches Action::Requeue(e) ==> e.replica_id == event.replica_id,
            event.req is File ==> a == old(self).file_system().answer(event)
                && final(self).file_system() == old(self).file_system().after_serve(event),
    {
        match event.req {
            Request::Start => Action::Run(Response::Start),
            Request::File(_) => self.file_system.serve(event),
            Request::Shutdown => Action::Remove,
        }
    }
}

} // verus!
