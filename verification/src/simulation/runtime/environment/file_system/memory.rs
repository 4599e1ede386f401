//! An in-memory file system backend.
use crate::simulation::runtime::environment::Action;
use crate::simulation::runtime::replica::handles::file_system::FileResult;
use crate::simulation::runtime::replica::handles::Response;
use crate::simulation::runtime::Event;
use vstd::prelude::*;

verus! {

/// How a file is opened.
#[derive(Debug, PartialEq, Eq, Clone, Copy)]
pub enum OpenMode {
    Read,
    Write,
}

pub struct FileSystem {}

impl super::FileSystem for FileSystem {
    /// Every request is answered as a successful open of descriptor 42.
    open spec fn answer(&self, event: Event) -> Action {
        Action::Run(Response::File(FileResult::Open(Ok(42))))
    }

    /// The backend keeps no state.
    open spec fn after_serve(&self, event: Event) -> Self {
        *self
    }

    fn serve(&mut self, event: Event) -> (a: Action)
        ensures
            a == Action::Run(Response::File(FileResult::Open(Ok(42)))),
    {
        Action::Run(Response::File(FileResult::Open(Ok(42))))
    }
}

} // verus!
