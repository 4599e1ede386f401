//! What a replica program runs against.
use vstd::prelude::*;

verus! {

pub struct Environment<FS> {
    pub file_system: FS,
}

impl<FS> Environment<FS> {
    pub fn new(file_system: FS) -> (env: Self)
        ensures
            env.file_system == file_system,
    {
        Self { file_system }
    }
}

} // verus!
