//! The messages a replica and the runtime exchange.
pub mod file_system;

use file_system::{FileOp, FileResult};
use vstd::prelude::*;

verus! {

/// What a replica asks the runtime for.
#[derive(Debug, PartialEq)]
pub enum Request {
    Start,
    File(FileOp),
    Shutdown,
}

/// What the runtime answers a replica.
#[derive(Debug)]
pub enum Response {
    Start,
    File(FileResult),
    Shutdown,
}

} // verus!
