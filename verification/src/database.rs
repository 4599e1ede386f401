//! The storage side of a replica: files of fixed-size pages and a page cache.
pub mod cell;
pub mod file;
pub mod page;
pub mod rep;

use vstd::prelude::*;

verus! {

/// The database program of one replica.
pub struct Replica {}

impl Replica {
    pub fn new() -> (r: Self) {
        Self {}
    }
}

impl Default for Replica {
    fn default() -> (r: Self) {
        Self::new()
    }
}

} // verus!
