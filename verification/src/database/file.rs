//! A database file, read and written a page at a time.
use crate::abstraction::file_system::stub;
use crate::database::page::PAGE_SIZE;
use crate::simulation::runtime::replica::handles::file_system::SeekFrom;
use vstd::prelude::*;

verus! {

pub const FILE_NAME_MAX: usize = 100;

pub struct File {
    inner: stub::File,
    file_name: [u8; FILE_NAME_MAX],
}

impl File {
    /// Where page `index` starts in the file: pages lie one after another.
    pub fn page_position(index: usize) -> (pos: SeekFrom)
        requires
            index * PAGE_SIZE <= usize::MAX,
        ensures
            pos == SeekFrom::Start((index * PAGE_SIZE) as u64),
    {
        SeekFrom::Start((index * PAGE_SIZE) as u64)
    }
}

} // verus!
