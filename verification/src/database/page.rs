//! Pages: fixed-size blocks of a file, as held in memory.
use crate::database::file::FILE_NAME_MAX;
use vstd::prelude::*;

verus! {

pub const PAGE_SIZE: usize = 8000;

pub const MAX_CACHES: usize = 100;

pub const MAX_OPENED_FILES: usize = 100;

/// A page in memory: its bytes, the file it belongs to, and where that file
/// stands among the opened files.
pub struct Page {
    buffer: [u8; PAGE_SIZE],
    file_name: [u8; FILE_NAME_MAX],
    index_in_opened_files: usize,
}

} // verus!
