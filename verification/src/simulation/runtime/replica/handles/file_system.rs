//! File operations a replica asks for, and their results.
use crate::simulation::runtime::environment::file_system::memory::OpenMode;
use vstd::prelude::*;

verus! {

#[verifier::external_type_specification]
#[verifier::external_body]
pub struct ExIoError(std::io::Error);

pub type Fd = u32;

/// A position in a file to seek to.
#[derive(Debug, PartialEq, Eq, Clone, Copy)]
pub enum SeekFrom {
    Start(u64),
    End(i64),
    Current(i64),
}

#[derive(Debug, PartialEq)]
pub enum FileOp {
    Open { path: String, mode: OpenMode },
    Delete { path: String },
    Read { fd: Fd, len: usize },
    Write { fd: Fd, data: Vec<u8> },
    Seek { fd: Fd, pos: SeekFrom },
    Close { fd: Fd },
}

#[derive(Debug)]
pub enum FileResult {
    Open(Result<Fd, std::io::Error>),
    Delete(Result<(), std::io::Error>),
    Read(Result<Vec<u8>, std::io::Error>),
    Write(Result<usize, std::io::Error>),
    Seek(Result<u64, std::io::Error>),
    Close(Result<(), std::io::Error>),
}

} // verus!
