//! The file system that a replica sees inside the simulation: every operation
//! becomes a request to the runtime, and the runtime's response becomes the
//! operation's result. Each operation has two halves here: the request it
//! sends, and how it reads the response. The runtime must answer with a
//! response of the operation's kind; one of another kind breaks the protocol,
//! which the caller reports before reading it.
use crate::abstraction::file_system::OpenMode;
use crate::simulation::runtime::replica::handles::file_system::{Fd, FileOp, FileResult, SeekFrom};
use crate::simulation::runtime::replica::handles::{Request, Response};
use vstd::prelude::*;

verus! {

pub struct FileSystem {}

impl FileSystem {
    /// The request that opens `path`.
    pub fn open_request(&self, path: &str, mode: OpenMode) -> (r: Request)
        ensures
            r matches Request::File(FileOp::Open { path: p, mode: m }) && p@ == path@ && m == mode,
    {
        Request::File(FileOp::Open { path: path.to_owned(), mode })
    }

    /// Reads the response to an open: a descriptor becomes a file, an error
    /// is handed on as it came.
    pub fn open_result(&self, resp: Response) -> (r: Result<File, std::io::Error>)
        requires
            resp matches Response::File(FileResult::Open(_)),
        ensures
            resp matches Response::File(FileResult::Open(Ok(fd))) ==> (r matches Ok(f) && f.fd() == fd),
            resp matches Response::File(FileResult::Open(Err(e))) ==> r == Err::<File, std::io::Error>(e),
    {
        match resp {
            Response::File(FileResult::Open(res)) => match res {
                Ok(fd) => Ok(File::new(fd)),
                Err(err) => Err(err),
            },
            _ => {
                assert(false);
                Ok(File::new(0))
            },
        }
    }

    /// The request that deletes `path`.
    pub fn delete_request(&self, path: &str) -> (r: Request)
        ensures
            r matches Request::File(FileOp::Delete { path: p }) && p@ == path@,
    {
        Request::File(FileOp::Delete { path: path.to_owned() })
    }

    /// Reads the response to a delete.
    pub fn delete_result(&self, resp: Response) -> (r: Result<(), std::io::Error>)
        requires
            resp matches Response::File(FileResult::Delete(_)),
        ensures
            resp == Response::File(FileResult::Delete(r)),
    {
        match resp {
            Response::File(FileResult::Delete(res)) => res,
            _ => {
                assert(false);
                Ok(())
            },
        }
    }
}

/// An open file, known by its descriptor.
#[derive(Debug)]
pub struct File {
    fd: Fd,
}

impl File {
    pub fn new(fd: Fd) -> (f: Self)
        ensures
            f.fd() == fd,
    {
        Self { fd }
    }

    pub closed spec fn fd(&self) -> Fd {
        self.fd
    }

    /// The descriptor of the file.
    pub fn descriptor(&self) -> (fd: Fd)
        ensures
            fd == self.fd(),
    {
        self.fd
    }

    /// The request that closes the file.
    pub fn close_request(&self) -> (r: Request)
        ensures
            r == Request::File(FileOp::Close { fd: self.fd() }),
    {
        Request::File(FileOp::Close { fd: self.fd })
    }

    /// Reads the response to a close.
    pub fn close_result(resp: Response) -> (r: Result<(), std::io::Error>)
        requires
            resp matches Response::File(FileResult::Close(_)),
        ensures
            resp == Response::File(FileResult::Close(r)),
    {
        match resp {
            Response::File(FileResult::Close(res)) => res,
            _ => {
                assert(false);
                Ok(())
            },
        }
    }

    /// The request that reads up to `len` bytes.
    pub fn read_request(&self, len: usize) -> (r: Request)
        ensures
            r == Request::File(FileOp::Read { fd: self.fd(), len }),
    {
        Request::File(FileOp::Read { fd: self.fd, len })
    }

    /// Reads the response to a read: the bytes that came go to the front of
    /// `buf`, the rest of `buf` stays as it was, and their number is returned.
    /// No more bytes may come than `buf` holds. On an error nothing is copied.
    pub fn read_result(resp: Response, buf: &mut [u8]) -> (r: Result<usize, std::io::Error>)
        requires
            resp matches Response::File(FileResult::Read(_)),
            resp matches Response::File(FileResult::Read(Ok(v))) ==> v@.len() <= old(buf)@.len(),
        ensures
            resp matches Response::File(FileResult::Read(Ok(v))) ==> {
                &&& r == Ok::<usize, std::io::Error>(v@.len() as usize)
                &&& final(buf)@ == v@ + old(buf)@.skip(v@.len() as int)
            },
            resp matches Response::File(FileResult::Read(Err(e))) ==> {
                &&& r == Err::<usize, std::io::Error>(e)
                &&& final(buf)@ == old(buf)@
            },
    {
        match resp {
            Response::File(FileResult::Read(res)) => match res {
                Ok(value) => {
                    let n = value.len();
                    let mut i: usize = 0;
                    while i < n
                        invariant
                            i <= n,
                            n == value@.len(),
                            n <= old(buf)@.len(),
                            buf@.len() == old(buf)@.len(),
                            forall|j: int| 0 <= j < i ==> buf@[j] == value@[j],
                            forall|j: int| i <= j < buf@.len() ==> buf@[j] == old(buf)@[j],
                        decreases n - i,
                    {
                        buf[i] = value[i];
                        i = i + 1;
                    }
                    proof {
                        assert(buf@ =~= value@ + old(buf)@.skip(n as int));
                    }
                    Ok(n)
                },
                Err(err) => Err(err),
            },
            _ => {
                assert(false);
                Ok(0)
            },
        }
    }

    /// The request that writes `buf`.
    pub fn write_request(&self, buf: &[u8]) -> (r: Request)
        ensures
            r matches Request::File(FileOp::Write { fd, data }) && fd == self.fd() && data@ == buf@,
    {
        Request::File(FileOp::Write { fd: self.fd, data: vstd::slice::slice_to_vec(buf) })
    }

    /// Reads the response to a write.
    pub fn write_result(resp: Response) -> (r: Result<usize, std::io::Error>)
        requires
            resp matches Response::File(FileResult::Write(_)),
        ensures
            resp == Response::File(FileResult::Write(r)),
    {
        match resp {
            Response::File(FileResult::Write(res)) => res,
            _ => {
                assert(false);
                Ok(0)
            },
        }
    }

    /// The request that moves the file position.
    pub fn lseek_request(&self, pos: SeekFrom) -> (r: Request)
        ensures
            r == Request::File(FileOp::Seek { fd: self.fd(), pos }),
    {
        Request::File(FileOp::Seek { fd: self.fd, pos })
    }

    /// Reads the response to a seek.
    pub fn lseek_result(resp: Response) -> (r: Result<u64, std::io::Error>)
        requires
            resp matches Response::File(FileResult::Seek(_)),
        ensures
            resp == Response::File(FileResult::Seek(r)),
    {
        match resp {
            Response::File(FileResult::Seek(res)) => res,
            _ => {
                assert(false);
                Ok(0)
            },
        }
    }
}

} // verus!
