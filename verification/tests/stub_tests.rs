use std::io;

use dfs::abstraction::file_system::stub::{File, FileSystem};
use dfs::abstraction::file_system::OpenMode;
use dfs::simulation::runtime::replica::handles::file_system::{FileOp, FileResult, SeekFrom};
use dfs::simulation::runtime::replica::handles::{Request, Response};

#[test]
fn open() {
    let fs = FileSystem {};

    // Make Request
    let req = fs.open_request("test", OpenMode::Read);
    assert_eq!(
        req,
        Request::File(FileOp::Open {
            path: String::from("test"),
            mode: OpenMode::Read
        })
    );
    // Answer it
    let file = fs.open_result(Response::File(FileResult::Open(Ok(0))));
    let file = file.unwrap();
    assert_eq!(file.descriptor(), 0);
}

#[test]
fn open_error() {
    let fs = FileSystem {};

    let req = fs.open_request("missing", OpenMode::Read);
    assert_eq!(
        req,
        Request::File(FileOp::Open {
            path: String::from("missing"),
            mode: OpenMode::Read,
        })
    );
    let file = fs.open_result(Response::File(FileResult::Open(Err(io::Error::from(
        io::ErrorKind::NotFound,
    )))));
    let err = file.unwrap_err();
    assert_eq!(err.kind(), io::ErrorKind::NotFound);
}

#[test]
fn delete() {
    let fs = FileSystem {};

    let req = fs.delete_request("test");
    assert_eq!(
        req,
        Request::File(FileOp::Delete {
            path: String::from("test"),
        })
    );
    let res = fs.delete_result(Response::File(FileResult::Delete(Ok(()))));
    assert!(res.is_ok());
}

#[test]
fn read() {
    let file = File::new(0);
    let mut buf = [0u8; 4];

    let req = file.read_request(buf.len());
    assert_eq!(req, Request::File(FileOp::Read { fd: 0, len: 4 }));
    let n = File::read_result(
        Response::File(FileResult::Read(Ok(vec![1, 2, 3, 4]))),
        &mut buf,
    )
    .unwrap();
    assert_eq!(n, 4);
    assert_eq!(&buf, &[1, 2, 3, 4]);
}

#[test]
fn read_partial() {
    // Runtime returns fewer bytes than the buffer can hold.
    let file = File::new(0);
    let mut buf = [0u8; 8];

    let req = file.read_request(buf.len());
    assert_eq!(req, Request::File(FileOp::Read { fd: 0, len: 8 }));
    let n = File::read_result(Response::File(FileResult::Read(Ok(vec![9, 9]))), &mut buf).unwrap();
    assert_eq!(n, 2);
    assert_eq!(&buf[..2], &[9, 9]);
    assert_eq!(&buf[2..], &[0; 6]); // tail left untouched
}

#[test]
fn read_error() {
    let file = File::new(7);
    let mut buf = [0u8; 8];

    let req = file.read_request(buf.len());
    assert_eq!(req, Request::File(FileOp::Read { fd: 7, len: 8 }));
    let res = File::read_result(
        Response::File(FileResult::Read(Err(io::Error::from(
            io::ErrorKind::UnexpectedEof,
        )))),
        &mut buf,
    );
    assert_eq!(res.unwrap_err().kind(), io::ErrorKind::UnexpectedEof);
    assert_eq!(&buf, &[0; 8]); // nothing copied on error
}

#[test]
fn write() {
    let file = File::new(0);

    let req = file.write_request(&[1, 2, 3]);
    assert_eq!(
        req,
        Request::File(FileOp::Write {
            fd: 0,
            data: vec![1, 2, 3],
        })
    );
    let n = File::write_result(Response::File(FileResult::Write(Ok(3)))).unwrap();
    assert_eq!(n, 3);
}

#[test]
fn lseek() {
    let file = File::new(0);

    let req = file.lseek_request(SeekFrom::Start(128));
    assert_eq!(
        req,
        Request::File(FileOp::Seek {
            fd: 0,
            pos: SeekFrom::Start(128),
        })
    );
    let pos = File::lseek_result(Response::File(FileResult::Seek(Ok(128)))).unwrap();
    assert_eq!(pos, 128);
}

#[test]
fn close() {
    let file = File::new(0);

    let req = file.close_request();
    assert_eq!(req, Request::File(FileOp::Close { fd: 0 }));
    let res = File::close_result(Response::File(FileResult::Close(Ok(()))));
    assert!(res.is_ok());
}
