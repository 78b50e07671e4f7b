use dca::compress::{compress_into, DefaultErrorHandler, DefaultFileHandler, FileDescriptor, FileHandler};
use dca::error::{ArchiveError, DcaFilenameError, IoErrorKind};

fn std_errors() -> DefaultErrorHandler<'static> {
    DefaultErrorHandler::new("test-archive.dca")
}

fn files(entries: &[(&[u8], &[u8])]) -> DefaultFileHandler {
    DefaultFileHandler::new(
        entries.iter().map(|(n, c)| (n.to_vec(), c.to_vec())).collect(),
    )
}

#[test]
fn compress_test_empty() {
    let mut out = Vec::<u8>::new();
    compress_into(&mut out, &mut files(&[]), &std_errors()).expect("Failed to compress file");

    assert_eq!(out, b"DCA\n");
}

#[test]
fn test_single_file() {
    let mut out = Vec::<u8>::new();
    compress_into(
        &mut out,
        &mut files(&[(b"test", b"Hello world!")]),
        &std_errors(),
    )
    .expect("Failed to compress file");

    assert_eq!(out, b"DCA\ntest\n12\nHello world!\n");
}

#[test]
fn test_many_files() {
    let large = vec![0xDEu8; 10 * 1024 * 1024];
    let mut out = Vec::<u8>::new();
    compress_into(
        &mut out,
        &mut files(&[
            (b"empty", b""),
            (b"large", &large),
            (b"binary", b"\x00\xFF314\x10\x10"),
            (b"text", b"dumb\ncat\narchive\n"),
        ]),
        &std_errors(),
    )
    .expect("Failed to compress file");

    let contents = [b"DCA\n" as &[u8],
        b"empty\n0\n\n",
        b"large\n", (10 * 1024 * 1024i32).to_string().as_bytes(), b"\n", &large, b"\n",
        b"binary\n7\n\x00\xFF314\x10\x10\n",
        b"text\n17\ndumb\ncat\narchive\n\n",
    ].concat().to_vec();

    assert_eq!(out, contents);
}

/// A content source whose single entry cannot be opened.
struct MissingFileSource {
    given: bool,
}

impl FileHandler for MissingFileSource {
    fn next_file(&mut self) -> Result<Option<FileDescriptor>, ArchiveError> {
        if self.given {
            Ok(None)
        } else {
            self.given = true;
            Err(ArchiveError::BadFileIo(b"nonexisting".to_vec(), IoErrorKind::NotFound))
        }
    }
}

#[test]
fn compress_test_errors() {
    {
        let mut out = Vec::<u8>::new();
        let bad = compress_into(
            &mut out,
            &mut MissingFileSource { given: false },
            &std_errors(),
        )
        .unwrap_err();
        match bad {
            ArchiveError::BadFileIo(path, io_err) if path == b"nonexisting" => {
                assert!(io_err == IoErrorKind::NotFound);
            }
            e => panic!("Unexpected error {:?}", e),
        }
    }
    {
        let mut out = Vec::<u8>::new();
        // This name should be invalid (regardless if a file of such name can
        // exist on some filesystem)
        let bad = compress_into(
            &mut out,
            &mut files(&[(b"\n\x01\x00", b"")]),
            &std_errors(),
        )
        .unwrap_err();
        match bad {
            ArchiveError::InvalidDcaFilename(_, DcaFilenameError::InvalidChar('\n', 0)) => (),
            e => panic!("Unexpected error {:?}", e),
        }
    }
}

/// An error policy that resumes over the missing `nonexistent` entry.
struct CustHandler;

impl dca::error::Handler for CustHandler {
    fn on_err(&self, err: ArchiveError) -> Result<(), ArchiveError> {
        match err {
            ArchiveError::BadFileIo(path, io_err)
                if path == b"nonexistent" && io_err == IoErrorKind::NotFound =>
            {
                Ok(())
            }
            e => panic!("Unexpected handleable error {:?}", e),
        }
    }
}

/// A content source that produces `file`, then fails on `nonexistent`.
struct OneGoodOneBad {
    step: usize,
}

impl FileHandler for OneGoodOneBad {
    fn next_file(&mut self) -> Result<Option<FileDescriptor>, ArchiveError> {
        self.step += 1;
        match self.step {
            1 => Ok(Some(FileDescriptor {
                path: b"file".to_vec(),
                payload: b"data".to_vec(),
                len: 4,
            })),
            2 => Err(ArchiveError::BadFileIo(b"nonexistent".to_vec(), IoErrorKind::NotFound)),
            _ => Ok(None),
        }
    }
}

#[test]
fn compress_test_err_handler() {
    let mut out = Vec::<u8>::new();
    compress_into(&mut out, &mut OneGoodOneBad { step: 0 }, &CustHandler).unwrap();

    assert_eq!(out, b"DCA\nfile\n4\ndata\n");
}

#[test]
fn compress_on_fatal_messages() {
    let handler = DefaultErrorHandler::new("out.dca");
    assert_eq!(
        handler.on_fatal(&ArchiveError::ArchiveIo(IoErrorKind::Other)),
        "failed to write into archive out.dca"
    );
    assert_eq!(
        handler.on_fatal(&ArchiveError::BadFileIo(b"f".to_vec(), IoErrorKind::NotFound)),
        "cannot add a file into archive out.dca"
    );
    assert_eq!(
        handler.on_fatal(&ArchiveError::InvalidDcaFilename(
            b"a\nb".to_vec(),
            DcaFilenameError::InvalidChar('\n', 1),
        )),
        "a file does not have a legal filename for archive out.dca"
    );
}

#[test]
fn compress_test_file_handler() {
    // For content just returns filenames
    let mut out = Vec::<u8>::new();
    compress_into(
        &mut out,
        &mut files(&[(b"foo", b"foo"), (b"bar", b"bar")]),
        &std_errors(),
    )
    .unwrap();

    assert_eq!(out, b"DCA\nfoo\n3\nfoo\nbar\n3\nbar\n");
}
