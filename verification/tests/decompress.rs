use dca::decompress::{
    decompress_from, DefaultErrorHandler, DefaultFileHandler, FileDescriptor, FileHandler,
};
use dca::error::{ArchiveError, DecompressionError, IoErrorKind};

fn std_errors() -> DefaultErrorHandler<'static> {
    DefaultErrorHandler::new("test-archive.dca")
}

#[test]
fn decompress_test_empty() {
    let contents = b"DCA\n".to_vec();
    let mut files = DefaultFileHandler::new();
    decompress_from(&contents, &mut files, &DefaultErrorHandler::new("")).unwrap();

    assert_eq!(files.files().len(), 0);
}

#[test]
fn test_single() {
    let contents = b"DCA\nhello\n5\nworld\n".to_vec();
    let mut files = DefaultFileHandler::new();
    decompress_from(&contents, &mut files, &std_errors()).unwrap();

    assert_eq!(files.files().len(), 1);
    assert_eq!(files.files()[0].0, b"hello");
    assert_eq!(files.files()[0].1, b"world");
}

#[test]
fn test_multiple() {
    let contents = b"DCA\nbinary\n6\n\x00\xFF\x80123\ntext\n6\n\ndca\n\n\nempty\n0\n\n".to_vec();
    let mut files = DefaultFileHandler::new();
    decompress_from(&contents, &mut files, &std_errors()).unwrap();

    assert_eq!(files.files().len(), 3);
    assert_eq!(files.files()[0].0, b"binary");
    assert_eq!(files.files()[0].1, b"\x00\xFF\x80123");
    assert_eq!(files.files()[1].0, b"text");
    assert_eq!(files.files()[1].1, b"\ndca\n\n");
    assert_eq!(files.files()[2].0, b"empty");
    assert_eq!(files.files()[2].1, b"");
}

#[test]
fn decompress_test_errors() {
    let handler = &DefaultErrorHandler::new("bad");

    let contents = b"".to_vec();
    let mut files = DefaultFileHandler::new();
    let err = decompress_from(&contents, &mut files, handler).unwrap_err();
    match err {
        ArchiveError::ArchiveIo(io_err) if io_err == IoErrorKind::UnexpectedEof => (),
        e => panic!("Unexpected error type {:?}", e),
    }

    let contents = b"DCAv2\nfoo\n3\nbar\n".to_vec();
    let mut files = DefaultFileHandler::new();
    let err = decompress_from(&contents, &mut files, handler).unwrap_err();
    match err {
        ArchiveError::CorruptedArchive {
            position,
            section: DecompressionError::Header,
        } => assert!((0..=4).contains(&position)),
        e => panic!("Unexpected error type {:?}", e),
    }

    let contents = b"DCA\nfoo\n1000\nbar".to_vec();
    let mut files = DefaultFileHandler::new();
    let err = decompress_from(&contents, &mut files, handler).unwrap_err();
    match err {
        ArchiveError::CorruptedArchive {
            position: 16,
            section: DecompressionError::Payload,
        } => (),
        e => panic!("Unexpected error type {:?}", e),
    }

    let contents = b"DCA\nfoo\n3\nbar".to_vec();
    let mut files = DefaultFileHandler::new();
    let err = decompress_from(&contents, &mut files, handler).unwrap_err();
    match err {
        ArchiveError::ArchiveIo(io_err) if io_err == IoErrorKind::UnexpectedEof => (),
        e => panic!("Unexpected error type {:?}", e),
    }
}

/// A content sink whose destination for the entry named `bad` is not
/// writable; everything else lands in memory.
struct PickyDirectory {
    written: Vec<(Vec<u8>, Vec<u8>)>,
}

impl FileHandler for PickyDirectory {
    fn on_file(&mut self, file: FileDescriptor) -> Result<(), ArchiveError> {
        if file.name == b"bad" {
            return Err(ArchiveError::BadFileIo(file.name, IoErrorKind::PermissionDenied));
        }
        if (file.payload.len() as u64) < file.len {
            return Err(ArchiveError::ArchiveIo(IoErrorKind::UnexpectedEof));
        }
        self.written.push((file.name, file.payload));
        Ok(())
    }
}

/// An error policy that resumes over any per-entry content fault.
struct LaxHandler;

impl dca::error::Handler for LaxHandler {
    fn on_err(&self, err: ArchiveError) -> Result<(), ArchiveError> {
        if let ArchiveError::BadFileIo(_, _) = err {
            Ok(())
        } else {
            Err(err)
        }
    }
}

#[test]
fn decompress_test_err_handler() {
    let contents = b"DCA\nfoo\n3\n123\n\
            bad\n3\n456\n\
            bar\n3\n789\n"
        .to_vec();
    let mut files = PickyDirectory { written: Vec::new() };
    decompress_from(&contents, &mut files, &LaxHandler).unwrap();

    assert_eq!(files.written.len(), 2);
    assert_eq!(files.written[0].0, b"foo");
    assert_eq!(files.written[0].1, b"123");
    assert_eq!(files.written[1].0, b"bar");
    assert_eq!(files.written[1].1, b"789");
    for (name, _) in &files.written {
        assert_ne!(name.as_slice(), b"bad" as &[u8]);
    }
}

/// A content sink that keeps each entry as a pair of owned strings.
#[derive(Default, Debug)]
struct VecFiles(Vec<(String, String)>);

impl FileHandler for VecFiles {
    fn on_file(&mut self, file: FileDescriptor) -> Result<(), ArchiveError> {
        self.0.push((
            String::from_utf8(file.name).unwrap(),
            String::from_utf8(file.payload).unwrap(),
        ));
        Ok(())
    }
}

#[test]
fn decompress_test_file_handler() {
    let contents = b"DCA\n\
            first\n3\n123\n\
            second\n5\nhello\n"
        .to_vec();
    let mut files = VecFiles::default();
    decompress_from(&contents, &mut files, &std_errors()).unwrap();

    let results = vec![("first", "123"), ("second", "hello")];
    assert_eq!(files.0.len(), results.len());
    for ((a, b), (c, d)) in files.0.iter().zip(results.into_iter()) {
        assert_eq!(a, c);
        assert_eq!(b, d);
    }
}

#[test]
fn decompress_on_fatal_messages() {
    let handler = DefaultErrorHandler::new("in.dca");
    assert_eq!(
        handler.on_fatal(&ArchiveError::ArchiveIo(IoErrorKind::UnexpectedEof)),
        "failed to read from archive in.dca"
    );
    assert_eq!(
        handler.on_fatal(&ArchiveError::CorruptedArchive {
            position: 16,
            section: DecompressionError::Payload,
        }),
        "unexpected state while parsing a section of archive in.dca"
    );
}

#[test]
fn decompress_notes_archive() {
    let contents =
        b"DCA\nnotes.txt\n8\nmy\nnotes\ndump.bin\n5\n\x12\x34\x56\0\0\nempty\n0\n\n".to_vec();
    let mut files = DefaultFileHandler::new();
    decompress_from(&contents, &mut files, &std_errors()).unwrap();

    assert_eq!(files.files().len(), 3);
    assert_eq!(files.files()[0].0, b"notes.txt");
    assert_eq!(files.files()[0].1, b"my\nnotes");
    assert_eq!(files.files()[1].0, b"dump.bin");
    assert_eq!(files.files()[1].1, b"\x12\x34\x56\0\0");
    assert_eq!(files.files()[2].0, b"empty");
    assert_eq!(files.files()[2].1, b"");
}

#[test]
fn decompress_size_fault() {
    let contents = b"DCA\nfoo\nxyz\nbar\n".to_vec();
    let mut files = DefaultFileHandler::new();
    let err = decompress_from(&contents, &mut files, &std_errors()).unwrap_err();
    match err {
        ArchiveError::CorruptedArchive {
            position: 8,
            section: DecompressionError::FileSize,
        } => (),
        e => panic!("Unexpected error type {:?}", e),
    }
}

#[test]
fn decompress_missing_size_line() {
    let contents = b"DCA\nfoo\n".to_vec();
    let mut files = DefaultFileHandler::new();
    let err = decompress_from(&contents, &mut files, &std_errors()).unwrap_err();
    match err {
        ArchiveError::CorruptedArchive {
            position: 8,
            section: DecompressionError::FileSize,
        } => (),
        e => panic!("Unexpected error type {:?}", e),
    }
}

#[test]
fn decompress_footer_fault() {
    let contents = b"DCA\nfoo\n3\nbarXtail".to_vec();
    let mut files = DefaultFileHandler::new();
    let err = decompress_from(&contents, &mut files, &std_errors()).unwrap_err();
    match err {
        ArchiveError::CorruptedArchive {
            position: 13,
            section: DecompressionError::Footer,
        } => (),
        e => panic!("Unexpected error type {:?}", e),
    }
}

#[test]
fn decompress_size_overflow() {
    // A size too large for 64 bits is corruption of the file-size section.
    let contents = b"DCA\nfoo\n99999999999999999999999\nbar\n".to_vec();
    let mut files = DefaultFileHandler::new();
    let err = decompress_from(&contents, &mut files, &std_errors()).unwrap_err();
    match err {
        ArchiveError::CorruptedArchive {
            position: 8,
            section: DecompressionError::FileSize,
        } => (),
        e => panic!("Unexpected error type {:?}", e),
    }
}

#[test]
fn decompress_size_with_plus_sign() {
    // Rust's numeral grammar admits a leading plus sign.
    let contents = b"DCA\nfoo\n+3\nbar\n".to_vec();
    let mut files = DefaultFileHandler::new();
    decompress_from(&contents, &mut files, &std_errors()).unwrap();
    assert_eq!(files.files().len(), 1);
    assert_eq!(files.files()[0].1, b"bar");
}
