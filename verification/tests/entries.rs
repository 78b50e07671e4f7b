use dca::archive_entries;
use dca::decompress::DefaultErrorHandler;
use dca::error::{ArchiveError, DecompressionError};

fn std_errors() -> DefaultErrorHandler<'static> {
    DefaultErrorHandler::new("archive.dca")
}

#[test]
fn test_basic() {
    let arch = b"DCA\nhello\n3\n123\nworld\n5\n12345\nempty\n0\n\n".to_vec();
    let names = archive_entries(&arch, &std_errors()).unwrap();
    let expected: Vec<(&[u8], u64)> = vec![(b"hello", 3), (b"world", 5), (b"empty", 0)];
    assert_eq!(names.len(), expected.len());
    for ((name, size), (exp_name, exp_size)) in names.iter().zip(expected.into_iter()) {
        assert_eq!(name.as_slice(), exp_name);
        assert_eq!(*size, exp_size);
    }
}

#[test]
fn entries_corrupt_archive() {
    let arch = b"DCA\nhello\n3\n12".to_vec();
    let err = archive_entries(&arch, &std_errors()).unwrap_err();
    match err {
        ArchiveError::CorruptedArchive {
            position: 14,
            section: DecompressionError::Payload,
        } => (),
        e => panic!("Unexpected error type {:?}", e),
    }
}
