use dca::error::DcaFilenameError;
use dca::into_dca_filename;

#[test]
fn test_dca_filename() {
    assert!(into_dca_filename(&b"hello".to_vec()).is_ok());
    assert_eq!(
        into_dca_filename(&b"foo/bar".to_vec()).unwrap_err(),
        DcaFilenameError::InvalidChar('/', 3)
    );
    assert_eq!(
        into_dca_filename(&b"a\n".to_vec()).unwrap_err(),
        DcaFilenameError::InvalidChar('\n', 1)
    );
}

#[test]
fn test_dca_filename_multibyte() {
    // The reported index counts characters, not bytes: the separator after
    // a two-byte character sits at byte 2 but character 1.
    let name = "\u{e9}/x".as_bytes().to_vec();
    assert_eq!(
        into_dca_filename(&name).unwrap_err(),
        DcaFilenameError::InvalidChar('/', 1)
    );
}

#[test]
fn test_dca_filename_name_rejection_example() {
    // An entry named "a\nb" is rejected citing the line feed at index 1.
    assert_eq!(
        into_dca_filename(&b"a\nb".to_vec()).unwrap_err(),
        DcaFilenameError::InvalidChar('\n', 1)
    );
}

#[test]
fn test_dca_filename_empty() {
    assert!(into_dca_filename(&Vec::new()).is_ok());
}
