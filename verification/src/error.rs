//! Common error handling types and utilities.

use vstd::prelude::*;

verus! {

/// Represents size of DCA file entries and also byte position inside them.
pub type FilePosition = u64;

/// Model of the I/O failure classes that collaborators may report.
///
/// The archive core itself never performs I/O; these values are produced by
/// content handlers (for example a filesystem-backed one) and carried through
/// the error taxonomy unchanged.
#[derive(Clone, Copy, Debug, PartialEq, Eq, Structural)]
pub enum IoErrorKind {
    NotFound,
    PermissionDenied,
    UnexpectedEof,
    InvalidInput,
    Other,
}

/// Lists the sections of the DCA file format where problems during
/// extraction can occur.
#[derive(Clone, Copy, Debug, PartialEq, Eq, Structural)]
pub enum DecompressionError {
    Header,
    FileName,
    FileSize,
    Payload,
    Footer,
}

/// Errors concerning an invalid filename for a DCA entry.
#[derive(Clone, Copy, Debug, PartialEq, Eq, Structural)]
pub enum DcaFilenameError {
    /// Name not representable as text.
    NotUnicode,
    /// Unsupported character detected at a certain character position.
    InvalidChar(char, usize),
}

/// Central error type for (de)compressing DCA archives.
#[derive(Debug)]
pub enum ArchiveError {
    /// A failed I/O operation directly on the archive stream.
    ArchiveIo(IoErrorKind),
    /// A structural violation detected while decompressing.
    CorruptedArchive { position: FilePosition, section: DecompressionError },
    /// A file within the archive contents fails for I/O reasons.
    BadFileIo(Vec<u8>, IoErrorKind),
    /// A filename of archive contents does not conform to the requirements.
    InvalidDcaFilename(Vec<u8>, DcaFilenameError),
}

/// Mathematical model of [`ArchiveError`], with names as byte sequences.
pub ghost enum ArchiveErrorS {
    ArchiveIo(IoErrorKind),
    CorruptedArchive { position: FilePosition, section: DecompressionError },
    BadFileIo(Seq<u8>, IoErrorKind),
    InvalidDcaFilename(Seq<u8>, DcaFilenameError),
}

impl View for ArchiveError {
    type V = ArchiveErrorS;

    open spec fn view(&self) -> ArchiveErrorS {
        match self {
            ArchiveError::ArchiveIo(k) => ArchiveErrorS::ArchiveIo(*k),
            ArchiveError::CorruptedArchive { position, section } => {
                ArchiveErrorS::CorruptedArchive { position: *position, section: *section }
            },
            ArchiveError::BadFileIo(name, k) => ArchiveErrorS::BadFileIo(name@, *k),
            ArchiveError::InvalidDcaFilename(name, e) => {
                ArchiveErrorS::InvalidDcaFilename(name@, *e)
            },
        }
    }
}

/// The error-policy collaborator: consulted on recoverable faults, it decides
/// whether the operation continues ("resume", by returning success) or stops
/// ("abort", by returning a fault, possibly translated).
///
/// The two specification functions are each implementation's published
/// decision rule; `on_err` must follow them.
pub trait Handler: Sized {
    /// Which faults this policy resumes over.  A policy that does not
    /// publish a decision rule resumes nothing.
    open spec fn resumes(&self, err: ArchiveErrorS) -> bool {
        false
    }

    /// The fault reported on abort, given the fault that was offered.
    open spec fn translate(&self, err: ArchiveErrorS) -> ArchiveErrorS {
        err
    }

    /// Processes an error that may, but need not, fail the whole operation.
    fn on_err(&self, err: ArchiveError) -> (r: Result<(), ArchiveError>)
        ensures
            r is Ok <==> self.resumes(err@),
            r matches Err(e) ==> e@ == self.translate(err@),
    ;
}

/// A byte that can never occur inside the name line of a DCA entry:
/// the line feed that delimits the line, and the path separator.
pub open spec fn forbidden_byte(b: u8) -> bool {
    b == 10 || b == 47
}

/// A name is valid for the flat text framing when no byte of it is forbidden.
pub open spec fn valid_name(name: Seq<u8>) -> bool {
    forall|i: int| 0 <= i < name.len() ==> !forbidden_byte(name[i])
}

/// Index of the first forbidden byte of `name`, or `name.len()` if none.
pub open spec fn first_forbidden(name: Seq<u8>) -> int
    decreases name.len(),
{
    if name.len() == 0 {
        0
    } else if forbidden_byte(name[0]) {
        0
    } else {
        1 + first_forbidden(name.drop_first())
    }
}

/// Number of UTF-8 character starts among the first `i` bytes of `name`.
/// For valid UTF-8 this is the character index of the byte at position `i`.
pub open spec fn char_count(name: Seq<u8>, i: int) -> int
    decreases i,
{
    if i <= 0 {
        0
    } else {
        char_count(name, i - 1) + if is_char_start(name[i - 1]) { 1int } else { 0int }
    }
}

/// A byte that starts a UTF-8 encoded character (not a continuation byte).
pub open spec fn is_char_start(b: u8) -> bool {
    b < 128 || b >= 192
}

/// The forbidden bytes as characters, for fault reporting.
pub open spec fn forbidden_char(b: u8) -> char {
    if b == 10 {
        '\n'
    } else {
        '/'
    }
}

proof fn lemma_first_forbidden_bounds(name: Seq<u8>)
    ensures
        0 <= first_forbidden(name) <= name.len(),
        valid_name(name) <==> first_forbidden(name) == name.len(),
        first_forbidden(name) < name.len() ==> forbidden_byte(name[first_forbidden(name)]),
        forall|j: int| 0 <= j < first_forbidden(name) ==> !forbidden_byte(name[j]),
    decreases name.len(),
{
    if name.len() == 0 {
    } else if forbidden_byte(name[0]) {
    } else {
        lemma_first_forbidden_bounds(name.drop_first());
        assert forall|j: int| 0 <= j < first_forbidden(name) implies !forbidden_byte(name[j]) by {
            if j > 0 {
                assert(name.drop_first()[j - 1] == name[j]);
            }
        }
        if first_forbidden(name) < name.len() {
            assert(name.drop_first()[first_forbidden(name) - 1] == name[first_forbidden(name)]);
        }
        if first_forbidden(name) == name.len() {
            assert forall|i: int| 0 <= i < name.len() implies !forbidden_byte(name[i]) by {
                if i > 0 {
                    assert(name.drop_first()[i - 1] == name[i]);
                }
            }
        } else {
            assert(!valid_name(name));
        }
    }
}

/// Checks that a candidate entry name fits the flat text framing: it must
/// contain neither a line feed nor a path separator.  On failure the fault
/// cites the first offending character and its character position.
pub fn into_dca_filename(name: &Vec<u8>) -> (r: Result<(), DcaFilenameError>)
    ensures
        r is Ok <==> valid_name(name@),
        !valid_name(name@) ==> r == Err::<(), DcaFilenameError>(
            DcaFilenameError::InvalidChar(
                forbidden_char(name@[first_forbidden(name@)]),
                char_count(name@, first_forbidden(name@)) as usize,
            ),
        ),
{
    proof {
        lemma_first_forbidden_bounds(name@);
    }
    let mut i: usize = 0;
    let mut chars: usize = 0;
    while i < name.len()
        invariant
            0 <= i <= name.len(),
            chars <= i,
            chars == char_count(name@, i as int),
            forall|j: int| 0 <= j < i ==> !forbidden_byte(name@[j]),
            first_forbidden(name@) >= i,
            valid_name(name@) <==> first_forbidden(name@) == name@.len(),
            first_forbidden(name@) < name@.len() ==> forbidden_byte(
                name@[first_forbidden(name@)],
            ),
            forall|j: int| 0 <= j < first_forbidden(name@) ==> !forbidden_byte(name@[j]),
        decreases name.len() - i,
    {
        let b = name[i];
        if b == 10 || b == 47 {
            proof {
                assert(first_forbidden(name@) == i as int);
            }
            let c: char = if b == 10 {
                '\n'
            } else {
                '/'
            };
            return Err(DcaFilenameError::InvalidChar(c, chars));
        }
        if b < 128 || b >= 192 {
            chars = chars + 1;
        }
        i = i + 1;
    }
    Ok(())
}

} // verus!
