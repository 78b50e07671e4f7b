//! Handles extraction from DCA archives.

use vstd::prelude::*;

use crate::error::{ArchiveError, ArchiveErrorS, DecompressionError, FilePosition, Handler, IoErrorKind};
use crate::format::{
    is_subsequence, lemma_find_nl_at, lemma_find_nl_bounds, lemma_subsequence_concat,
    lemma_subsequence_extend, lemma_subsequence_push, line_end, spec_delivered, spec_parse_u64,
    EntryS,
};

verus! {

/// Reads `reference.len()` bytes and reports whether they equal `reference`.
/// Mirrors an exact read: fewer remaining bytes are a stream fault, the
/// bytes are consumed either way, and the tracked position advances only on
/// a confirmed match.
pub fn read_matches(
    reader: &Vec<u8>,
    cursor: &mut usize,
    reference: &Vec<u8>,
    position: &mut u64,
) -> (r: Result<bool, IoErrorKind>)
    requires
        *old(cursor) <= reader@.len(),
        *old(position) + reference@.len() <= u64::MAX,
    ensures
        reader@.len() - *old(cursor) < reference@.len() ==> r
            == Err::<bool, IoErrorKind>(IoErrorKind::UnexpectedEof) && *final(cursor) == *old(
            cursor,
        ) && *final(position) == *old(position),
        reader@.len() - *old(cursor) >= reference@.len() ==> {
            let matched = reader@.subrange(
                *old(cursor) as int,
                *old(cursor) + reference@.len(),
            ) == reference@;
            r == Ok::<bool, IoErrorKind>(matched) && *final(cursor) == *old(cursor)
                + reference@.len() && *final(position) == if matched {
                *old(position) + reference@.len()
            } else {
                *old(position) as int
            }
        },
{
    let n = reference.len();
    if reader.len() - *cursor < n {
        return Err(IoErrorKind::UnexpectedEof);
    }
    let start = *cursor;
    let mut i: usize = 0;
    let mut matched = true;
    while i < n
        invariant
            0 <= i <= n,
            n == reference@.len(),
            start + n <= reader@.len(),
            start + n <= usize::MAX,
            matched <==> (forall|k: int| 0 <= k < i ==> reader@[start + k] == #[trigger] reference@[k]),
        decreases n - i,
    {
        if reader[start + i] != reference[i] {
            matched = false;
        }
        i = i + 1;
    }
    *cursor = start + n;
    if matched {
        *position = *position + n as u64;
    }
    proof {
        if matched {
            assert(reader@.subrange(start as int, start + n) =~= reference@);
        } else {
            let w = choose|k: int|
                0 <= k < n && reader@[start + k] != #[trigger] reference@[k];
            assert(reader@.subrange(start as int, start + n)[w] != reference@[w]);
        }
    }
    Ok(matched)
}

/// Reads bytes up to and including a line feed and hands back the line
/// without its final byte, or `None` when the stream is already exhausted
/// (a clean end of stream, not an error).  The tracked position advances by
/// every byte consumed.
pub fn read_line(reader: &Vec<u8>, cursor: &mut usize, position: &mut u64) -> (r: Option<
    Vec<u8>,
>)
    requires
        *old(cursor) <= reader@.len(),
        *old(position) + reader@.len() - *old(cursor) <= u64::MAX,
    ensures
        r is None <==> *old(cursor) == reader@.len(),
        r is None ==> *final(cursor) == *old(cursor) && *final(position) == *old(position),
        r matches Some(line) ==> {
            let end = line_end(reader@, *old(cursor) as int);
            &&& line@ == reader@.subrange(*old(cursor) as int, end - 1)
            &&& *final(cursor) == end
            &&& *final(position) == *old(position) + (end - *old(cursor))
            &&& *old(cursor) < end <= reader@.len()
        },
{
    let start = *cursor;
    if start == reader.len() {
        return None;
    }
    proof {
        lemma_find_nl_bounds(reader@, start as int);
    }
    let mut j = start;
    while j < reader.len() && reader[j] != 10
        invariant
            start <= j <= reader@.len(),
            forall|k: int| start <= k < j ==> reader@[k] != 10,
        decreases reader@.len() - j,
    {
        j = j + 1;
    }
    let end: usize = if j < reader.len() {
        proof {
            lemma_find_nl_at(reader@, start as int, j - start);
        }
        j + 1
    } else {
        proof {
            if crate::format::find_nl(reader@, start as int) < reader@.len() {
                assert(reader@[crate::format::find_nl(reader@, start as int)] == 10);
            }
        }
        j
    };
    proof {
        assert(end == line_end(reader@, start as int));
    }
    let mut line: Vec<u8> = Vec::new();
    let mut k = start;
    while k < end - 1
        invariant
            start <= k <= end - 1,
            start < end <= reader@.len(),
            line@ =~= reader@.subrange(start as int, k as int),
        decreases end - k,
    {
        line.push(reader[k]);
        k = k + 1;
    }
    proof {
        assert(line@ =~= reader@.subrange(start as int, end - 1));
    }
    *cursor = end;
    *position = *position + (end - start) as u64;
    Some(line)
}

/// Reads the file-size line of an entry.  A missing line or one that does
/// not denote a 64-bit value is structural corruption of the file-size
/// section, reported at the position where the size line begins.
pub fn read_file_size(reader: &Vec<u8>, cursor: &mut usize, position: &mut u64) -> (r: Result<
    FilePosition,
    ArchiveError,
>)
    requires
        *old(cursor) <= reader@.len(),
        *old(position) + reader@.len() - *old(cursor) <= u64::MAX,
    ensures
        *old(cursor) == reader@.len() ==> r == Err::<FilePosition, ArchiveError>(
            ArchiveError::CorruptedArchive {
                position: *old(position),
                section: DecompressionError::FileSize,
            },
        ) && *final(cursor) == *old(cursor) && *final(position) == *old(position),
        *old(cursor) < reader@.len() ==> {
            let end = line_end(reader@, *old(cursor) as int);
            let numeral = reader@.subrange(*old(cursor) as int, end - 1);
            &&& *final(cursor) == end
            &&& *old(cursor) < end <= reader@.len()
            &&& match spec_parse_u64(numeral) {
                Some(size) => r == Ok::<FilePosition, ArchiveError>(size) && *final(position)
                    == *old(position) + (end - *old(cursor)),
                None => r == Err::<FilePosition, ArchiveError>(
                    ArchiveError::CorruptedArchive {
                        position: *old(position),
                        section: DecompressionError::FileSize,
                    },
                ) && *final(position) == *old(position),
            }
        },
{
    let old_pos = *position;
    match read_line(reader, cursor, position) {
        None => Err(
            ArchiveError::CorruptedArchive {
                position: old_pos,
                section: DecompressionError::FileSize,
            },
        ),
        Some(line) => {
            match crate::format::parse_u64(&line) {
                Some(size) => Ok(size),
                None => {
                    *position = old_pos;
                    Err(
                        ArchiveError::CorruptedArchive {
                            position: old_pos,
                            section: DecompressionError::FileSize,
                        },
                    )
                },
            }
        },
    }
}

/// Streams an entry's bytes into the given sink: up to `count` bytes of
/// `payload` are appended.  When fewer than `count` bytes are available the
/// shortfall is an unexpected end of the archive stream.
pub fn extract_file(payload: &Vec<u8>, count: FilePosition, sink: &mut Vec<u8>) -> (r: Result<
    (),
    ArchiveError,
>)
    ensures
        payload@.len() >= count ==> r is Ok && final(sink)@ == old(sink)@ + payload@.subrange(
            0,
            count as int,
        ),
        payload@.len() < count ==> r == Err::<(), ArchiveError>(
            ArchiveError::ArchiveIo(IoErrorKind::UnexpectedEof),
        ) && final(sink)@ == old(sink)@ + payload@,
{
    let mut i: usize = 0;
    while i < payload.len() && (i as u64) < count
        invariant
            0 <= i <= payload@.len(),
            i as u64 <= count,
            sink@ =~= old(sink)@ + payload@.subrange(0, i as int),
        decreases payload@.len() - i,
    {
        sink.push(payload[i]);
        i = i + 1;
    }
    if (i as u64) < count {
        proof {
            assert(payload@.subrange(0, i as int) =~= payload@);
        }
        return Err(ArchiveError::ArchiveIo(IoErrorKind::UnexpectedEof));
    }
    Ok(())
}

/// Metadata and content of one entry about to be extracted.
pub struct FileDescriptor {
    /// Archive entry filename: the bytes of its name line.
    pub name: Vec<u8>,
    /// Declared size of the entry in bytes.
    pub len: FilePosition,
    /// The payload bytes that were available: exactly `len` of them, unless
    /// the stream ended first.
    pub payload: Vec<u8>,
}

impl FileDescriptor {
    /// The entry this descriptor carries, as the parse model sees it.
    pub open spec fn entry(&self) -> EntryS {
        EntryS { name: self.name@, size: self.len, payload: self.payload@ }
    }

    /// A descriptor never carries more payload than it declares.
    pub open spec fn wf(&self) -> bool {
        self.payload@.len() <= self.len
    }
}

/// The content-sink collaborator of the decoder: it is handed each entry in
/// stream order and consumes it, reporting a per-entry fault (`BadFileIo`)
/// when the entry's content cannot be placed, or a stream fault
/// (`ArchiveIo`) when the payload itself could not be read in full.
pub trait FileHandler: Sized {
    /// The entries this handler has consumed so far, in stream order.  A
    /// handler that does not publish a model of its state reports none.
    open spec fn extracted(&self) -> Seq<EntryS> {
        Seq::empty()
    }

    /// A reliable handler consumes every complete payload successfully and
    /// reports exactly the stream shortfall otherwise.  In-memory handlers
    /// are reliable; a filesystem-backed one, or one that does not publish
    /// a model, is not.
    open spec fn reliable(&self) -> bool {
        false
    }

    /// Consumes one entry.
    fn on_file(&mut self, file: FileDescriptor) -> (r: Result<(), ArchiveError>)
        requires
            file.wf(),
        ensures
            final(self).reliable() == old(self).reliable(),
            r is Ok ==> final(self).extracted() == old(self).extracted().push(file.entry()),
            r is Err ==> final(self).extracted() == old(self).extracted(),
            r matches Err(e) ==> (e matches ArchiveError::BadFileIo(_, _) || e matches ArchiveError::ArchiveIo(_)),
            old(self).reliable() && file.payload@.len() == file.len ==> r is Ok,
            old(self).reliable() && file.payload@.len() < file.len ==> r == Err::<(), ArchiveError>(
                ArchiveError::ArchiveIo(IoErrorKind::UnexpectedEof),
            ),
    ;
}

/// Standard content handler: extracts every entry into an in-memory
/// directory, one (name, content) file each.  Filesystem-backed front ends
/// write these files out afterwards.
pub struct DefaultFileHandler {
    files: Vec<(Vec<u8>, Vec<u8>)>,
}

impl DefaultFileHandler {
    pub fn new() -> (h: Self)
        ensures
            h.extracted() == Seq::<EntryS>::empty(),
            h.reliable(),
    {
        let h = DefaultFileHandler { files: Vec::new() };
        proof {
            assert(h.extracted() =~= Seq::<EntryS>::empty());
        }
        h
    }

    /// The extracted files, in archive order.
    pub fn files(&self) -> (r: &Vec<(Vec<u8>, Vec<u8>)>)
        ensures
            r@.len() == self.extracted().len(),
            forall|i: int|
                0 <= i < r@.len() ==> (#[trigger] r@[i]).0@ == self.extracted()[i].name
                    && r@[i].1@ == self.extracted()[i].payload
                    && r@[i].1@.len() as u64 == self.extracted()[i].size,
    {
        &self.files
    }
}

impl FileHandler for DefaultFileHandler {
    closed spec fn extracted(&self) -> Seq<EntryS> {
        self.files@.map(
            |i: int, f: (Vec<u8>, Vec<u8>)|
                EntryS { name: f.0@, size: f.1@.len() as u64, payload: f.1@ },
        )
    }

    closed spec fn reliable(&self) -> bool {
        true
    }

    fn on_file(&mut self, file: FileDescriptor) -> (r: Result<(), ArchiveError>) {
        let ghost prior = self.extracted();
        let mut sink: Vec<u8> = Vec::new();
        match extract_file(&file.payload, file.len, &mut sink) {
            Ok(()) => {
                proof {
                    assert(sink@ =~= file.payload@);
                }
                self.files.push((file.name, sink));
                proof {
                    assert(self.extracted() =~= prior.push(file.entry()));
                }
                Ok(())
            },
            Err(e) => Err(e),
        }
    }
}

/// Content handler that builds no output directory: it records each entry
/// it is handed, with its name, declared length and payload, and leaves all
/// further processing to the caller.
pub struct CallbackFileHandler {
    records: Vec<(Vec<u8>, FilePosition, Vec<u8>)>,
}

impl CallbackFileHandler {
    pub fn new() -> (h: Self)
        ensures
            h.extracted() == Seq::<EntryS>::empty(),
            h.reliable(),
    {
        let h = CallbackFileHandler { records: Vec::new() };
        proof {
            assert(h.extracted() =~= Seq::<EntryS>::empty());
        }
        h
    }

    /// The recorded entries, in archive order.
    pub fn records(&self) -> (r: &Vec<(Vec<u8>, FilePosition, Vec<u8>)>)
        ensures
            r@.len() == self.extracted().len(),
            forall|i: int|
                0 <= i < r@.len() ==> (#[trigger] r@[i]).0@ == self.extracted()[i].name
                    && r@[i].1 == self.extracted()[i].size
                    && r@[i].2@ == self.extracted()[i].payload,
    {
        &self.records
    }
}

impl FileHandler for CallbackFileHandler {
    closed spec fn extracted(&self) -> Seq<EntryS> {
        self.records@.map(
            |i: int, t: (Vec<u8>, FilePosition, Vec<u8>)|
                EntryS { name: t.0@, size: t.1, payload: t.2@ },
        )
    }

    closed spec fn reliable(&self) -> bool {
        true
    }

    fn on_file(&mut self, file: FileDescriptor) -> (r: Result<(), ArchiveError>) {
        let ghost prior = self.extracted();
        if (file.payload.len() as u64) < file.len {
            return Err(ArchiveError::ArchiveIo(IoErrorKind::UnexpectedEof));
        }
        let ghost e = file.entry();
        self.records.push((file.name, file.len, file.payload));
        proof {
            assert(self.extracted() =~= prior.push(e));
        }
        Ok(())
    }
}

/// Error policy that tolerates extraction failures: a per-entry content
/// fault is skipped, anything else aborts the extraction.
pub struct DefaultErrorHandler<'a> {
    archive_name: &'a str,
}

impl<'a> View for DefaultErrorHandler<'a> {
    type V = Seq<char>;

    /// The name of the archive this policy reports on.
    closed spec fn view(&self) -> Seq<char> {
        self.archive_name@
    }
}

impl<'a> DefaultErrorHandler<'a> {
    pub fn new(archive_name: &'a str) -> (h: Self)
        ensures
            h@ == archive_name@,
            forall|e: ArchiveErrorS| #[trigger] h.resumes(e) <==> e is BadFileIo,
            forall|e: ArchiveErrorS| #[trigger] h.translate(e) == e,
    {
        DefaultErrorHandler { archive_name }
    }

    /// Describes a fault that ends the whole extraction, naming the archive.
    pub fn on_fatal(&self, err: &ArchiveError) -> (msg: String)
        ensures
            msg@ == spec_fatal_message(err@) + self@,
    {
        let mut msg = match err {
            ArchiveError::ArchiveIo(_) => String::from_str("failed to read from archive "),
            ArchiveError::CorruptedArchive { .. } => String::from_str(
                "unexpected state while parsing a section of archive ",
            ),
            _ => String::from_str("extraction failed for archive "),
        };
        msg.append(self.archive_name);
        msg
    }
}

/// The diagnostic line reported for each class of fatal extraction fault.
pub open spec fn spec_fatal_message(err: ArchiveErrorS) -> Seq<char> {
    match err {
        ArchiveErrorS::ArchiveIo(_) => "failed to read from archive "@,
        ArchiveErrorS::CorruptedArchive { .. } => "unexpected state while parsing a section of archive "@,
        _ => "extraction failed for archive "@,
    }
}

impl<'a> Handler for DefaultErrorHandler<'a> {
    open spec fn resumes(&self, err: ArchiveErrorS) -> bool {
        err is BadFileIo
    }

    open spec fn translate(&self, err: ArchiveErrorS) -> ArchiveErrorS {
        err
    }

    fn on_err(&self, err: ArchiveError) -> (r: Result<(), ArchiveError>) {
        match err {
            ArchiveError::BadFileIo(_, _) => Ok(()),
            err => Err(err),
        }
    }
}

/// Copies the bytes of `reader` between `a` and `b` into a fresh vector.
fn copy_range(reader: &Vec<u8>, a: usize, b: usize) -> (r: Vec<u8>)
    requires
        a <= b <= reader@.len(),
    ensures
        r@ == reader@.subrange(a as int, b as int),
{
    let mut out: Vec<u8> = Vec::new();
    let mut k = a;
    while k < b
        invariant
            a <= k <= b <= reader@.len(),
            out@ =~= reader@.subrange(a as int, k as int),
        decreases b - k,
    {
        out.push(reader[k]);
        k = k + 1;
    }
    proof {
        assert(out@ =~= reader@.subrange(a as int, b as int));
    }
    out
}

/// The outcome the decoder reports for each way a parse of `s` can end,
/// when its content handler drains every payload.
pub open spec fn spec_decode_result(s: Seq<u8>) -> Result<(), ArchiveError> {
    match crate::format::spec_parse(s).end {
        crate::format::ParseEnd::Done => Ok(()),
        crate::format::ParseEnd::HeaderEof => Err(
            ArchiveError::ArchiveIo(IoErrorKind::UnexpectedEof),
        ),
        crate::format::ParseEnd::HeaderMismatch => Err(
            ArchiveError::CorruptedArchive { position: 0, section: DecompressionError::Header },
        ),
        crate::format::ParseEnd::SizeFault { position, .. } => Err(
            ArchiveError::CorruptedArchive {
                position: position as u64,
                section: DecompressionError::FileSize,
            },
        ),
        crate::format::ParseEnd::PayloadShort { .. } => Err(
            ArchiveError::CorruptedArchive {
                position: s.len() as u64,
                section: DecompressionError::Payload,
            },
        ),
        crate::format::ParseEnd::FooterEof { .. } => Err(
            ArchiveError::ArchiveIo(IoErrorKind::UnexpectedEof),
        ),
        crate::format::ParseEnd::FooterMismatch { position, .. } => Err(
            ArchiveError::CorruptedArchive {
                position: position as u64,
                section: DecompressionError::Footer,
            },
        ),
    }
}

/// What a handler state that grew from `prior` by `taken` looks like from
/// outside: `prior` in front, `taken` after it.
proof fn lemma_taken_parts(whole: Seq<EntryS>, prior: Seq<EntryS>, taken: Seq<EntryS>)
    requires
        whole == prior + taken,
    ensures
        prior.is_prefix_of(whole),
        whole.skip(prior.len() as int) == taken,
{
    assert(prior =~= whole.subrange(0, prior.len() as int));
    assert(whole.skip(prior.len() as int) =~= taken);
}

/// Decompresses a DCA archive held in `reader`, handing each entry to
/// `handle_file` and offering per-entry content faults to `handle_err`.
///
/// The decoder walks the framing state machine: header, then per entry the
/// name line, size line, payload of the declared size and footer line feed,
/// until the stream ends cleanly at an entry boundary.  A structural
/// violation aborts with the byte position of the fault; a per-entry
/// content fault is offered to the policy, and on resume the decoder skips
/// to the position after the entry's declared payload, so one bad entry
/// does not desynchronise the rest of the stream.
///
/// Whatever the handler and policy, what the handler consumes grows only
/// at the end, and grows by an in-order selection of the entries the
/// stream delivers: decoding never reorders and never fabricates entries.
/// For a reliable content handler the whole outcome is determined by the
/// stream: the result is exactly [`spec_decode_result`] and the handler
/// receives exactly the entries whose payload arrived complete.
pub fn decompress_from<FH: FileHandler, EH: Handler>(
    reader: &Vec<u8>,
    handle_file: &mut FH,
    handle_err: &EH,
) -> (r: Result<(), ArchiveError>)
    ensures
        final(handle_file).reliable() == old(handle_file).reliable(),
        r is Ok ==> crate::format::spec_parse(reader@).end is Done,
        old(handle_file).extracted().is_prefix_of(final(handle_file).extracted()),
        is_subsequence(
            final(handle_file).extracted().skip(old(handle_file).extracted().len() as int),
            spec_delivered(crate::format::spec_parse(reader@)),
        ),
        reader@.len() < 4 ==> r == Err::<(), ArchiveError>(
            ArchiveError::ArchiveIo(IoErrorKind::UnexpectedEof),
        ),
        reader@.len() >= 4 && reader@.subrange(0, 4) != crate::format::spec_header() ==> r
            == Err::<(), ArchiveError>(
            ArchiveError::CorruptedArchive { position: 0, section: DecompressionError::Header },
        ),
        old(handle_file).reliable() ==> r == spec_decode_result(reader@),
        old(handle_file).reliable() ==> final(handle_file).extracted() == old(
            handle_file,
        ).extracted() + crate::format::spec_extracted(crate::format::spec_parse(reader@)),
{
    let ghost s = reader@;
    let ghost p_all = crate::format::spec_parse(s);
    let ghost mut taken: Seq<EntryS> = Seq::empty();
    let mut cursor: usize = 0;
    let mut position: u64 = 0;
    let total = reader.len();

    // Header
    let header: Vec<u8> = vec![68u8, 67u8, 65u8, 10u8];
    proof {
        assert(header@ =~= crate::format::spec_header());
    }
    match read_matches(reader, &mut cursor, &header, &mut position) {
        Err(k) => {
            proof {
                assert(s.len() < 4);
                assert(crate::format::spec_extracted(p_all) =~= Seq::<EntryS>::empty());
                assert(old(handle_file).extracted() + crate::format::spec_extracted(p_all)
                    =~= old(handle_file).extracted());
                assert(handle_file.extracted() =~= old(handle_file).extracted() + taken);
                lemma_taken_parts(handle_file.extracted(), old(handle_file).extracted(), taken);
            }
            return Err(ArchiveError::ArchiveIo(k));
        },
        Ok(false) => {
            proof {
                assert(s.subrange(0, 4) != crate::format::spec_header());
                assert(crate::format::spec_extracted(p_all) =~= Seq::<EntryS>::empty());
                assert(old(handle_file).extracted() + crate::format::spec_extracted(p_all)
                    =~= old(handle_file).extracted());
                assert(handle_file.extracted() =~= old(handle_file).extracted() + taken);
                lemma_taken_parts(handle_file.extracted(), old(handle_file).extracted(), taken);
            }
            return Err(
                ArchiveError::CorruptedArchive {
                    position,
                    section: DecompressionError::Header,
                },
            );
        },
        Ok(true) => {},
    }
    proof {
        assert(s.subrange(0, 4) =~= crate::format::spec_header());
        assert(p_all == crate::format::spec_parse_entries(s, 4));
    }

    let ghost mut frames_done: Seq<EntryS> = Seq::empty();
    proof {
        assert(handle_file.extracted() =~= old(handle_file).extracted() + taken);
    }
    loop
        invariant
            4 <= cursor <= total,
            total == reader@.len(),
            s == reader@,
            position == cursor as u64,
            p_all == crate::format::spec_parse(s),
            handle_file.reliable() == old(handle_file).reliable(),
            p_all.frames == frames_done + crate::format::spec_parse_entries(
                s,
                cursor as int,
            ).frames,
            p_all.end == crate::format::spec_parse_entries(s, cursor as int).end,
            handle_file.reliable() ==> handle_file.extracted() == old(handle_file).extracted()
                + frames_done,
            handle_file.extracted() == old(handle_file).extracted() + taken,
            is_subsequence(taken, frames_done),
            s.len() >= 4 && s.subrange(0, 4) == crate::format::spec_header(),
        decreases total - cursor,
    {
        let ghost rest = crate::format::spec_parse_entries(s, cursor as int);
        let ghost c0 = cursor as int;

        // ExpectEntryOrEnd
        let name = match read_line(reader, &mut cursor, &mut position) {
            None => {
                proof {
                    assert(rest.frames =~= Seq::<EntryS>::empty());
                    assert(p_all.frames =~= frames_done);
                    assert(crate::format::spec_extracted(p_all) =~= frames_done);
                    assert(spec_delivered(p_all) =~= frames_done);
                    lemma_taken_parts(
                        handle_file.extracted(),
                        old(handle_file).extracted(),
                        taken,
                    );
                }
                return Ok(());
            },
            Some(n) => n,
        };
        let ghost name_end = line_end(s, c0);

        // ExpectSize
        let size = match read_file_size(reader, &mut cursor, &mut position) {
            Err(e) => {
                proof {
                    if name_end >= s.len() {
                        assert(rest.end == crate::format::ParseEnd::SizeFault {
                            name: name@,
                            position: s.len() as int,
                        });
                    } else {
                        assert(rest.end == crate::format::ParseEnd::SizeFault {
                            name: name@,
                            position: name_end,
                        });
                    }
                    assert(rest.frames =~= Seq::<EntryS>::empty());
                    assert(p_all.frames =~= frames_done);
                    assert(crate::format::spec_extracted(p_all) =~= frames_done);
                    assert(spec_delivered(p_all) =~= frames_done);
                    lemma_taken_parts(
                        handle_file.extracted(),
                        old(handle_file).extracted(),
                        taken,
                    );
                }
                return Err(e);
            },
            Ok(sz) => sz,
        };
        let ghost size_end = cursor as int;

        // ExpectPayload: hand the handler a view bounded by the declared
        // size, short exactly when the stream ends first.
        let avail: usize = total - cursor;
        let take: usize = if size <= avail as u64 {
            size as usize
        } else {
            avail
        };
        let payload = copy_range(reader, cursor, cursor + take);
        let ghost entry = EntryS { name: name@, size: size, payload: payload@ };
        proof {
            if size <= avail as u64 {
                assert(entry == EntryS {
                    name: s.subrange(c0, name_end - 1),
                    size: size,
                    payload: s.subrange(size_end, size_end + size),
                });
            } else {
                assert(entry == EntryS {
                    name: s.subrange(c0, name_end - 1),
                    size: size,
                    payload: s.subrange(size_end, s.len() as int),
                });
                assert(rest.end == crate::format::ParseEnd::PayloadShort { entry });
                assert(rest.frames =~= Seq::<EntryS>::empty());
            }
        }
        let fd = FileDescriptor { name, len: size, payload };
        let ghost pre_taken = taken;
        let ghost mut pushed: bool = false;
        match handle_file.on_file(fd) {
            Ok(()) => {
                proof {
                    pushed = true;
                    taken = taken.push(entry);
                    assert(handle_file.extracted() =~= old(handle_file).extracted() + taken);
                }
            },
            Err(e) => {
                match e {
                    ArchiveError::ArchiveIo(IoErrorKind::UnexpectedEof) => {
                        proof {
                            if handle_file.reliable() {
                                assert(rest.end == crate::format::ParseEnd::PayloadShort {
                                    entry,
                                });
                                assert(p_all.frames =~= frames_done);
                                assert(crate::format::spec_extracted(p_all) =~= frames_done);
                            }
                            assert(spec_delivered(p_all) =~= frames_done + spec_delivered(
                                rest,
                            ));
                            lemma_subsequence_concat(taken, frames_done, spec_delivered(rest));
                            lemma_taken_parts(
                                handle_file.extracted(),
                                old(handle_file).extracted(),
                                taken,
                            );
                        }
                        return Err(
                            ArchiveError::CorruptedArchive {
                                position: total as u64,
                                section: DecompressionError::Payload,
                            },
                        );
                    },
                    ArchiveError::BadFileIo(bad_name, bad_kind) => {
                        match handle_err.on_err(ArchiveError::BadFileIo(bad_name, bad_kind)) {
                            Ok(()) => {},
                            Err(e2) => {
                                proof {
                                    assert(spec_delivered(p_all) =~= frames_done
                                        + spec_delivered(rest));
                                    lemma_subsequence_concat(
                                        taken,
                                        frames_done,
                                        spec_delivered(rest),
                                    );
                                    lemma_taken_parts(
                                        handle_file.extracted(),
                                        old(handle_file).extracted(),
                                        taken,
                                    );
                                }
                                return Err(e2);
                            },
                        }
                    },
                    e => {
                        proof {
                            assert(spec_delivered(p_all) =~= frames_done + spec_delivered(
                                rest,
                            ));
                            lemma_subsequence_concat(taken, frames_done, spec_delivered(rest));
                            lemma_taken_parts(
                                handle_file.extracted(),
                                old(handle_file).extracted(),
                                taken,
                            );
                        }
                        return Err(e);
                    },
                }
            },
        }
        proof {
            if pushed {
                lemma_subsequence_push(pre_taken, frames_done, entry);
            } else {
                lemma_subsequence_extend(taken, frames_done, entry);
            }
            assert(is_subsequence(taken, frames_done.push(entry)));
        }

        // Reposition to just after the declared payload, whatever the
        // handler consumed; past the end of the stream this is the
        // unexpected end of the archive.
        if size > (total - cursor) as u64 {
            proof {
                assert(rest.end == crate::format::ParseEnd::PayloadShort { entry });
                assert(rest.frames =~= Seq::<EntryS>::empty());
                assert(spec_delivered(p_all) =~= frames_done.push(entry));
                lemma_taken_parts(handle_file.extracted(), old(handle_file).extracted(), taken);
            }
            return Err(ArchiveError::ArchiveIo(IoErrorKind::UnexpectedEof));
        }
        cursor = cursor + size as usize;
        position = position + size;

        // ExpectFooter
        let ghost footer_pos = cursor as int;
        if cursor == total {
            proof {
                assert(rest.end == crate::format::ParseEnd::FooterEof { entry });
                assert(rest.frames =~= Seq::<EntryS>::empty());
                if handle_file.reliable() {
                    assert(crate::format::spec_extracted(p_all) =~= frames_done.push(entry));
                    assert(old(handle_file).extracted() + frames_done.push(entry)
                        =~= (old(handle_file).extracted() + frames_done).push(entry));
                }
                assert(spec_delivered(p_all) =~= frames_done.push(entry));
                lemma_taken_parts(handle_file.extracted(), old(handle_file).extracted(), taken);
            }
            return Err(ArchiveError::ArchiveIo(IoErrorKind::UnexpectedEof));
        }
        let newline: Vec<u8> = vec![10u8];
        match read_matches(reader, &mut cursor, &newline, &mut position) {
            Err(k) => {
                return Err(ArchiveError::ArchiveIo(k));
            },
            Ok(false) => {
                proof {
                    assert(s.subrange(footer_pos, footer_pos + 1) =~= seq![s[footer_pos]]);
                    assert(newline@ =~= seq![10u8]);
                    assert(s[footer_pos] != 10);
                    assert(rest.end == crate::format::ParseEnd::FooterMismatch {
                        entry,
                        position: footer_pos,
                    });
                    assert(rest.frames =~= Seq::<EntryS>::empty());
                    if handle_file.reliable() {
                        assert(crate::format::spec_extracted(p_all) =~= frames_done.push(
                            entry,
                        ));
                        assert(old(handle_file).extracted() + frames_done.push(entry)
                            =~= (old(handle_file).extracted() + frames_done).push(entry));
                    }
                    assert(spec_delivered(p_all) =~= frames_done.push(entry));
                    lemma_taken_parts(
                        handle_file.extracted(),
                        old(handle_file).extracted(),
                        taken,
                    );
                }
                return Err(
                    ArchiveError::CorruptedArchive {
                        position,
                        section: DecompressionError::Footer,
                    },
                );
            },
            Ok(true) => {},
        }
        proof {
            assert(s.subrange(footer_pos, footer_pos + 1) =~= seq![s[footer_pos]]);
            assert(newline@ =~= seq![10u8]);
            assert(s[footer_pos] == 10);
            let next = crate::format::spec_parse_entries(s, footer_pos + 1);
            assert(rest.frames == seq![entry] + next.frames);
            assert(rest.end == next.end);
            frames_done = frames_done.push(entry);
            assert(p_all.frames =~= (frames_done + next.frames));
            if handle_file.reliable() {
                assert(handle_file.extracted() =~= old(handle_file).extracted() + frames_done);
            }
        }
    }
}

} // verus!
