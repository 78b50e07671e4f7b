//! Handles creation of DCA archives.

use vstd::prelude::*;

use crate::error::{
    char_count, first_forbidden, forbidden_char, into_dca_filename, valid_name, ArchiveError,
    ArchiveErrorS, DcaFilenameError, FilePosition, Handler,
};
use crate::format::{spec_frame, spec_header, u64_to_decimal, EntryS};

verus! {

/// One entry offered for encoding: a candidate name and its content.
pub struct FileDescriptor {
    /// Candidate entry name: the platform filename as bytes.  It is
    /// validated against the framing before it is written.
    pub path: Vec<u8>,
    /// The entry's content.
    pub payload: Vec<u8>,
    /// The entry's exact length in bytes.
    pub len: FilePosition,
}

impl FileDescriptor {
    /// The entry this descriptor carries, as the encode model sees it.
    pub open spec fn entry(&self) -> EntryS {
        EntryS { name: self.path@, size: self.len, payload: self.payload@ }
    }

    /// The declared length is the content's exact byte count.
    pub open spec fn wf(&self) -> bool {
        self.payload@.len() == self.len
    }
}

/// The content-source collaborator of the encoder: asked for one entry at
/// a time, it produces the next entry, reports that none remain, or reports
/// a per-entry fault (`BadFileIo`) that consumes the entry it concerned.
pub trait FileHandler: Sized {
    /// The entries still to be offered, in order.  A source that does not
    /// publish a model of its state reports none.
    open spec fn pending(&self) -> Seq<EntryS> {
        Seq::empty()
    }

    /// A reliable source always produces its next entry.  In-memory
    /// sources are reliable; a filesystem-backed one, or one that does not
    /// publish a model, is not.
    open spec fn reliable(&self) -> bool {
        false
    }

    /// Hands out the next entry, or `None` when all have been offered.
    fn next_file(&mut self) -> (r: Result<Option<FileDescriptor>, ArchiveError>)
        ensures
            final(self).reliable() == old(self).reliable(),
            r matches Ok(Some(fd)) ==> fd.wf() && old(self).pending().len() > 0 && fd.entry()
                == old(self).pending()[0] && final(self).pending() == old(
                self,
            ).pending().drop_first(),
            r matches Ok(None) ==> old(self).pending().len() == 0 && final(self).pending()
                == old(self).pending(),
            r is Err ==> old(self).pending().len() > 0 && final(self).pending() == old(
                self,
            ).pending().drop_first(),
            r matches Err(e) ==> e matches ArchiveError::BadFileIo(_, _),
            old(self).reliable() ==> r is Ok,
    ;
}

/// Standard content source: feeds the encoder a list of (name, content)
/// files held in memory.  Filesystem-backed front ends read their files
/// into such a list, one at a time.
pub struct DefaultFileHandler {
    files: Vec<(Vec<u8>, Vec<u8>)>,
    next: usize,
}

impl DefaultFileHandler {
    pub fn new(files: Vec<(Vec<u8>, Vec<u8>)>) -> (h: Self)
        ensures
            h.reliable(),
            h.pending().len() == files@.len(),
            forall|i: int|
                0 <= i < files@.len() ==> (#[trigger] h.pending()[i]).name == files@[i].0@
                    && h.pending()[i].payload == files@[i].1@ && h.pending()[i].size == files@[
                    i
                ].1@.len() as u64,
    {
        let h = DefaultFileHandler { files, next: 0 };
        h
    }
}

impl FileHandler for DefaultFileHandler {
    closed spec fn pending(&self) -> Seq<EntryS> {
        if self.next <= self.files@.len() {
            self.files@.skip(self.next as int).map(
                |i: int, f: (Vec<u8>, Vec<u8>)|
                    EntryS { name: f.0@, size: f.1@.len() as u64, payload: f.1@ },
            )
        } else {
            Seq::empty()
        }
    }

    closed spec fn reliable(&self) -> bool {
        self.next <= self.files@.len()
    }

    fn next_file(&mut self) -> (r: Result<Option<FileDescriptor>, ArchiveError>) {
        let ghost prior = self.pending();
        if self.next >= self.files.len() {
            return Ok(None);
        }
        let name = self.files[self.next].0.clone();
        let content = self.files[self.next].1.clone();
        proof {
            assert(name@ =~= self.files@[self.next as int].0@);
            assert(content@ =~= self.files@[self.next as int].1@);
        }
        let len = content.len() as u64;
        let fd = FileDescriptor { path: name, payload: content, len };
        self.next = self.next + 1;
        proof {
            assert(fd.entry() == prior[0]);
            assert(self.pending() =~= prior.drop_first());
        }
        Ok(Some(fd))
    }
}

/// Error policy of the encoder's batteries-included front end: every fault
/// aborts the archive's creation.
pub struct DefaultErrorHandler<'a> {
    archive_name: &'a str,
}

impl<'a> View for DefaultErrorHandler<'a> {
    type V = Seq<char>;

    /// The name of the archive this policy reports on.
    closed spec fn view(&self) -> Seq<char> {
        self.archive_name@
    }
}

impl<'a> DefaultErrorHandler<'a> {
    pub fn new(archive_name: &'a str) -> (h: Self)
        ensures
            h@ == archive_name@,
            forall|e: ArchiveErrorS| !#[trigger] h.resumes(e),
            forall|e: ArchiveErrorS| #[trigger] h.translate(e) == e,
    {
        DefaultErrorHandler { archive_name }
    }

    /// Describes a fault that ends the archive's creation, naming the
    /// archive.
    pub fn on_fatal(&self, err: &ArchiveError) -> (msg: String)
        ensures
            msg@ == spec_fatal_message(err@) + self@,
    {
        let mut msg = match err {
            ArchiveError::ArchiveIo(_) => String::from_str("failed to write into archive "),
            ArchiveError::BadFileIo(_, _) => String::from_str(
                "cannot add a file into archive ",
            ),
            ArchiveError::InvalidDcaFilename(_, _) => String::from_str(
                "a file does not have a legal filename for archive ",
            ),
            _ => String::from_str("creation failed for archive "),
        };
        msg.append(self.archive_name);
        msg
    }
}

/// The diagnostic line reported for each class of fatal encoding fault.
pub open spec fn spec_fatal_message(err: ArchiveErrorS) -> Seq<char> {
    match err {
        ArchiveErrorS::ArchiveIo(_) => "failed to write into archive "@,
        ArchiveErrorS::BadFileIo(_, _) => "cannot add a file into archive "@,
        ArchiveErrorS::InvalidDcaFilename(_, _) => "a file does not have a legal filename for archive "@,
        _ => "creation failed for archive "@,
    }
}

impl<'a> Handler for DefaultErrorHandler<'a> {
    open spec fn resumes(&self, err: ArchiveErrorS) -> bool {
        false
    }

    open spec fn translate(&self, err: ArchiveErrorS) -> ArchiveErrorS {
        err
    }

    fn on_err(&self, err: ArchiveError) -> (r: Result<(), ArchiveError>) {
        Err(err)
    }
}

/// The invalid-name fault for `name`, citing the first forbidden character
/// and its character position.
pub open spec fn spec_name_fault(name: Seq<u8>) -> ArchiveErrorS {
    ArchiveErrorS::InvalidDcaFilename(
        name,
        DcaFilenameError::InvalidChar(
            forbidden_char(name[first_forbidden(name)]),
            char_count(name, first_forbidden(name)) as usize,
        ),
    )
}

/// What encoding a list of entries emits and how it ends, under a given
/// error policy: each entry with a valid name becomes one frame; an entry
/// with a forbidden character in its name is offered to the policy, and is
/// skipped on resume or aborts the encoding with the translated fault.
pub open spec fn spec_compress_entries<EH: Handler>(entries: Seq<EntryS>, eh: &EH) -> (
    Seq<u8>,
    Result<(), ArchiveErrorS>,
)
    decreases entries.len(),
{
    if entries.len() == 0 {
        (Seq::empty(), Ok(()))
    } else {
        let e = entries[0];
        if valid_name(e.name) {
            let rest = spec_compress_entries(entries.drop_first(), eh);
            (spec_frame(e.name, e.payload) + rest.0, rest.1)
        } else {
            if eh.resumes(spec_name_fault(e.name)) {
                spec_compress_entries(entries.drop_first(), eh)
            } else {
                (Seq::empty(), Err(eh.translate(spec_name_fault(e.name))))
            }
        }
    }
}

/// With every name valid, encoding emits exactly the canonical encoding of
/// the entries and succeeds, under any error policy.
pub proof fn lemma_compress_all_valid<EH: Handler>(entries: Seq<EntryS>, eh: &EH)
    requires
        forall|i: int| 0 <= i < entries.len() ==> valid_name((#[trigger] entries[i]).name),
    ensures
        spec_compress_entries(entries, eh).0 == crate::format::spec_encode_entries(entries),
        spec_compress_entries(entries, eh).1 is Ok,
    decreases entries.len(),
{
    if entries.len() > 0 {
        assert forall|i: int|
            0 <= i < entries.drop_first().len() implies valid_name(
            (#[trigger] entries.drop_first()[i]).name,
        ) by {
            assert(entries.drop_first()[i] == entries[i + 1]);
        }
        lemma_compress_all_valid(entries.drop_first(), eh);
    }
}

/// Encoding any list of entries whose names are free of the line feed and
/// the path separator and whose payloads match their declared sizes, then
/// decoding the emitted stream, reproduces exactly those entries, whatever
/// the error policy: no fault is ever offered to it.
pub proof fn lemma_compress_decompress_round_trip<EH: Handler>(entries: Seq<EntryS>, eh: &EH)
    requires
        forall|i: int| 0 <= i < entries.len() ==> crate::format::encodable(#[trigger] entries[i]),
    ensures
        spec_header() + spec_compress_entries(entries, eh).0 == crate::format::spec_encode(
            entries,
        ),
        spec_compress_entries(entries, eh).1 is Ok,
        crate::format::spec_parse(crate::format::spec_encode(entries)).frames == entries,
        crate::format::spec_parse(crate::format::spec_encode(entries)).end is Done,
        crate::format::spec_extracted(
            crate::format::spec_parse(crate::format::spec_encode(entries)),
        ) == entries,
{
    lemma_compress_all_valid(entries, eh);
    crate::format::lemma_round_trip(entries);
    assert(crate::format::spec_extracted(
        crate::format::spec_parse(crate::format::spec_encode(entries)),
    ) =~= entries);
}

/// Under a policy that does not resume invalid-name faults, encoding
/// aborts at the first entry whose name holds a forbidden character; the
/// fault cites that entry's name, the first forbidden character in it, and
/// that character's position.
pub proof fn lemma_name_rejection<EH: Handler>(entries: Seq<EntryS>, k: int, eh: &EH)
    requires
        0 <= k < entries.len(),
        forall|j: int| 0 <= j < k ==> valid_name((#[trigger] entries[j]).name),
        !valid_name(entries[k].name),
        !eh.resumes(spec_name_fault(entries[k].name)),
    ensures
        spec_compress_entries(entries, eh).1 == Err::<(), ArchiveErrorS>(
            eh.translate(spec_name_fault(entries[k].name)),
        ),
    decreases k,
{
    if k == 0 {
    } else {
        assert forall|j: int|
            0 <= j < k - 1 implies valid_name((#[trigger] entries.drop_first()[j]).name) by {
            assert(entries.drop_first()[j] == entries[j + 1]);
        }
        assert(entries.drop_first()[k - 1] == entries[k]);
        lemma_name_rejection(entries.drop_first(), k - 1, eh);
    }
}

/// Encodes entries from `handle_file` into `writer`: the header literal
/// first, then one well-formed frame per entry, in source order.  Entries
/// whose names do not fit the framing, and per-entry faults of the source,
/// are offered to `handle_err`: on resume the entry is skipped, otherwise
/// the fault aborts the encoding.
///
/// For a reliable source the emitted bytes and the outcome are exactly
/// [`spec_compress_entries`] of the source's entries.
pub fn compress_into<FH: FileHandler, EH: Handler>(
    writer: &mut Vec<u8>,
    handle_file: &mut FH,
    handle_err: &EH,
) -> (r: Result<(), ArchiveError>)
    ensures
        final(handle_file).reliable() == old(handle_file).reliable(),
        (old(writer)@ + spec_header()).is_prefix_of(final(writer)@),
        old(handle_file).reliable() ==> {
            let sc = spec_compress_entries(old(handle_file).pending(), handle_err);
            &&& final(writer)@ == old(writer)@ + spec_header() + sc.0
            &&& (r is Ok <==> sc.1 is Ok)
            &&& (match (r, sc.1) {
                (Err(e), Err(es)) => e@ == es,
                _ => true,
            })
        },
{
    let ghost sc = spec_compress_entries(old(handle_file).pending(), handle_err);
    let mut header: Vec<u8> = vec![68u8, 67u8, 65u8, 10u8];
    proof {
        assert(header@ =~= spec_header());
    }
    writer.append(&mut header);
    let ghost base = old(writer)@ + spec_header();
    let ghost mut emitted: Seq<u8> = Seq::empty();
    proof {
        assert(writer@ =~= base + emitted);
    }
    loop
        invariant
            handle_file.reliable() == old(handle_file).reliable(),
            writer@ == base + emitted,
            base == old(writer)@ + spec_header(),
            sc == spec_compress_entries(old(handle_file).pending(), handle_err),
            handle_file.reliable() ==> {
                let rest = spec_compress_entries(handle_file.pending(), handle_err);
                &&& sc.0 == emitted + rest.0
                &&& sc.1 == rest.1
            },
        decreases handle_file.pending().len(),
    {
        let ghost pend = handle_file.pending();
        let ghost rest = spec_compress_entries(pend, handle_err);
        match handle_file.next_file() {
            Ok(None) => {
                proof {
                    if handle_file.reliable() {
                        assert(rest.0 =~= Seq::<u8>::empty());
                        assert(sc.0 =~= emitted);
                        assert(writer@ =~= old(writer)@ + spec_header() + sc.0);
                    }
                }
                return Ok(());
            },
            Ok(Some(fd)) => {
                let mut fd = fd;
                match into_dca_filename(&fd.path) {
                    Ok(()) => {
                        let ghost frame = spec_frame(fd.path@, fd.payload@);
                        let ghost w0 = writer@;
                        writer.append(&mut fd.path);
                        writer.push(10);
                        let mut digits = u64_to_decimal(fd.len);
                        writer.append(&mut digits);
                        writer.push(10);
                        writer.append(&mut fd.payload);
                        writer.push(10);
                        proof {
                            assert(writer@ =~= w0 + frame);
                            emitted = emitted + frame;
                            assert(writer@ =~= base + emitted);
                            if handle_file.reliable() {
                                let new_rest = spec_compress_entries(
                                    handle_file.pending(),
                                    handle_err,
                                );
                                assert(rest.0 == frame + new_rest.0);
                                assert(sc.0 =~= emitted + new_rest.0);
                            }
                        }
                    },
                    Err(name_err) => {
                        let err = ArchiveError::InvalidDcaFilename(fd.path, name_err);
                        proof {
                            assert(err@ == spec_name_fault(pend[0].name));
                        }
                        match handle_err.on_err(err) {
                            Ok(()) => {
                                proof {
                                    if handle_file.reliable() {
                                        let new_rest = spec_compress_entries(
                                            handle_file.pending(),
                                            handle_err,
                                        );
                                        assert(rest.0 == new_rest.0);
                                        assert(rest.1 == new_rest.1);
                                    }
                                }
                            },
                            Err(e2) => {
                                proof {
                                    if handle_file.reliable() {
                                        assert(rest.1 == Err::<(), ArchiveErrorS>(
                                            handle_err.translate(spec_name_fault(pend[0].name)),
                                        ));
                                        assert(rest.0 =~= Seq::<u8>::empty());
                                        assert(sc.0 =~= emitted);
                                    }
                                }
                                return Err(e2);
                            },
                        }
                    },
                }
            },
            Err(err) => {
                match err {
                    ArchiveError::ArchiveIo(_) => {
                        // The archive stream itself is in an unknown state:
                        // never offered to the policy.
                        return Err(err);
                    },
                    err => {
                        match handle_err.on_err(err) {
                            Ok(()) => {},
                            Err(e2) => {
                                return Err(e2);
                            },
                        }
                    },
                }
            },
        }
    }
}

} // verus!
