//! Handles extraction of metadata from DCA archives.

use vstd::prelude::*;

use crate::decompress::{decompress_from, spec_decode_result, CallbackFileHandler, FileHandler};
use crate::error::{ArchiveError, FilePosition, Handler};
use crate::format::{spec_parse, spec_extracted};

verus! {

/// Extracts the list of an archive's entries as name-size pairs, without
/// keeping their contents.  On a well-formed archive the list holds, in
/// stream order, exactly the name and declared size of every entry; on a
/// malformed one the parse fault is reported unchanged.
pub fn archive_entries<EH: Handler>(reader: &Vec<u8>, error_handler: &EH) -> (r: Result<
    Vec<(Vec<u8>, FilePosition)>,
    ArchiveError,
>)
    ensures
        r is Ok <==> spec_parse(reader@).end is Done,
        r matches Err(e) ==> spec_decode_result(reader@) == Err::<(), ArchiveError>(e),
        r matches Ok(names) ==> {
            let frames = spec_parse(reader@).frames;
            &&& names@.len() == frames.len()
            &&& forall|i: int|
                0 <= i < frames.len() ==> (#[trigger] names@[i]).0@ == frames[i].name
                    && names@[i].1 == frames[i].size
        },
{
    let mut fhandler = CallbackFileHandler::new();
    match decompress_from(reader, &mut fhandler, error_handler) {
        Err(e) => Err(e),
        Ok(()) => {
            let ghost frames = spec_parse(reader@).frames;
            proof {
                assert(spec_extracted(spec_parse(reader@)) =~= frames);
                assert(fhandler.extracted() =~= frames);
            }
            let records = fhandler.records();
            let mut names: Vec<(Vec<u8>, FilePosition)> = Vec::new();
            let mut i: usize = 0;
            while i < records.len()
                invariant
                    0 <= i <= records@.len(),
                    names@.len() == i,
                    records@.len() == frames.len(),
                    forall|j: int|
                        0 <= j < records@.len() ==> (#[trigger] records@[j]).0@ == frames[j].name
                            && records@[j].1 == frames[j].size,
                    forall|j: int|
                        0 <= j < i ==> (#[trigger] names@[j]).0@ == frames[j].name && names@[j].1
                            == frames[j].size,
                decreases records@.len() - i,
            {
                let name = records[i].0.clone();
                proof {
                    assert(name@ =~= records@[i as int].0@);
                }
                let size = records[i].1;
                names.push((name, size));
                i = i + 1;
            }
            Ok(names)
        },
    }
}

} // verus!
