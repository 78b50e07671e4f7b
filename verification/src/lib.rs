//! Library for working with the Dumb Cat Archive (DCA) file format.
//!
//! DCA is a trivial flat container that concatenates multiple named files
//! into one byte stream: a fixed header line, then for each entry its name,
//! its size in decimal, the raw payload bytes and a closing newline.
//!
//! The encoder and decoder here work over in-memory byte vectors and are
//! verified: the wire format is written down as specification functions,
//! the encoder is proved to emit exactly that format, and the decoder is
//! proved to recognise it, reporting the byte position of the first
//! structural violation otherwise.  Filesystem-backed front ends are thin
//! shells that feed bytes in and out of this core.

pub mod compress;
pub mod decompress;
pub mod entries;
pub mod error;
pub mod format;
pub mod listing;

pub use compress::compress_into;
pub use decompress::decompress_from;
pub use entries::archive_entries;
pub use error::into_dca_filename;
