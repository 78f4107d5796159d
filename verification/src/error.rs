//! What can go wrong when an archive is built or read.

use vstd::prelude::*;

verus! {

/// Why an archive could not be built.
#[derive(Debug)]
pub enum ArchiveError {
    /// A path's UTF-8 encoding does not fit the 16-bit length field. `len` is
    /// the encoded length in bytes and `max` the largest length accepted.
    PathTooLong { path: String, len: usize, max: usize },
    /// There are more files than the 32-bit count field can hold.
    TooManyFiles { count: usize, max: usize },
}

/// Why an archive could not be opened or a file not served.
#[derive(Debug, Clone, Copy, PartialEq, Eq, Structural)]
pub enum FsError {
    /// The archive holds no file under the requested path.
    NotFound,
    /// The buffer is not a well-formed archive.
    InvalidArchive,
}

} // verus!
