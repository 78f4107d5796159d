//! A flat, read-only archive of files: the byte format, a builder that lays
//! the files out behind a self-describing header, and a reader that indexes
//! the header and serves each file's bytes by path.

pub mod builder;
pub mod error;
pub mod format;
pub mod laws;
pub mod reader;

pub use builder::{
    archive_size, build_archive, bundle_file_name, compute_header, header_size, FileEntry,
    SourceFile,
};
pub use error::{ArchiveError, FsError};
pub use reader::{parse_header, FsEntry, IncludeFsInner, RawEntry};
