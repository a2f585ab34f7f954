//! Reading and writing USTAR archives: the header record codec, its
//! checksum, and the decisions of the archive walk on both sides.
pub mod cstring;
pub mod encode;
pub mod engine;
pub mod header;
pub mod laws;
pub mod octal;

pub use cstring::CString;
pub use encode::{EntryKind, FileMeta, MAX_LONG, MAX_SHORT};
pub use engine::{
    content_of, next_entry, pad_content, scan_archive, step_for, write_step, Action, Entry,
    PathQueue, Step, WriteStep,
};
pub use header::{ArchiveError, FileType, UstarHeader, HEADER};
pub use octal::{parse_octal, render_octal};
