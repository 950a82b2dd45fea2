//! Error kinds reported by the filesystem core. Every operation reports its
//! error to the immediate caller; no operation changes state when it fails.
use vstd::prelude::*;

verus! {

/// The error taxonomy of the filesystem core.
#[derive(Clone, Copy, Debug, PartialEq, Eq, Structural)]
pub enum FsError {
    /// A write would exceed the maximum page count of an inode.
    FileTooLarge,
    /// A read addresses a page number beyond the maximum.
    PageOutOfRange,
    /// A read touches a byte past the file size or on a page never written.
    UnallocatedRead,
    /// A directory operation was applied to a non-directory file.
    NotADirectory,
    /// A byte operation was applied to a handle whose file is not a data file.
    NotAFile,
    /// A seek target would be negative or not representable.
    InvalidSeek,
}

} // verus!
