//! The failures that the filesystem operations report.

use vstd::prelude::*;

verus! {

/// A failed filesystem operation.
#[derive(Clone, Copy, Debug, PartialEq, Eq, Structural)]
pub enum FsError {
    /// The path names neither a tag directory nor a file.
    NotFound,
    /// The operation would change what is read-only by design.
    NotSupported,
    /// The native stat of a file failed with this OS error code.
    Os(i32),
    /// A native stat gave type bits of no known kind: the host broke an
    /// assumption, which is fatal.
    UnknownFileType(u32),
}

/// The Linux error code "no such file or directory".
pub const ENOENT: i32 = 2;

/// The Linux error code "operation not supported".
pub const ENOTSUP: i32 = 95;

/// The error code that the protocol reports for a failure; none for an
/// unknown file type, which is fatal and reported by no code.
pub fn errno(e: FsError) -> (r: Option<i32>)
    ensures
        match e {
            FsError::NotFound => r == Some(ENOENT),
            FsError::NotSupported => r == Some(ENOTSUP),
            FsError::Os(code) => r == Some(code),
            FsError::UnknownFileType(_) => r is None,
        },
{
    match e {
        FsError::NotFound => Some(ENOENT),
        FsError::NotSupported => Some(ENOTSUP),
        FsError::Os(code) => Some(code),
        FsError::UnknownFileType(_) => None,
    }
}

} // verus!
