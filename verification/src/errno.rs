//! The kinds of failure that filesystem requests report. The program turns each into the
//! platform's error number where it answers the kernel.
use vstd::prelude::*;

verus! {

/// Why a filesystem request failed, one kind per error number the service answers with.
#[derive(Debug, Clone, Copy, PartialEq, Eq, Structural)]
pub enum FsErrno {
    /// No such file or directory (`ENOENT`).
    NotFound,
    /// The storage below failed, or a request lost a race (`EIO`).
    Io,
    /// The name is taken (`EEXIST`).
    Exists,
    /// A directory was expected (`ENOTDIR`).
    NotDir,
    /// A file was expected (`EISDIR`).
    IsDir,
    /// The path names no entry that can be made or removed (`EINVAL`).
    Invalid,
    /// The directory still has entries (`ENOTEMPTY`).
    NotEmpty,
}

} // verus!
