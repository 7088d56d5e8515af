//! Value types shared by every storage operation: access intent, the error
//! taxonomy, and seek targets.

use vstd::prelude::*;

verus! {

/// Access intent passed to `open`: read access is always granted, write
/// access only for `ReadWrite`.
#[derive(Clone, Copy, Debug, PartialEq, Eq, Structural)]
pub enum Permission {
    ReadOnly,
    ReadWrite,
}

impl Permission {
    /// Whether an opener with this intent gets write access.
    pub fn grants_write(self) -> (r: bool)
        ensures
            r == (self == Permission::ReadWrite),
    {
        match self {
            Permission::ReadOnly => false,
            Permission::ReadWrite => true,
        }
    }
}

/// The error kinds a storage operation can surface. Every fallible
/// operation reports its failure immediately through one of these; nothing
/// is retried or suppressed inside this layer.
#[derive(Clone, Copy, Debug, PartialEq, Eq, Structural)]
pub enum FsError {
    /// The path is not bound to any file.
    NotFound,
    /// The host refused the access (also: writing through a read-only
    /// descriptor).
    PermissionDenied,
    /// A create/rename/delete conflict.
    AlreadyExists,
    /// A malformed request, such as a seek to a negative position.
    InvalidArgument,
    /// The storage ran out of space.
    ResourceExhausted,
    /// A transient interruption; the caller may retry.
    Interrupted,
    /// Any other I/O failure.
    Other,
}

/// Target of a cursor reposition: absolute, relative to the current
/// position, or relative to the end of the file.
#[derive(Clone, Copy, Debug, PartialEq, Eq, Structural)]
pub enum SeekFrom {
    Start(usize),
    Current(i64),
    End(i64),
}

/// Strategy marker selecting the host file system as the backing
/// implementation. The bindings that perform real file I/O live outside the
/// verified core and attach to this marker; the verified model of the
/// behaviour they must exhibit is [`crate::storage::Storage`].
pub struct DefaultFileSystem;

} // verus!
