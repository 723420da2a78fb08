//! Error values of the data path and of the filesystem interface.
use vstd::prelude::*;
use crate::errno::Errno;

verus! {

/// Errors that stand for an error number of the operating system.
pub trait ToErrno {
    /// The error number that the filesystem interface reports for `self`.
    fn to_errno(&self) -> Errno;
}

/// What can go wrong between the page pool, the buffers and the object store.
#[derive(Debug, Clone, Copy, PartialEq, Eq, Structural)]
pub enum StorageError {
    /// The page file could not be created, sized or mapped.
    Mmap,
    /// Copying bytes to or from the page file failed.
    Io,
    /// A range does not fit the page, buffer or image it addresses.
    Bounds,
    /// The data ended before the expected length.
    Eof,
    /// No memory was left for a buffer.
    OutOfMemory,
    /// The object store reported a failure.
    ObjectStorage,
    /// A worker could not be joined.
    Join,
    /// The worker with this id has stopped.
    WorkerStopped { id: u32 },
    /// The file handle is not known.
    InvalidFH { fh: u64 },
}

/// What the filesystem layer itself reports.
#[derive(Debug, Clone, Copy, PartialEq, Eq, Structural)]
pub enum VFSError {
    /// An error that is an error number already.
    ErrLIBC { kind: Errno },
    /// The reader of this file handle is closing and serves no more reads.
    ThisFileReaderIsClosing { ino: u64, fh: u64 },
}

impl ToErrno for StorageError {
    /// Every failure of the storage layer interrupts the call.
    fn to_errno(&self) -> (e: Errno)
        ensures
            e == Errno::EINTR,
    {
        Errno::EINTR
    }
}

impl VFSError {
    /// The error number of this error: its own, or "bad file descriptor"
    /// for a reader that is closing.
    pub open spec fn errno(self) -> Errno {
        match self {
            VFSError::ErrLIBC { kind } => kind,
            VFSError::ThisFileReaderIsClosing { .. } => Errno::EBADF,
        }
    }
}

impl ToErrno for VFSError {
    fn to_errno(&self) -> (e: Errno)
        ensures
            e == self.errno(),
    {
        match self {
            VFSError::ErrLIBC { kind } => *kind,
            VFSError::ThisFileReaderIsClosing { .. } => Errno::EBADF,
        }
    }
}

/// The storage layer's errors, seen from the filesystem layer.
pub fn storage_error_to_vfs(e: StorageError) -> (v: VFSError)
    ensures
        v == (VFSError::ErrLIBC { kind: Errno::EINTR }),
{
    VFSError::ErrLIBC { kind: Errno::EINTR }
}

} // verus!
