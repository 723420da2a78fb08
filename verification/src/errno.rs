//! The error numbers that the filesystem interface reports.
use vstd::prelude::*;

verus! {

/// An error number of the operating system, by name.
#[derive(Debug, Clone, Copy, PartialEq, Eq, Structural)]
pub enum Errno {
    EPERM,
    ENOENT,
    EINTR,
    EIO,
    EBADF,
    EACCES,
    EEXIST,
    ENOTDIR,
    EINVAL,
    EFBIG,
    ENAMETOOLONG,
}

/// The numbers that the operating system gives to the error names.
#[derive(Debug, Clone, Copy)]
pub struct ErrnoTable {
    pub eperm: i32,
    pub enoent: i32,
    pub eintr: i32,
    pub eio: i32,
    pub ebadf: i32,
    pub eacces: i32,
    pub eexist: i32,
    pub enotdir: i32,
    pub einval: i32,
    pub efbig: i32,
    pub enametoolong: i32,
}

/// The constants of `libc` for the error names. Their values differ
/// between operating systems, so nothing is claimed of them.
#[verifier::external_body]
fn libc_errnos() -> (table: ErrnoTable) {
    ErrnoTable {
        eperm: libc::EPERM,
        enoent: libc::ENOENT,
        eintr: libc::EINTR,
        eio: libc::EIO,
        ebadf: libc::EBADF,
        eacces: libc::EACCES,
        eexist: libc::EEXIST,
        enotdir: libc::ENOTDIR,
        einval: libc::EINVAL,
        efbig: libc::EFBIG,
        enametoolong: libc::ENAMETOOLONG,
    }
}

impl Errno {
    /// The number that `table` gives to this error name.
    pub open spec fn number_in(self, table: ErrnoTable) -> i32 {
        match self {
            Errno::EPERM => table.eperm,
            Errno::ENOENT => table.enoent,
            Errno::EINTR => table.eintr,
            Errno::EIO => table.eio,
            Errno::EBADF => table.ebadf,
            Errno::EACCES => table.eacces,
            Errno::EEXIST => table.eexist,
            Errno::ENOTDIR => table.enotdir,
            Errno::EINVAL => table.einval,
            Errno::EFBIG => table.efbig,
            Errno::ENAMETOOLONG => table.enametoolong,
        }
    }

    /// The number that `table` gives to this error name.
    pub fn pick(self, table: &ErrnoTable) -> (n: i32)
        ensures
            n == self.number_in(*table),
    {
        match self {
            Errno::EPERM => table.eperm,
            Errno::ENOENT => table.enoent,
            Errno::EINTR => table.eintr,
            Errno::EIO => table.eio,
            Errno::EBADF => table.ebadf,
            Errno::EACCES => table.eacces,
            Errno::EEXIST => table.eexist,
            Errno::ENOTDIR => table.enotdir,
            Errno::EINVAL => table.einval,
            Errno::EFBIG => table.efbig,
            Errno::ENAMETOOLONG => table.enametoolong,
        }
    }

    /// The number that this operating system gives to this error name.
    pub fn raw(self) -> (n: i32)
        ensures
            exists|table: ErrnoTable| n == #[trigger] self.number_in(table),
    {
        let table = libc_errnos();
        self.pick(&table)
    }
}

} // verus!
