//! Numbers of the operating system that the filesystem interface speaks
//! in: the bits of a file mode that say what kind of file it is, and the
//! access modes of an open call.
use vstd::prelude::*;
use crate::attr::FileType;

verus! {

/// The numbers that the operating system uses in file modes and in the
/// flags of an open call.
#[derive(Debug, Clone, Copy)]
pub struct SysTable {
    pub s_ifmt: u32,
    pub s_ififo: u32,
    pub s_ifsock: u32,
    pub s_iflnk: u32,
    pub s_ifreg: u32,
    pub s_ifblk: u32,
    pub s_ifdir: u32,
    pub s_ifchr: u32,
    pub o_rdonly: i32,
    pub o_wronly: i32,
    pub o_rdwr: i32,
}

/// The constants of `libc` for file modes and access modes. Nothing is
/// claimed of their values.
#[verifier::external_body]
pub(crate) fn libc_sys_table() -> (table: SysTable) {
    SysTable {
        s_ifmt: libc::S_IFMT,
        s_ififo: libc::S_IFIFO,
        s_ifsock: libc::S_IFSOCK,
        s_iflnk: libc::S_IFLNK,
        s_ifreg: libc::S_IFREG,
        s_ifblk: libc::S_IFBLK,
        s_ifdir: libc::S_IFDIR,
        s_ifchr: libc::S_IFCHR,
        o_rdonly: libc::O_RDONLY,
        o_wronly: libc::O_WRONLY,
        o_rdwr: libc::O_RDWR,
    }
}

/// The kind of file that the mode `mode` names under `table`, if any.
pub open spec fn file_type_in(table: SysTable, mode: u32) -> Option<FileType> {
    let kind = mode & (table.s_ifmt & 0xffff);
    if kind == table.s_ififo {
        Some(FileType::NamedPipe)
    } else if kind == table.s_ifsock {
        Some(FileType::Socket)
    } else if kind == table.s_iflnk {
        Some(FileType::Symlink)
    } else if kind == table.s_ifreg {
        Some(FileType::RegularFile)
    } else if kind == table.s_ifblk {
        Some(FileType::BlockDevice)
    } else if kind == table.s_ifdir {
        Some(FileType::Directory)
    } else if kind == table.s_ifchr {
        Some(FileType::CharDevice)
    } else {
        None
    }
}

/// The kind of file that the mode `mode` names under `table`, if any.
pub fn file_type_of(table: &SysTable, mode: u32) -> (kind: Option<FileType>)
    ensures
        kind == file_type_in(*table, mode),
{
    let kind: u32 = mode & (table.s_ifmt & 0xffff);
    if kind == table.s_ififo {
        Some(FileType::NamedPipe)
    } else if kind == table.s_ifsock {
        Some(FileType::Socket)
    } else if kind == table.s_iflnk {
        Some(FileType::Symlink)
    } else if kind == table.s_ifreg {
        Some(FileType::RegularFile)
    } else if kind == table.s_ifblk {
        Some(FileType::BlockDevice)
    } else if kind == table.s_ifdir {
        Some(FileType::Directory)
    } else if kind == table.s_ifchr {
        Some(FileType::CharDevice)
    } else {
        None
    }
}

/// The access that the flags `flags` of an open call ask for under
/// `table`, as permission bits: read, write, both, or nothing for flags
/// that name no access mode.
pub open spec fn access_mask_in(table: SysTable, flags: i32) -> u8 {
    let mode = flags & (table.o_rdonly | table.o_wronly | table.o_rdwr);
    if mode == table.o_rdonly {
        4
    } else if mode == table.o_wronly {
        2
    } else if mode == table.o_rdwr {
        6
    } else {
        0
    }
}

/// The access that the flags `flags` of an open call ask for under
/// `table`, as permission bits.
pub fn access_mask_of(table: &SysTable, flags: i32) -> (mask: u8)
    ensures
        mask == access_mask_in(*table, flags),
{
    let mode: i32 = flags & (table.o_rdonly | table.o_wronly | table.o_rdwr);
    if mode == table.o_rdonly {
        4
    } else if mode == table.o_wronly {
        2
    } else if mode == table.o_rdwr {
        6
    } else {
        0
    }
}

} // verus!
