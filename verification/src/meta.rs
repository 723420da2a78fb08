//! The decisions of the metadata engine that need no storage: who may do
//! what, which inode a name stands for before anything is looked up, what
//! an error means to the caller, and what the counters say of the volume.
use vstd::prelude::*;
use crate::attr::{FileType, InodeAttr};
use crate::err::{StorageError, ToErrno, VFSError};
use crate::errno::Errno;
use crate::ino::{Ino, ROOT_INO, TRASH_INODE};
use crate::internal_nodes::TRASH_INODE_NAME;

verus! {

/// The name of a directory itself.
pub const DOT: &'static str = ".";

/// The name of the parent of a directory.
pub const DOT_DOT: &'static str = "..";

/// Who asks, and when.
#[derive(Debug, Clone, PartialEq, Eq)]
pub struct MetaContext {
    pub gid: u32,
    pub gid_list: Vec<u32>,
    pub uid: u32,
    pub pid: u32,
    pub check_permission: bool,
    pub start_at: u64,
}

/// What the metadata engine reports.
#[derive(Debug, Clone, Copy, PartialEq, Eq, Structural)]
pub enum MetaError {
    ErrMetaHasNotBeenInitializedYet,
    ErrInvalidFormatVersion,
    FailedToParseScheme,
    FailedToOpenOperator,
    ErrBadAccessPerm { inode: Ino, want: u8, grant: u8 },
    ErrNotDir { inode: Ino },
    ErrLookupFailed { parent: Ino },
    ErrBincodeDeserializeFailed,
    ErrOpendalRead,
    ErrFailedToReadFromSto { not_found: bool },
    ErrFailedToWriteToSto,
    ErrOpendalList,
    ErrMknod { kind: Errno },
    ErrFailedToDoCounter,
    ErrLibc { kind: Errno },
    ErrAsyncTimeout,
    ErrInternalSliceError,
}

impl MetaError {
    /// The error number that stands for this error.
    pub open spec fn errno(self) -> Errno {
        match self {
            MetaError::FailedToParseScheme => Errno::EINVAL,
            MetaError::FailedToOpenOperator => Errno::EIO,
            MetaError::ErrBadAccessPerm { .. } => Errno::EACCES,
            MetaError::ErrNotDir { .. } => Errno::ENOTDIR,
            MetaError::ErrLookupFailed { .. } => Errno::ENOENT,
            MetaError::ErrBincodeDeserializeFailed => Errno::EIO,
            MetaError::ErrOpendalRead => Errno::ENOENT,
            MetaError::ErrFailedToReadFromSto { not_found } => if not_found {
                Errno::ENOENT
            } else {
                Errno::EIO
            },
            MetaError::ErrOpendalList => Errno::EIO,
            MetaError::ErrInvalidFormatVersion => Errno::EBADF,
            MetaError::ErrMknod { kind } => kind,
            MetaError::ErrFailedToDoCounter => Errno::EIO,
            MetaError::ErrFailedToWriteToSto => Errno::EIO,
            MetaError::ErrMetaHasNotBeenInitializedYet => Errno::EIO,
            MetaError::ErrLibc { kind } => kind,
            MetaError::ErrAsyncTimeout => Errno::EINTR,
            MetaError::ErrInternalSliceError => Errno::EINTR,
        }
    }
}

impl ToErrno for MetaError {
    fn to_errno(&self) -> (e: Errno)
        ensures
            e == self.errno(),
    {
        match self {
            MetaError::FailedToParseScheme => Errno::EINVAL,
            MetaError::FailedToOpenOperator => Errno::EIO,
            MetaError::ErrBadAccessPerm { .. } => Errno::EACCES,
            MetaError::ErrNotDir { .. } => Errno::ENOTDIR,
            MetaError::ErrLookupFailed { .. } => Errno::ENOENT,
            MetaError::ErrBincodeDeserializeFailed => Errno::EIO,
            MetaError::ErrOpendalRead => Errno::ENOENT,
            MetaError::ErrFailedToReadFromSto { not_found } => if *not_found {
                Errno::ENOENT
            } else {
                Errno::EIO
            },
            MetaError::ErrOpendalList => Errno::EIO,
            MetaError::ErrInvalidFormatVersion => Errno::EBADF,
            MetaError::ErrMknod { kind } => *kind,
            MetaError::ErrFailedToDoCounter => Errno::EIO,
            MetaError::ErrFailedToWriteToSto => Errno::EIO,
            MetaError::ErrMetaHasNotBeenInitializedYet => Errno::EIO,
            MetaError::ErrLibc { kind } => *kind,
            MetaError::ErrAsyncTimeout => Errno::EINTR,
            MetaError::ErrInternalSliceError => Errno::EINTR,
        }
    }
}

/// An error of any layer.
#[allow(inconsistent_fields)]
#[derive(Debug, Clone, Copy, PartialEq, Eq, Structural)]
pub enum Error {
    _MetaError { source: MetaError },
    _VFSError { source: VFSError },
    _ChunkError { source: StorageError },
}

impl Error {
    /// The error number that stands for this error: that of its source.
    pub open spec fn errno(self) -> Errno {
        match self {
            Error::_MetaError { source } => source.errno(),
            Error::_VFSError { source } => source.errno(),
            Error::_ChunkError { source } => Errno::EINTR,
        }
    }
}

impl ToErrno for Error {
    fn to_errno(&self) -> (e: Errno)
        ensures
            e == self.errno(),
    {
        match self {
            Error::_MetaError { source } => source.to_errno(),
            Error::_VFSError { source } => source.to_errno(),
            Error::_ChunkError { source } => source.to_errno(),
        }
    }
}

impl From<MetaError> for Error {
    fn from(value: MetaError) -> (e: Error) {
        Error::_MetaError { source: value }
    }
}

impl vstd::std_specs::convert::FromSpecImpl<MetaError> for Error {
    open spec fn obeys_from_spec() -> bool {
        true
    }

    open spec fn from_spec(value: MetaError) -> Error {
        Error::_MetaError { source: value }
    }
}

/// Whether `ctx` may do to the inode what `perm_mask` asks for: the
/// superuser may, and so may anyone when permissions are not checked;
/// everyone else needs every bit of the mask among the bits that the
/// attributes grant.
pub open spec fn may_access(ctx: MetaContext, attr: InodeAttr, perm_mask: u8) -> bool {
    ctx.uid == 0 || !ctx.check_permission || attr.granted(ctx.uid, ctx.gid_list@) & perm_mask
        == perm_mask
}

/// Checks that `ctx` may do to `inode` what `perm_mask` asks for.
pub fn access(ctx: &MetaContext, inode: Ino, attr: &InodeAttr, perm_mask: u8) -> (res: Result<
    (),
    MetaError,
>)
    ensures
        res is Ok <==> may_access(*ctx, *attr, perm_mask),
        res is Err ==> res->Err_0 == (MetaError::ErrBadAccessPerm {
            inode,
            want: perm_mask,
            grant: attr.granted(ctx.uid, ctx.gid_list@),
        }),
{
    if ctx.uid == 0 {
        return Ok(());
    }
    if !ctx.check_permission {
        return Ok(());
    }
    let perm: u8 = attr.access_perm(ctx.uid, &ctx.gid_list);
    if perm & perm_mask != perm_mask {
        return Err(MetaError::ErrBadAccessPerm { inode, want: perm_mask, grant: perm });
    }
    Ok(())
}

/// The inode that `inode` stands for in a volume whose root directory is
/// `root`: the root of the filesystem for no inode, `root` for the root of
/// the filesystem, and itself otherwise.
pub fn check_root(inode: Ino, root: Ino) -> (resolved: Ino)
    ensures
        resolved == if inode.0 == 0 {
            Ino(ROOT_INO)
        } else if inode.0 == ROOT_INO {
            root
        } else {
            inode
        },
{
    if inode.is_zero() {
        Ino(ROOT_INO)
    } else if inode.is_root() {
        root
    } else {
        inode
    }
}

/// How a lookup goes on once the parent is known to be searchable.
#[derive(Debug, Clone, Copy, PartialEq, Eq, Structural)]
pub enum LookupStep {
    /// The name stands for the directory itself.
    SelfOf(Ino),
    /// The name stands for the parent of this directory, which is not the
    /// root: its attributes say which inode that is.
    ParentOf(Ino),
    /// The name stands for the trash directory.
    Trash,
    /// The name is to be looked up among the entries of this directory.
    Entry(Ino),
}

/// How the lookup of `name` in `parent` goes on, in a volume whose root
/// directory is `root`.
pub open spec fn lookup_step_of(root: Ino, parent: Ino, name: Seq<char>) -> LookupStep {
    if name == DOT_DOT@ {
        if parent == root {
            LookupStep::SelfOf(parent)
        } else {
            LookupStep::ParentOf(parent)
        }
    } else if name == DOT@ {
        LookupStep::SelfOf(parent)
    } else if parent.0 == ROOT_INO && name == TRASH_INODE_NAME@ {
        LookupStep::Trash
    } else {
        LookupStep::Entry(parent)
    }
}

/// Decides how the lookup of `name` in `parent` goes on.
pub fn lookup_step(root: Ino, parent: Ino, name: &str) -> (step: LookupStep)
    ensures
        step == lookup_step_of(root, parent, name@),
{
    let wanted: String = name.to_owned();
    if wanted == DOT_DOT.to_owned() {
        if parent.0 == root.0 {
            LookupStep::SelfOf(parent)
        } else {
            LookupStep::ParentOf(parent)
        }
    } else if wanted == DOT.to_owned() {
        LookupStep::SelfOf(parent)
    } else if parent.0 == ROOT_INO && wanted == TRASH_INODE_NAME.to_owned() {
        LookupStep::Trash
    } else {
        LookupStep::Entry(parent)
    }
}

/// The parent of the directory `inode` with the attributes `attr`; only a
/// directory has one.
pub fn parent_of(inode: Ino, attr: &InodeAttr) -> (res: Result<Ino, MetaError>)
    ensures
        res == if attr.kind is Directory {
            Ok::<Ino, MetaError>(attr.parent)
        } else {
            Err::<Ino, MetaError>(MetaError::ErrNotDir { inode })
        },
{
    if attr.get_filetype() != FileType::Directory {
        return Err(MetaError::ErrNotDir { inode });
    }
    Ok(attr.parent)
}

/// Whether a lookup that found a file of the kind `kind` in `parent`
/// remembers `parent` as the parent of what it found: it does for a
/// directory outside the trash.
pub fn remembers_parent(kind: FileType, parent: Ino) -> (b: bool)
    ensures
        b == (kind is Directory && parent.0 < TRASH_INODE),
{
    kind == FileType::Directory && !parent.is_trash()
}

/// The attributes that stand in for those of `inode` when the metadata
/// service does not answer in time: the root and the trash directory have
/// such, no other inode has.
pub fn attr_fallback(inode: Ino) -> (attr: Option<InodeAttr>)
    ensures
        attr is Some <==> inode.0 == ROOT_INO || inode.0 >= TRASH_INODE,
        attr matches Some(a) ==> a.kind is Directory && a.perm == if inode.0 >= TRASH_INODE {
            0o555u16
        } else {
            0o777u16
        } && a.nlink == 2 && a.length == 4096 && a.parent == Ino(ROOT_INO) && a.uid == 0 && a.gid
            == 0,
{
    if inode.is_trash() || inode.is_root() {
        Some(InodeAttr::hard_code_inode_attr(inode.is_trash()))
    } else {
        None
    }
}

/// Whether reading the attributes `attr` of `inode` makes the engine
/// remember the parent of `inode`: it does for a directory that is not the
/// root and does not lie in the trash.
pub fn records_dir_parent(inode: Ino, attr: &InodeAttr) -> (b: bool)
    ensures
        b == (attr.kind is Directory && inode.0 != ROOT_INO && attr.parent.0 < TRASH_INODE),
{
    attr.is_filetype(FileType::Directory) && !inode.is_root() && !attr.parent.is_trash()
}

} // verus!
