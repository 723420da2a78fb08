//! The attributes of an inode.
use vstd::prelude::*;
use crate::ino::{Ino, ROOT_INO};

verus! {

/// Which attributes a `set_attr` call sets: a set of flags.
#[derive(Debug, Clone, Copy, PartialEq, Eq, Structural)]
pub struct SetAttrFlags(pub u32);

/// Set the permission bits.
pub const SET_ATTR_MODE: u32 = 0x1;

/// Set the owner.
pub const SET_ATTR_UID: u32 = 0x2;

/// Set the group.
pub const SET_ATTR_GID: u32 = 0x4;

/// Set the length.
pub const SET_ATTR_SIZE: u32 = 0x8;

/// Set the time of last access.
pub const SET_ATTR_ATIME: u32 = 0x10;

/// Set the time of last modification.
pub const SET_ATTR_MTIME: u32 = 0x20;

/// Set the time of last change.
pub const SET_ATTR_CTIME: u32 = 0x40;

/// Set the time of last access to now.
pub const SET_ATTR_ATIME_NOW: u32 = 0x80;

/// Set the time of last modification to now.
pub const SET_ATTR_MTIME_NOW: u32 = 0x100;

/// Set the flags.
pub const SET_ATTR_FLAG: u32 = 0x8000;

/// All flags that are defined.
pub const SET_ATTR_ALL: u32 = 0x81FF;

impl SetAttrFlags {
    /// Whether every flag of `other` is in this set.
    pub open spec fn has(self, other: u32) -> bool {
        self.0 & other == other
    }

    /// The set made of the flags `bits`, if all of them are defined.
    pub fn from_bits(bits: u32) -> (flags: Option<SetAttrFlags>)
        ensures
            flags == if bits & !SET_ATTR_ALL == 0 {
                Some(SetAttrFlags(bits))
            } else {
                None
            },
    {
        if bits & !SET_ATTR_ALL == 0 {
            Some(SetAttrFlags(bits))
        } else {
            None
        }
    }

    /// The flags as a number.
    pub fn bits(&self) -> (bits: u32)
        ensures
            bits == self.0,
    {
        self.0
    }

    /// Whether every flag of `other` is in this set.
    pub fn contains(&self, other: u32) -> (b: bool)
        ensures
            b == self.has(other),
    {
        self.0 & other == other
    }
}

/// The flags sit at the bit positions 0 to 8 and 15, and a set has a flag
/// exactly if the flag's bit is set.
pub proof fn lemma_set_attr_flag_bits(bits: u32)
    ensures
        SET_ATTR_MODE == 1u32 << 0,
        SET_ATTR_UID == 1u32 << 1,
        SET_ATTR_GID == 1u32 << 2,
        SET_ATTR_SIZE == 1u32 << 3,
        SET_ATTR_ATIME == 1u32 << 4,
        SET_ATTR_MTIME == 1u32 << 5,
        SET_ATTR_CTIME == 1u32 << 6,
        SET_ATTR_ATIME_NOW == 1u32 << 7,
        SET_ATTR_MTIME_NOW == 1u32 << 8,
        SET_ATTR_FLAG == 1u32 << 15,
        SetAttrFlags(bits).has(SET_ATTR_SIZE) <==> (bits >> 3) & 1 == 1,
        SetAttrFlags(bits).has(SET_ATTR_FLAG) <==> (bits >> 15) & 1 == 1,
{
    assert(0x1u32 == 1u32 << 0) by (bit_vector);
    assert(0x2u32 == 1u32 << 1) by (bit_vector);
    assert(0x4u32 == 1u32 << 2) by (bit_vector);
    assert(0x8u32 == 1u32 << 3) by (bit_vector);
    assert(0x10u32 == 1u32 << 4) by (bit_vector);
    assert(0x20u32 == 1u32 << 5) by (bit_vector);
    assert(0x40u32 == 1u32 << 6) by (bit_vector);
    assert(0x80u32 == 1u32 << 7) by (bit_vector);
    assert(0x100u32 == 1u32 << 8) by (bit_vector);
    assert(0x8000u32 == 1u32 << 15) by (bit_vector);
    assert((bits & 0x8u32 == 0x8u32) <==> ((bits >> 3) & 1 == 1)) by (bit_vector);
    assert((bits & 0x8000u32 == 0x8000u32) <==> ((bits >> 15) & 1 == 1)) by (bit_vector);
}

/// The kind of a file.
#[derive(Debug, Clone, Copy, PartialEq, Eq, Structural)]
pub enum FileType {
    NamedPipe,
    CharDevice,
    BlockDevice,
    Directory,
    RegularFile,
    Symlink,
    Socket,
}

/// A point in time: seconds and nanoseconds since the start of 1970.
#[derive(Debug, Clone, Copy, PartialEq, Eq, Structural)]
pub struct Timestamp {
    pub secs: u64,
    pub nanos: u32,
}

/// The start of 1970.
pub open spec fn unix_epoch() -> Timestamp {
    Timestamp { secs: 0, nanos: 0 }
}

impl Timestamp {
    /// The start of 1970.
    pub fn epoch() -> (t: Timestamp)
        ensures
            t == unix_epoch(),
    {
        Timestamp { secs: 0, nanos: 0 }
    }
}

/// The attributes of an inode.
#[derive(Debug, Clone, Copy, PartialEq, Eq, Structural)]
pub struct InodeAttr {
    /// Flags of the file.
    pub flags: u32,
    /// Kind of file.
    pub kind: FileType,
    /// Permission bits.
    pub perm: u16,
    /// Owner.
    pub uid: u32,
    /// Group of the owner.
    pub gid: u32,
    /// Device number.
    pub rdev: u32,
    /// Time of last access.
    pub atime: Timestamp,
    /// Time of last modification.
    pub mtime: Timestamp,
    /// Time of last change.
    pub ctime: Timestamp,
    /// Time of creation.
    pub crtime: Timestamp,
    /// Number of hard links.
    pub nlink: u32,
    /// Length of a regular file.
    pub length: u64,
    /// Inode of the parent; zero for an inode with several parents.
    pub parent: Ino,
    /// Whether cached pages of the file are to be kept.
    pub keep_cache: bool,
}

/// The attributes of an inode as the kernel interface wants them.
#[derive(Debug, Clone, Copy, PartialEq, Eq, Structural)]
pub struct FuseAttr {
    pub ino: u64,
    pub size: u64,
    pub blocks: u64,
    pub atime: Timestamp,
    pub mtime: Timestamp,
    pub ctime: Timestamp,
    pub crtime: Timestamp,
    pub kind: FileType,
    pub perm: u16,
    pub nlink: u32,
    pub uid: u32,
    pub gid: u32,
    pub rdev: u32,
    pub blksize: u32,
    pub flags: u32,
}

impl InodeAttr {
    /// The access bits that `uid` with the groups `gids` has: all for the
    /// superuser; the owner's for the owner; the group's for a member of
    /// the group; the others' for everyone else.
    pub open spec fn granted(self, uid: u32, gids: Seq<u32>) -> u8 {
        if uid == 0 {
            7
        } else if uid == self.uid {
            ((self.perm >> 6) & 7) as u8
        } else if gids.contains(self.gid) {
            ((self.perm >> 3) & 7) as u8
        } else {
            (self.perm & 7) as u8
        }
    }

    /// Whether the size of an inode of this kind is its length.
    pub open spec fn has_size(self) -> bool {
        self.kind is Directory || self.kind is Symlink || self.kind is RegularFile
    }

    /// These attributes as the kernel interface wants them, for the inode
    /// number `ino`: only directories, symbolic links and regular files
    /// have a size, counted in blocks of 512 bytes as well.
    pub open spec fn fuse_attr(self, ino: u64) -> FuseAttr {
        FuseAttr {
            ino,
            size: if self.has_size() {
                self.length
            } else {
                0
            },
            blocks: if self.has_size() {
                ((self.length + 511) / 512) as u64
            } else {
                0
            },
            atime: self.atime,
            mtime: self.mtime,
            ctime: self.ctime,
            crtime: self.crtime,
            kind: self.kind,
            perm: self.perm,
            nlink: self.nlink,
            uid: self.uid,
            gid: self.gid,
            rdev: self.rdev,
            blksize: 0x10000,
            flags: self.flags,
        }
    }

    /// The attributes of a new regular file without permissions, made at
    /// the time `now` by the user `uid` of the group `gid`.
    pub fn default_at(now: Timestamp, uid: u32, gid: u32) -> (attr: InodeAttr)
        ensures
            attr == (InodeAttr {
                flags: 0,
                kind: FileType::RegularFile,
                perm: 0,
                uid,
                gid,
                rdev: 0,
                atime: now,
                mtime: now,
                ctime: now,
                crtime: now,
                nlink: 1,
                length: 0,
                parent: Ino(0),
                keep_cache: false,
            }),
    {
        InodeAttr {
            atime: now,
            mtime: now,
            ctime: now,
            crtime: now,
            kind: FileType::RegularFile,
            perm: 0,
            nlink: 1,
            length: 0,
            parent: Ino(0),
            uid,
            gid,
            rdev: 0,
            flags: 0,
            keep_cache: false,
        }
    }

    /// The kind of the file.
    pub fn get_filetype(&self) -> (kind: FileType)
        ensures
            kind == self.kind,
    {
        self.kind
    }

    /// Whether the file is of the kind `typ`.
    pub fn is_filetype(&self, typ: FileType) -> (b: bool)
        ensures
            b == (self.kind == typ),
    {
        self.kind == typ
    }

    /// Whether the file is a directory.
    pub fn is_dir(&self) -> (b: bool)
        ensures
            b == (self.kind is Directory),
    {
        self.kind == FileType::Directory
    }

    /// Whether the file is a regular file.
    pub fn is_file(&self) -> (b: bool)
        ensures
            b == (self.kind is RegularFile),
    {
        self.kind == FileType::RegularFile
    }

    /// The attributes that stand in for those of the root or of the trash
    /// directory when the metadata service does not answer in time.
    pub fn hard_code_inode_attr(is_trash: bool) -> (attr: InodeAttr)
        ensures
            attr == (InodeAttr {
                flags: 0,
                kind: FileType::Directory,
                perm: if is_trash {
                    0o555
                } else {
                    0o777
                },
                uid: 0,
                gid: 0,
                rdev: 0,
                atime: unix_epoch(),
                mtime: unix_epoch(),
                ctime: unix_epoch(),
                crtime: unix_epoch(),
                nlink: 2,
                length: 4096,
                parent: Ino(ROOT_INO),
                keep_cache: false,
            }),
    {
        InodeAttr {
            flags: 0,
            kind: FileType::Directory,
            perm: if is_trash {
                0o555
            } else {
                0o777
            },
            uid: 0,
            gid: 0,
            rdev: 0,
            atime: Timestamp::epoch(),
            mtime: Timestamp::epoch(),
            ctime: Timestamp::epoch(),
            crtime: Timestamp::epoch(),
            nlink: 2,
            length: 4096,
            parent: Ino(ROOT_INO),
            keep_cache: false,
        }
    }

    /// Sets the flags. Returns the attributes, to be changed further.
    pub fn set_flags(&mut self, flags: u32) -> (r: &mut Self)
        ensures
            *r == (InodeAttr { flags, ..*old(self) }),
            *final(self) == *final(r),
    {
        self.flags = flags;
        self
    }

    /// Sets the permission bits. Returns the attributes, to be changed further.
    pub fn set_perm(&mut self, perm: u16) -> (r: &mut Self)
        ensures
            *r == (InodeAttr { perm, ..*old(self) }),
            *final(self) == *final(r),
    {
        self.perm = perm;
        self
    }

    /// Sets the kind of file. Returns the attributes, to be changed further.
    pub fn set_kind(&mut self, kind: FileType) -> (r: &mut Self)
        ensures
            *r == (InodeAttr { kind, ..*old(self) }),
            *final(self) == *final(r),
    {
        self.kind = kind;
        self
    }

    /// Sets the number of hard links. Returns the attributes, to be changed further.
    pub fn set_nlink(&mut self, nlink: u32) -> (r: &mut Self)
        ensures
            *r == (InodeAttr { nlink, ..*old(self) }),
            *final(self) == *final(r),
    {
        self.nlink = nlink;
        self
    }

    /// Sets the length. Returns the attributes, to be changed further.
    pub fn set_length(&mut self, length: u64) -> (r: &mut Self)
        ensures
            *r == (InodeAttr { length, ..*old(self) }),
            *final(self) == *final(r),
    {
        self.length = length;
        self
    }

    /// Sets the device number. Returns the attributes, to be changed further.
    pub fn set_rdev(&mut self, rdev: u32) -> (r: &mut Self)
        ensures
            *r == (InodeAttr { rdev, ..*old(self) }),
            *final(self) == *final(r),
    {
        self.rdev = rdev;
        self
    }

    /// Sets the group. Returns the attributes, to be changed further.
    pub fn set_gid(&mut self, gid: u32) -> (r: &mut Self)
        ensures
            *r == (InodeAttr { gid, ..*old(self) }),
            *final(self) == *final(r),
    {
        self.gid = gid;
        self
    }

    /// Sets the owner. Returns the attributes, to be changed further.
    pub fn set_uid(&mut self, uid: u32) -> (r: &mut Self)
        ensures
            *r == (InodeAttr { uid, ..*old(self) }),
            *final(self) == *final(r),
    {
        self.uid = uid;
        self
    }

    /// Sets the parent. Returns the attributes, to be changed further.
    pub fn set_parent(&mut self, parent: Ino) -> (r: &mut Self)
        ensures
            *r == (InodeAttr { parent, ..*old(self) }),
            *final(self) == *final(r),
    {
        self.parent = parent;
        self
    }

    /// Sets the time of last access. Returns the attributes, to be changed further.
    pub fn set_atime(&mut self, t: Timestamp) -> (r: &mut Self)
        ensures
            *r == (InodeAttr { atime: t, ..*old(self) }),
            *final(self) == *final(r),
    {
        self.atime = t;
        self
    }

    /// Sets the time of last modification. Returns the attributes, to be changed further.
    pub fn set_mtime(&mut self, t: Timestamp) -> (r: &mut Self)
        ensures
            *r == (InodeAttr { mtime: t, ..*old(self) }),
            *final(self) == *final(r),
    {
        self.mtime = t;
        self
    }

    /// Sets the time of last change. Returns the attributes, to be changed further.
    pub fn set_ctime(&mut self, t: Timestamp) -> (r: &mut Self)
        ensures
            *r == (InodeAttr { ctime: t, ..*old(self) }),
            *final(self) == *final(r),
    {
        self.ctime = t;
        self
    }

    /// Asks for the cached pages of the file to be kept. Returns the attributes, to be changed further.
    pub fn keep_cache(&mut self) -> (r: &mut Self)
        ensures
            *r == (InodeAttr { keep_cache: true, ..*old(self) }),
            *final(self) == *final(r),
    {
        self.keep_cache = true;
        self
    }

    /// The access bits that `uid` with the groups `gids` has on the file.
    pub fn access_perm(&self, uid: u32, gids: &Vec<u32>) -> (perm: u8)
        ensures
            perm == self.granted(uid, gids@),
            perm <= 7,
    {
        proof {
            let p = self.perm;
            assert(((p >> 6) & 7) as u8 <= 7 && ((p >> 3) & 7) as u8 <= 7 && (p & 7) as u8 <= 7)
                by (bit_vector);
        }
        if uid == 0 {
            return 0x7;
        }
        let perm: u16 = self.perm;
        if uid == self.uid {
            return ((perm >> 6) & 7) as u8;
        }
        let mut i: usize = 0;
        while i < gids.len()
            invariant
                i <= gids.len(),
                forall|j: int| 0 <= j < i ==> gids[j] != self.gid,
                perm == self.perm,
                uid != 0,
                uid != self.uid,
                ((perm >> 3) & 7) as u8 <= 7,
            decreases gids.len() - i,
        {
            if gids[i] == self.gid {
                assert(gids@[i as int] == self.gid);
                return ((perm >> 3) & 7) as u8;
            }
            i = i + 1;
        }
        (perm & 7) as u8
    }

    /// These attributes as the kernel interface wants them, for the inode
    /// number `ino`.
    pub fn to_fuse_attr(&self, ino: u64) -> (fa: FuseAttr)
        ensures
            fa == self.fuse_attr(ino),
    {
        let sized: bool = match self.kind {
            FileType::Directory | FileType::Symlink | FileType::RegularFile => true,
            _ => false,
        };
        let size: u64 = if sized {
            self.length
        } else {
            0
        };
        let odd: u64 = if size % 512 != 0 {
            1
        } else {
            0
        };
        let blocks: u64 = size / 512 + odd;
        FuseAttr {
            ino,
            size,
            blocks,
            atime: self.atime,
            mtime: self.mtime,
            ctime: self.ctime,
            crtime: self.crtime,
            kind: self.kind,
            perm: self.perm,
            nlink: self.nlink,
            uid: self.uid,
            gid: self.gid,
            rdev: self.rdev,
            blksize: 0x10000,
            flags: self.flags,
        }
    }
}

} // verus!
