//! Inode numbers and the numbers set aside for special inodes.
use vstd::prelude::*;

verus! {

/// The number of no inode.
pub const ZERO_INO: u64 = 0;

/// The root directory.
pub const ROOT_INO: u64 = 1;

/// The first of the numbers set aside for internal inodes.
pub const MIN_INTERNAL_INODE: u64 = 0x7FFF_FFFF_0000_0000;

/// The access log.
pub const LOG_INODE: u64 = 0x7FFF_FFFF_0000_0001;

/// The control file.
pub const CONTROL_INODE: u64 = 0x7FFF_FFFF_0000_0002;

/// The statistics file.
pub const STATS_INODE: u64 = 0x7FFF_FFFF_0000_0003;

/// The configuration file.
pub const CONFIG_INODE: u64 = 0x7FFF_FFFF_0000_0004;

/// The last of the numbers set aside for internal inodes.
pub const MAX_INTERNAL_INODE: u64 = 0x7FFF_FFFF_1000_0000;

/// The trash directory.
pub const TRASH_INODE: u64 = 0x7FFF_FFFF_1000_0000;

/// The number of an inode.
#[derive(Debug, Clone, Copy, PartialEq, Eq, Hash, Structural)]
pub struct Ino(pub u64);

impl Ino {
    /// Whether this is the number of no inode.
    pub fn is_zero(&self) -> (b: bool)
        ensures
            b == (self.0 == ZERO_INO),
    {
        self.0 == ZERO_INO
    }

    /// Whether this is the root directory.
    pub fn is_root(&self) -> (b: bool)
        ensures
            b == (self.0 == ROOT_INO),
    {
        self.0 == ROOT_INO
    }

    /// Whether this is the trash directory or lies behind it.
    pub fn is_trash(&self) -> (b: bool)
        ensures
            b == (self.0 >= TRASH_INODE),
    {
        self.0 >= TRASH_INODE
    }

    /// Whether the number is set aside for an internal inode.
    pub fn is_special(&self) -> (b: bool)
        ensures
            b == (self.0 >= MIN_INTERNAL_INODE),
    {
        self.0 >= MIN_INTERNAL_INODE
    }

    /// Whether the number is an ordinary one.
    pub fn is_normal(&self) -> (b: bool)
        ensures
            b == (self.0 < MIN_INTERNAL_INODE),
    {
        !self.is_special()
    }
}

} // verus!
