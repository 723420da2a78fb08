use kisekifs::attr::{
    FileType, InodeAttr, SetAttrFlags, Timestamp, SET_ATTR_ATIME, SET_ATTR_FLAG, SET_ATTR_GID,
    SET_ATTR_MODE, SET_ATTR_MTIME_NOW, SET_ATTR_SIZE, SET_ATTR_UID,
};
use kisekifs::ino::{
    Ino, CONFIG_INODE, CONTROL_INODE, LOG_INODE, MIN_INTERNAL_INODE, ROOT_INO, STATS_INODE,
    TRASH_INODE,
};

fn now() -> Timestamp {
    Timestamp { secs: 1_700_000_000, nanos: 5 }
}

#[test]
fn attr_modify() {
    let mut attr = InodeAttr::default_at(now(), 1, 2)
        .set_perm(0o777)
        .set_kind(FileType::Directory)
        .set_gid(11)
        .set_uid(22)
        .to_owned();
    attr.set_parent(Ino(1));

    assert_eq!(attr.perm, 0o777);
    assert_eq!(attr.kind, FileType::Directory);
    assert_eq!(attr.gid, 11);
    assert_eq!(attr.uid, 22);
    assert_eq!(attr.parent, Ino(1));
}

#[test]
fn attr_default_is_an_empty_regular_file() {
    let attr = InodeAttr::default_at(now(), 1, 2);
    assert!(attr.is_file());
    assert!(!attr.is_dir());
    assert!(attr.is_filetype(FileType::RegularFile));
    assert_eq!(attr.get_filetype(), FileType::RegularFile);
    assert_eq!((attr.perm, attr.nlink, attr.length, attr.uid, attr.gid), (0, 1, 0, 1, 2));
    assert_eq!(attr.atime, now());
    assert_eq!(attr.crtime, now());
    assert!(!attr.keep_cache);
}

#[test]
fn attr_setters_set_one_field_each() {
    let base = InodeAttr::default_at(now(), 1, 2);
    let t = Timestamp { secs: 9, nanos: 9 };
    let mut a = base;
    a.set_flags(3).set_nlink(4).set_length(5).set_rdev(6).set_atime(t).keep_cache();
    assert_eq!(
        a,
        InodeAttr { flags: 3, nlink: 4, length: 5, rdev: 6, atime: t, keep_cache: true, ..base }
    );
    let mut b = base;
    b.set_mtime(t);
    assert_eq!(b, InodeAttr { mtime: t, ..base });
    let mut c = base;
    c.set_ctime(t);
    assert_eq!(c, InodeAttr { ctime: t, ..base });
}

#[test]
fn hard_coded_attrs() {
    let root = InodeAttr::hard_code_inode_attr(false);
    let trash = InodeAttr::hard_code_inode_attr(true);
    assert_eq!(root.perm, 0o777);
    assert_eq!(trash.perm, 0o555);
    for a in [root, trash] {
        assert!(a.is_dir());
        assert_eq!((a.nlink, a.length, a.uid, a.gid), (2, 4096, 0, 0));
        assert_eq!(a.parent, Ino(ROOT_INO));
        assert_eq!(a.atime, Timestamp { secs: 0, nanos: 0 });
        assert_eq!(a.atime, Timestamp::epoch());
    }
}

#[test]
fn access_perm_by_owner_group_and_others() {
    let mut attr = InodeAttr::default_at(now(), 1000, 100);
    attr.set_perm(0o754);
    assert_eq!(attr.access_perm(0, &vec![]), 7);
    assert_eq!(attr.access_perm(1000, &vec![]), 7);
    assert_eq!(attr.access_perm(1000, &vec![100]), 7);
    assert_eq!(attr.access_perm(1001, &vec![5, 100]), 5);
    assert_eq!(attr.access_perm(1001, &vec![5, 6]), 4);
    assert_eq!(attr.access_perm(1001, &vec![]), 4);
    attr.set_perm(0o1640);
    assert_eq!(attr.access_perm(1000, &vec![]), 6);
    assert_eq!(attr.access_perm(7, &vec![100]), 4);
    assert_eq!(attr.access_perm(7, &vec![]), 0);
}

#[test]
fn fuse_attr_counts_blocks_of_512_bytes() {
    let mut attr = InodeAttr::default_at(now(), 1, 2);
    for (len, blocks) in [(0u64, 0u64), (1, 1), (512, 1), (513, 2), (4096, 8), (u64::MAX, 1 << 55)] {
        attr.set_length(len);
        let fa = attr.to_fuse_attr(77);
        assert_eq!(fa.ino, 77);
        assert_eq!(fa.size, len);
        assert_eq!(fa.blocks, blocks);
        assert_eq!(fa.blksize, 0x10000);
    }
    attr.set_length(1000).set_kind(FileType::Directory);
    assert_eq!(attr.to_fuse_attr(1).blocks, 2);
    attr.set_kind(FileType::Symlink);
    assert_eq!(attr.to_fuse_attr(1).size, 1000);
    for kind in [FileType::BlockDevice, FileType::CharDevice, FileType::NamedPipe, FileType::Socket] {
        attr.set_kind(kind).set_rdev(9);
        let fa = attr.to_fuse_attr(1);
        assert_eq!((fa.size, fa.blocks, fa.rdev, fa.kind), (0, 0, 9, kind));
    }
}

#[test]
fn set_attr_flags() {
    assert_eq!(SET_ATTR_MODE, 1 << 0);
    assert_eq!(SET_ATTR_UID, 1 << 1);
    assert_eq!(SET_ATTR_GID, 1 << 2);
    assert_eq!(SET_ATTR_SIZE, 1 << 3);
    assert_eq!(SET_ATTR_ATIME, 1 << 4);
    assert_eq!(SET_ATTR_MTIME_NOW, 1 << 8);
    assert_eq!(SET_ATTR_FLAG, 1 << 15);
    let f = SetAttrFlags::from_bits(SET_ATTR_MODE | SET_ATTR_SIZE).unwrap();
    assert_eq!(f.bits(), 9);
    assert!(f.contains(SET_ATTR_MODE));
    assert!(f.contains(SET_ATTR_SIZE));
    assert!(f.contains(SET_ATTR_MODE | SET_ATTR_SIZE));
    assert!(!f.contains(SET_ATTR_UID));
    assert!(!f.contains(SET_ATTR_MODE | SET_ATTR_UID));
    assert_eq!(SetAttrFlags::from_bits(1 << 9), None);
    assert_eq!(SetAttrFlags::from_bits(1 << 16), None);
    assert_eq!(SetAttrFlags::from_bits(0x81FF), Some(SetAttrFlags(0x81FF)));
    assert_eq!(SetAttrFlags::from_bits(0), Some(SetAttrFlags(0)));
}

#[test]
fn inode_numbers() {
    assert!(Ino(0).is_zero());
    assert!(Ino(ROOT_INO).is_root());
    assert!(!Ino(2).is_root());
    assert!(Ino(2).is_normal());
    assert!(!Ino(2).is_special());
    for i in [MIN_INTERNAL_INODE, LOG_INODE, CONTROL_INODE, STATS_INODE, CONFIG_INODE, TRASH_INODE] {
        assert!(Ino(i).is_special());
        assert!(!Ino(i).is_normal());
    }
    assert!(Ino(TRASH_INODE).is_trash());
    assert!(!Ino(CONFIG_INODE).is_trash());
    assert!(!Ino(MIN_INTERNAL_INODE - 1).is_special());
}
