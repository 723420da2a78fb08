use kisekifs::attr::{FileType, InodeAttr, Timestamp};
use kisekifs::err::{storage_error_to_vfs, StorageError, ToErrno, VFSError};
use kisekifs::errno::Errno;
use kisekifs::ino::{Ino, CONFIG_INODE, CONTROL_INODE, LOG_INODE, MAX_INTERNAL_INODE, ROOT_INO, STATS_INODE, TRASH_INODE};
use kisekifs::internal_nodes::{
    with_prefix, PreInternalNodes, CONFIG_INODE_NAME, CONTROL_INODE_NAME, LOG_INODE_NAME, STATS_INODE_NAME,
    TRASH_INODE_NAME,
};
use kisekifs::meta::{
    access, attr_fallback, check_root, lookup_step, parent_of, records_dir_parent,
    remembers_parent, Error, LookupStep, MetaContext, MetaError,
};
use kisekifs::stat::{decode_counter, stat_root_fs, CounterRead, FSStates, FSStatesInner, Format};
use std::time::Duration;

fn now() -> Timestamp {
    Timestamp { secs: 1_700_000_000, nanos: 0 }
}

fn nodes() -> PreInternalNodes {
    PreInternalNodes::new((Duration::from_secs(1), Duration::from_secs(2)), now(), 10, 20)
}

fn ctx(uid: u32, gids: Vec<u32>, check: bool) -> MetaContext {
    MetaContext { gid: 0, gid_list: gids, uid, pid: 1, check_permission: check, start_at: 0 }
}

#[test]
fn internal_nodes_by_name() {
    let t = nodes();
    for (name, ino, perm) in [
        (LOG_INODE_NAME, LOG_INODE, 0o400),
        (CONTROL_INODE_NAME, CONTROL_INODE, 0o666),
        (STATS_INODE_NAME, STATS_INODE, 0o400),
        (CONFIG_INODE_NAME, CONFIG_INODE, 0o400),
    ] {
        let n = t.get_internal_node_by_name(name).unwrap();
        assert_eq!(n.0.inode, Ino(ino));
        assert_eq!(n.0.name, name);
        assert_eq!(n.0.attr.perm, perm);
        assert_eq!(n.0.attr.kind, FileType::RegularFile);
        assert_eq!(n.0.ttl, Some(Duration::from_secs(1)));
        assert_eq!(n.0.generation, Some(1));
        assert_eq!(n.get_attr(), n.0.attr);
        assert!(t.contains_name(name));
    }
    let trash = t.get_internal_node_by_name(TRASH_INODE_NAME).unwrap();
    assert_eq!(trash.0.inode, Ino(MAX_INTERNAL_INODE));
    assert_eq!(trash.0.attr.kind, FileType::Directory);
    assert_eq!((trash.0.attr.perm, trash.0.attr.nlink), (0o555, 2));
    assert_eq!((trash.0.attr.uid, trash.0.attr.gid), (10, 20));
    assert_eq!(trash.0.ttl, Some(Duration::from_secs(2)));
    assert!(t.get_internal_node_by_name("nothing").is_none());
    assert!(!t.contains_name(".Config"));
    assert!(!t.contains_name(""));
}

#[test]
fn internal_nodes_by_inode() {
    let t = nodes();
    assert_eq!(t.get_internal_node(Ino(CONTROL_INODE)).unwrap().0.name, ".control");
    assert_eq!(t.get_internal_node(Ino(TRASH_INODE)).unwrap().0.name, ".trash");
    assert!(t.get_internal_node(Ino(ROOT_INO)).is_none());
}

#[test]
fn internal_node_changed_in_place() {
    let mut t = nodes();
    t.get_mut_internal_node_by_name(CONFIG_INODE_NAME).unwrap().0.attr.set_length(99);
    assert_eq!(t.get_internal_node_by_name(CONFIG_INODE_NAME).unwrap().0.attr.length, 99);
    assert_eq!(t.get_internal_node_by_name(LOG_INODE_NAME).unwrap().0.attr.length, 0);
    assert!(t.get_mut_internal_node_by_name("nothing").is_none());
}

#[test]
fn internal_nodes_without_trash() {
    let mut t = nodes();
    t.remove_trash_node();
    assert!(!t.contains_name(TRASH_INODE_NAME));
    assert!(t.get_internal_node(Ino(TRASH_INODE)).is_none());
    assert!(t.contains_name(CONFIG_INODE_NAME));
    t.remove_trash_node();
    assert!(t.contains_name(LOG_INODE_NAME));
}

#[test]
fn internal_nodes_with_prefix() {
    let mut t = nodes();
    t.add_prefix();
    assert!(t.contains_name(".kfsconfig"));
    assert!(t.contains_name(".kfsaccesslog"));
    assert!(t.contains_name(".kfstrash"));
    assert!(!t.contains_name(".kfs.config"));
    assert!(!t.contains_name(".config"));
    assert_eq!(t.get_internal_node(Ino(CONFIG_INODE)).unwrap().0.name, ".kfsconfig");
    assert_eq!(t.get_internal_node_by_name(".kfsstats").map(|n| n.0.inode), Some(Ino(STATS_INODE)));
    assert_eq!(t.get_internal_node_by_name(".kfscontrol").map(|n| n.0.inode), Some(Ino(CONTROL_INODE)));
    assert_eq!(with_prefix(".a"), ".kfsa");
    assert_eq!(with_prefix("a"), ".kfsa");
    assert_eq!(with_prefix(""), ".kfs");
    assert_eq!(with_prefix("."), ".kfs");
    assert_eq!(with_prefix("..b"), ".kfs.b");
}

#[test]
fn access_follows_permission_bits() {
    let mut attr = InodeAttr::default_at(now(), 1000, 100);
    attr.set_perm(0o640);
    let ino = Ino(5);
    assert_eq!(access(&ctx(0, vec![], true), ino, &attr, 7), Ok(()));
    assert_eq!(access(&ctx(9, vec![], false), ino, &attr, 7), Ok(()));
    assert_eq!(access(&ctx(1000, vec![], true), ino, &attr, 6), Ok(()));
    assert_eq!(access(&ctx(1000, vec![], true), ino, &attr, 4), Ok(()));
    assert_eq!(
        access(&ctx(1000, vec![], true), ino, &attr, 1),
        Err(MetaError::ErrBadAccessPerm { inode: ino, want: 1, grant: 6 })
    );
    assert_eq!(access(&ctx(7, vec![1, 100], true), ino, &attr, 4), Ok(()));
    assert_eq!(
        access(&ctx(7, vec![1, 100], true), ino, &attr, 6),
        Err(MetaError::ErrBadAccessPerm { inode: ino, want: 6, grant: 4 })
    );
    assert_eq!(
        access(&ctx(7, vec![1], true), ino, &attr, 4),
        Err(MetaError::ErrBadAccessPerm { inode: ino, want: 4, grant: 0 })
    );
    assert_eq!(access(&ctx(7, vec![1], true), ino, &attr, 0), Ok(()));
}

#[test]
fn check_root_maps_zero_and_root() {
    let root = Ino(77);
    assert_eq!(check_root(Ino(0), root), Ino(ROOT_INO));
    assert_eq!(check_root(Ino(ROOT_INO), root), root);
    assert_eq!(check_root(Ino(5), root), Ino(5));
}

#[test]
fn lookup_steps() {
    let root = Ino(ROOT_INO);
    assert_eq!(lookup_step(root, root, ".."), LookupStep::SelfOf(root));
    assert_eq!(lookup_step(root, Ino(9), ".."), LookupStep::ParentOf(Ino(9)));
    assert_eq!(lookup_step(root, Ino(9), "."), LookupStep::SelfOf(Ino(9)));
    assert_eq!(lookup_step(root, root, ".trash"), LookupStep::Trash);
    assert_eq!(lookup_step(root, Ino(9), ".trash"), LookupStep::Entry(Ino(9)));
    assert_eq!(lookup_step(root, root, "file"), LookupStep::Entry(root));
    assert_eq!(lookup_step(root, root, "..."), LookupStep::Entry(root));
}

#[test]
fn parents_of_directories() {
    let mut attr = InodeAttr::default_at(now(), 1, 1);
    attr.set_parent(Ino(3));
    assert_eq!(parent_of(Ino(9), &attr), Err(MetaError::ErrNotDir { inode: Ino(9) }));
    attr.set_kind(FileType::Directory);
    assert_eq!(parent_of(Ino(9), &attr), Ok(Ino(3)));
    assert!(remembers_parent(FileType::Directory, Ino(3)));
    assert!(!remembers_parent(FileType::Directory, Ino(TRASH_INODE)));
    assert!(!remembers_parent(FileType::RegularFile, Ino(3)));
    assert!(records_dir_parent(Ino(9), &attr));
    assert!(!records_dir_parent(Ino(ROOT_INO), &attr));
    attr.set_parent(Ino(TRASH_INODE));
    assert!(!records_dir_parent(Ino(9), &attr));
}

#[test]
fn fallback_attrs_for_root_and_trash_only() {
    assert_eq!(attr_fallback(Ino(ROOT_INO)), Some(InodeAttr::hard_code_inode_attr(false)));
    assert_eq!(attr_fallback(Ino(TRASH_INODE)), Some(InodeAttr::hard_code_inode_attr(true)));
    assert_eq!(attr_fallback(Ino(2)), None);
    assert_eq!(attr_fallback(Ino(CONFIG_INODE)), None);
}

#[test]
fn errors_as_error_numbers() {
    let ino = Ino(1);
    for (e, n) in [
        (MetaError::FailedToParseScheme, Errno::EINVAL),
        (MetaError::FailedToOpenOperator, Errno::EIO),
        (MetaError::ErrBadAccessPerm { inode: ino, want: 1, grant: 0 }, Errno::EACCES),
        (MetaError::ErrNotDir { inode: ino }, Errno::ENOTDIR),
        (MetaError::ErrLookupFailed { parent: ino }, Errno::ENOENT),
        (MetaError::ErrBincodeDeserializeFailed, Errno::EIO),
        (MetaError::ErrOpendalRead, Errno::ENOENT),
        (MetaError::ErrFailedToReadFromSto { not_found: true }, Errno::ENOENT),
        (MetaError::ErrFailedToReadFromSto { not_found: false }, Errno::EIO),
        (MetaError::ErrOpendalList, Errno::EIO),
        (MetaError::ErrInvalidFormatVersion, Errno::EBADF),
        (MetaError::ErrMknod { kind: Errno::EEXIST }, Errno::EEXIST),
        (MetaError::ErrFailedToDoCounter, Errno::EIO),
        (MetaError::ErrFailedToWriteToSto, Errno::EIO),
        (MetaError::ErrMetaHasNotBeenInitializedYet, Errno::EIO),
        (MetaError::ErrLibc { kind: Errno::EFBIG }, Errno::EFBIG),
        (MetaError::ErrAsyncTimeout, Errno::EINTR),
        (MetaError::ErrInternalSliceError, Errno::EINTR),
    ] {
        assert_eq!(e.to_errno(), n);
        assert_eq!(Error::from(e).to_errno(), n);
        assert_eq!(Error::_MetaError { source: e }.to_errno(), n);
    }
    assert_eq!(StorageError::Bounds.to_errno(), Errno::EINTR);
    assert_eq!(Error::_ChunkError { source: StorageError::Io }.to_errno(), Errno::EINTR);
    assert_eq!(storage_error_to_vfs(StorageError::Mmap), VFSError::ErrLIBC { kind: Errno::EINTR });
    let v = VFSError::ErrLIBC { kind: Errno::ENAMETOOLONG };
    assert_eq!(v.to_errno(), Errno::ENAMETOOLONG);
    assert_eq!(Error::_VFSError { source: v }.to_errno(), Errno::ENAMETOOLONG);
    assert_eq!(VFSError::ThisFileReaderIsClosing { ino: 1, fh: 2 }.to_errno(), Errno::EBADF);
}

#[test]
fn error_numbers_of_this_system() {
    assert_eq!(Errno::EPERM.raw(), libc::EPERM);
    assert_eq!(Errno::ENOENT.raw(), libc::ENOENT);
    assert_eq!(Errno::EINTR.raw(), libc::EINTR);
    assert_eq!(Errno::EIO.raw(), libc::EIO);
    assert_eq!(Errno::EBADF.raw(), libc::EBADF);
    assert_eq!(Errno::EACCES.raw(), libc::EACCES);
    assert_eq!(Errno::EEXIST.raw(), libc::EEXIST);
    assert_eq!(Errno::ENOTDIR.raw(), libc::ENOTDIR);
    assert_eq!(Errno::EINVAL.raw(), libc::EINVAL);
    assert_eq!(Errno::EFBIG.raw(), libc::EFBIG);
    assert_eq!(Errno::ENAMETOOLONG.raw(), libc::ENAMETOOLONG);
}

#[test]
fn counters_are_decoded_from_their_bytes() {
    assert_eq!(decode_counter(&bincode::serialize(&12345i64).unwrap()), Ok(12345));
    assert_eq!(decode_counter(&bincode::serialize(&-2i64).unwrap()), Ok(-2));
    assert_eq!(decode_counter(&[1, 2, 0, 0, 0, 0, 0, 0]), Ok(513));
    assert_eq!(decode_counter(&[0, 0, 0, 0, 0, 0, 0, 0x80]), Ok(i64::MIN));
    assert_eq!(decode_counter(&[1, 0, 0, 0, 0, 0, 0, 0, 9, 9]), Ok(1));
    assert_eq!(decode_counter(&[1, 0, 0, 0, 0, 0, 0]), Err(MetaError::ErrBincodeDeserializeFailed));
    assert_eq!(decode_counter(&[]), Err(MetaError::ErrBincodeDeserializeFailed));
}

#[test]
fn stat_root_fs_without_limits() {
    let cached = FSStatesInner { used_space: 7, used_inodes: 3, new_space: 0, new_inodes: 0 };
    let format = Format { capacity: 0, inodes: 0 };
    let read = CounterRead::Answered { used_space: Some(1 << 30), total_inodes: Some(100) };
    assert_eq!(
        stat_root_fs(read, &cached, &format),
        (
            FSStates {
                total_space: 1 << 50,
                avail_space: (1 << 50) - (1 << 30),
                used_inodes: 100,
                available_inodes: 10 << 20,
            },
            true
        )
    );
    let read = CounterRead::Answered { used_space: Some(1 << 50), total_inodes: Some(50 << 20) };
    assert_eq!(
        stat_root_fs(read, &cached, &format),
        (
            FSStates {
                total_space: 1 << 51,
                avail_space: 1 << 50,
                used_inodes: 50 << 20,
                available_inodes: 20 << 20,
            },
            true
        )
    );
}

#[test]
fn stat_root_fs_falls_back_to_what_is_remembered() {
    let cached = FSStatesInner { used_space: 1000, used_inodes: 10, new_space: 24, new_inodes: -3 };
    let format = Format { capacity: 0, inodes: 1000 };
    let want = FSStates {
        total_space: 1 << 50,
        avail_space: (1 << 50) - 1024,
        used_inodes: 7,
        available_inodes: 993,
    };
    assert_eq!(stat_root_fs(CounterRead::TimedOut, &cached, &format), (want, false));
    let read = CounterRead::Answered { used_space: None, total_inodes: None };
    assert_eq!(stat_root_fs(read, &cached, &format), (want, false));
    let read = CounterRead::Answered { used_space: Some(0), total_inodes: None };
    let (s, ok) = stat_root_fs(read, &cached, &format);
    assert!(!ok);
    assert_eq!((s.avail_space, s.used_inodes), ((1 << 50) - 24, 7));
    let read = CounterRead::Answered { used_space: Some(-100), total_inodes: Some(2000) };
    let (s, ok) = stat_root_fs(read, &cached, &format);
    assert!(ok);
    assert_eq!(s, FSStates { total_space: 1 << 50, avail_space: 1 << 50, used_inodes: 1997, available_inodes: 0 });
}

#[test]
fn stat_root_fs_with_capacity() {
    let cached = FSStatesInner { used_space: 0, used_inodes: 0, new_space: 0, new_inodes: 0 };
    let format = Format { capacity: 1000, inodes: 0 };
    let read = CounterRead::Answered { used_space: Some(400), total_inodes: Some(0) };
    let (s, _) = stat_root_fs(read, &cached, &format);
    assert_eq!((s.total_space, s.avail_space), (400, 0));
    let read = CounterRead::Answered { used_space: Some(4000), total_inodes: Some(0) };
    let (s, _) = stat_root_fs(read, &cached, &format);
    assert_eq!((s.total_space, s.avail_space), (1000, 0));
}

#[test]
fn trash_is_removed_by_its_name() {
    let mut t = nodes();
    t.get_mut_internal_node_by_name(TRASH_INODE_NAME).unwrap().0.inode = Ino(77);
    t.get_mut_internal_node_by_name(STATS_INODE_NAME).unwrap().0.inode = Ino(MAX_INTERNAL_INODE);
    t.remove_trash_node();
    assert!(!t.contains_name(TRASH_INODE_NAME));
    assert!(t.get_internal_node(Ino(77)).is_none());
    for name in [LOG_INODE_NAME, CONTROL_INODE_NAME, STATS_INODE_NAME, CONFIG_INODE_NAME] {
        assert!(t.contains_name(name));
    }
    assert_eq!(
        t.get_internal_node_by_name(STATS_INODE_NAME).map(|n| n.0.inode),
        Some(Ino(MAX_INTERNAL_INODE))
    );
    assert_eq!(t.get_internal_node(Ino(MAX_INTERNAL_INODE)).unwrap().0.name, ".stats");
    t.remove_trash_node();
    assert!(t.contains_name(STATS_INODE_NAME));
    assert_eq!(t.get_internal_node_by_name(LOG_INODE_NAME).map(|n| n.0.inode), Some(Ino(LOG_INODE)));
}

#[test]
fn trash_is_removed_under_its_prefixed_name_too() {
    let mut t = nodes();
    t.add_prefix();
    assert!(t.contains_name(".kfstrash"));
    t.remove_trash_node();
    assert!(!t.contains_name(".kfstrash"));
    assert!(!t.contains_name(TRASH_INODE_NAME));
    assert!(t.get_internal_node(Ino(TRASH_INODE)).is_none());
    assert!(t.contains_name(".kfsconfig"));
    assert!(t.contains_name(".kfsaccesslog"));
    assert!(t.contains_name(".kfscontrol"));
    assert!(t.contains_name(".kfsstats"));
}
