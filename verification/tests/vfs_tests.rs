use kisekifs::attr::{
    FileType, InodeAttr, Timestamp, SET_ATTR_ATIME, SET_ATTR_GID, SET_ATTR_MODE, SET_ATTR_MTIME,
    SET_ATTR_MTIME_NOW, SET_ATTR_SIZE, SET_ATTR_UID,
};
use kisekifs::common::{MAX_FILE_SIZE, MAX_NAME_LENGTH};
use kisekifs::data_writer::DataWriter;
use kisekifs::errno::Errno;
use kisekifs::ino::{Ino, CONFIG_INODE, CONTROL_INODE, ROOT_INO, TRASH_INODE};
use kisekifs::sys::{access_mask_of, file_type_of, SysTable};
use kisekifs::vfs::{
    check_file_range, Config, FlushSteps, KisekiVFS, SetAttrPlan, TimeOrNow, FOPEN_DIRECT_IO,
    FOPEN_KEEP_CACHE,
};
use std::time::Duration;

fn now() -> Timestamp {
    Timestamp { secs: 1_700_000_000, nanos: 0 }
}

fn config(prefix: bool) -> Config {
    Config {
        file_entry_timeout: Duration::from_secs(1),
        dir_entry_timeout: Duration::from_secs(2),
        prefix_internal: prefix,
        page_size: 4 << 20,
        block_size: 4 << 20,
        chunk_size: 64 << 20,
    }
}

fn vfs(prefix: bool) -> KisekiVFS {
    KisekiVFS::new(config(prefix), 321, now(), 10, 20)
}

fn table() -> SysTable {
    SysTable {
        s_ifmt: libc::S_IFMT,
        s_ififo: libc::S_IFIFO,
        s_ifsock: libc::S_IFSOCK,
        s_iflnk: libc::S_IFLNK,
        s_ifreg: libc::S_IFREG,
        s_ifblk: libc::S_IFBLK,
        s_ifdir: libc::S_IFDIR,
        s_ifchr: libc::S_IFCHR,
        o_rdonly: libc::O_RDONLY,
        o_wronly: libc::O_WRONLY,
        o_rdwr: libc::O_RDWR,
    }
}

#[test]
fn vfs_knows_its_internal_nodes() {
    let v = vfs(false);
    assert_eq!(v.get_config().block_size, 4 << 20);
    let e = v.lookup(Ino(ROOT_INO), ".config").unwrap().unwrap();
    assert_eq!(e.inode, Ino(CONFIG_INODE));
    assert_eq!(e.name, ".config");
    assert_eq!(e.attr.length, 321);
    let e = v.lookup(Ino(5), ".control").unwrap().unwrap();
    assert_eq!(e.inode, Ino(CONTROL_INODE));
    assert!(v.lookup(Ino(5), ".config").unwrap().is_none());
    assert!(v.lookup(Ino(ROOT_INO), "file").unwrap().is_none());
    let e = v.lookup(Ino(TRASH_INODE), ".").unwrap().unwrap();
    assert_eq!(e.inode, Ino(TRASH_INODE));
    assert!(v.lookup(Ino(5), ".").unwrap().is_none());
    assert_eq!(v.get_attr(Ino(CONFIG_INODE)).unwrap().length, 321);
    assert_eq!(v.get_attr(Ino(ROOT_INO)), None);
    assert_eq!(v.set_attr_special(Ino(CONFIG_INODE)).unwrap().perm, 0o400);
    assert_eq!(v.set_attr_special(Ino(CONFIG_INODE + 100)), Err(Errno::EPERM));
}

#[test]
fn vfs_prefixes_internal_names_on_request() {
    let v = vfs(true);
    assert!(v.lookup(Ino(ROOT_INO), ".config").unwrap().is_none());
    let e = v.lookup(Ino(ROOT_INO), ".kfsconfig").unwrap().unwrap();
    assert_eq!(e.inode, Ino(CONFIG_INODE));
    assert_eq!(e.attr.length, 321);
    assert_eq!(v.mkdir(Ino(ROOT_INO), ".kfstrash"), Err(Errno::EEXIST));
    assert_eq!(v.mkdir(Ino(ROOT_INO), ".trash"), Ok(()));
}

#[test]
fn lookup_refuses_long_names() {
    let v = vfs(false);
    let long = "a".repeat(MAX_NAME_LENGTH + 1);
    let fits = "a".repeat(MAX_NAME_LENGTH);
    assert_eq!(v.lookup(Ino(ROOT_INO), &long).err(), Some(Errno::ENAMETOOLONG));
    assert!(v.lookup(Ino(ROOT_INO), &fits).unwrap().is_none());
}

#[test]
fn new_entries_are_checked() {
    let v = vfs(false);
    let long = "a".repeat(256);
    let fits = "é".repeat(127);
    let too_long = "é".repeat(128);
    assert_eq!(v.mkdir(Ino(ROOT_INO), ".trash"), Err(Errno::EEXIST));
    assert_eq!(v.mkdir(Ino(2), ".trash"), Ok(()));
    assert_eq!(v.mkdir(Ino(2), &long), Err(Errno::ENAMETOOLONG));
    assert_eq!(v.mkdir(Ino(2), &fits), Ok(()));
    assert_eq!(v.mkdir(Ino(2), &too_long), Err(Errno::ENAMETOOLONG));
    assert_eq!(v.create(Ino(ROOT_INO), ".stats", 0o644), Err(Errno::EEXIST));
    assert_eq!(v.create(Ino(ROOT_INO), "f", 0o100755), Ok(0o755));
    assert_eq!(v.create(Ino(ROOT_INO), &long, 0o644), Err(Errno::ENAMETOOLONG));
    assert_eq!(v.check_new_entry(Ino(ROOT_INO), "ok"), Ok(()));
}

#[test]
fn mknod_names_the_kind_of_file() {
    let v = vfs(false);
    for (bits, kind) in [
        (libc::S_IFIFO, FileType::NamedPipe),
        (libc::S_IFSOCK, FileType::Socket),
        (libc::S_IFLNK, FileType::Symlink),
        (libc::S_IFREG, FileType::RegularFile),
        (libc::S_IFBLK, FileType::BlockDevice),
        (libc::S_IFDIR, FileType::Directory),
        (libc::S_IFCHR, FileType::CharDevice),
    ] {
        assert_eq!(v.mknod(Ino(ROOT_INO), "f", bits | 0o640), Ok((kind, 0o640)));
        assert_eq!(file_type_of(&table(), bits | 0o7777), Some(kind));
        assert_eq!(v.mknod_in(&table(), Ino(2), "f", bits | 0o1777), Ok((kind, 0o777)));
    }
    assert_eq!(v.mknod(Ino(ROOT_INO), "f", 0o640), Err(Errno::EPERM));
    assert_eq!(v.mknod(Ino(ROOT_INO), ".control", libc::S_IFREG), Err(Errno::EEXIST));
    assert_eq!(file_type_of(&table(), 0), None);
}

#[test]
fn open_dir_asks_for_the_access_it_needs() {
    let v = vfs(false);
    assert_eq!(v.open_dir(false, libc::O_RDWR), None);
    assert_eq!(v.open_dir(true, libc::O_RDONLY), Some(4));
    assert_eq!(v.open_dir(true, libc::O_WRONLY), Some(2));
    assert_eq!(v.open_dir(true, libc::O_RDWR | libc::O_APPEND), Some(6));
    assert_eq!(access_mask_of(&table(), 3), 0);
    assert_eq!(KisekiVFS::open_dir_mask(&table(), libc::O_WRONLY | libc::O_CREAT), 2);
}

#[test]
fn read_dir_windows() {
    assert!(KisekiVFS::read_dir_refills(0, 5));
    assert!(KisekiVFS::read_dir_refills(3, 0));
    assert!(!KisekiVFS::read_dir_refills(3, 1));
    assert_eq!(KisekiVFS::read_dir(3, 0), Some(0));
    assert_eq!(KisekiVFS::read_dir(3, 2), Some(2));
    assert_eq!(KisekiVFS::read_dir(3, 3), None);
    assert_eq!(KisekiVFS::read_dir(3, -1), None);
    assert_eq!(KisekiVFS::read_dir(0, 0), None);
}

#[test]
fn entry_ttl_by_kind() {
    let v = vfs(false);
    assert_eq!(*v.get_entry_ttl(FileType::Directory), Duration::from_secs(2));
    assert_eq!(*v.get_entry_ttl(FileType::RegularFile), Duration::from_secs(1));
    assert_eq!(*v.get_entry_ttl(FileType::Symlink), Duration::from_secs(1));
}

#[test]
fn update_length_follows_the_writer() {
    let v = vfs(false);
    let mut attr = InodeAttr::default_at(now(), 1, 1);
    attr.set_length(100);
    assert!(!v.update_length(&mut attr, 150));
    assert_eq!(attr.length, 150);
    assert!(v.update_length(&mut attr, 50));
    assert_eq!(attr.length, 150);
    assert!(!v.update_length(&mut attr, 150));
    attr.set_kind(FileType::Directory);
    assert!(!v.update_length(&mut attr, 500));
    assert_eq!(attr.length, 150);
    assert_eq!(DataWriter::default().get_length(Ino(5)), 0);
}

#[test]
fn modified_since() {
    let v = vfs(false);
    assert!(v.modified_since(Some(10), 9));
    assert!(!v.modified_since(Some(10), 10));
    assert!(!v.modified_since(None, 0));
}

#[test]
fn handles_are_numbered_from_one() {
    let mut v = vfs(false);
    assert_eq!(v.new_handle(), 1);
    assert_eq!(v.new_handle(), 2);
    assert_eq!(v.new_handle(), 3);
}

#[test]
fn set_attr_sets_what_the_flags_name() {
    let base = InodeAttr::default_at(now(), 1, 2);
    let at = Timestamp { secs: 5, nanos: 6 };
    let plan = KisekiVFS::set_attr(
        SET_ATTR_MODE | SET_ATTR_UID | SET_ATTR_GID,
        None,
        None,
        Some(0o100644),
        Some(7),
        Some(8),
        None,
        base,
        now(),
    );
    assert_eq!(
        plan,
        Ok(SetAttrPlan {
            attr: InodeAttr { perm: 0o644, uid: 7, gid: 8, ..base },
            need_update: false,
            mtime: None
        })
    );
    let plan = KisekiVFS::set_attr(
        SET_ATTR_ATIME | SET_ATTR_MTIME,
        Some(TimeOrNow::SpecificTime(at)),
        Some(TimeOrNow::Now),
        Some(0o777),
        None,
        None,
        None,
        base,
        Timestamp { secs: 99, nanos: 0 },
    );
    assert_eq!(
        plan,
        Ok(SetAttrPlan {
            attr: InodeAttr { atime: at, mtime: Timestamp { secs: 99, nanos: 0 }, ..base },
            need_update: true,
            mtime: Some(Timestamp { secs: 99, nanos: 0 })
        })
    );
    let plan =
        KisekiVFS::set_attr(SET_ATTR_MTIME, None, Some(TimeOrNow::SpecificTime(at)), None, None, None, None, base, now());
    assert_eq!(plan, Ok(SetAttrPlan { attr: InodeAttr { mtime: at, ..base }, need_update: false, mtime: None }));
    let plan = KisekiVFS::set_attr(
        SET_ATTR_ATIME | SET_ATTR_MTIME_NOW,
        Some(TimeOrNow::Now),
        None,
        None,
        None,
        None,
        None,
        base,
        at,
    );
    assert_eq!(plan, Ok(SetAttrPlan { attr: InodeAttr { atime: at, ..base }, need_update: true, mtime: None }));
    let plan = KisekiVFS::set_attr(0, None, None, None, None, None, None, base, now());
    assert_eq!(plan, Ok(SetAttrPlan { attr: base, need_update: false, mtime: None }));
}

#[test]
fn set_attr_needs_a_value_for_each_flag() {
    let base = InodeAttr::default_at(now(), 1, 2);
    let t = Some(TimeOrNow::Now);
    let call = |flags, atime, mtime, mode, uid, gid, size| {
        KisekiVFS::set_attr(flags, atime, mtime, mode, uid, gid, size, base, now()).err()
    };
    assert_eq!(call(SET_ATTR_SIZE, None, None, None, None, None, None), Some(Errno::EPERM));
    assert_eq!(call(SET_ATTR_SIZE | SET_ATTR_MODE, None, None, None, None, None, None), Some(Errno::EPERM));
    assert_eq!(call(SET_ATTR_SIZE, None, None, None, None, None, Some(5)), None);
    assert_eq!(call(SET_ATTR_MODE, t, t, None, Some(1), Some(1), Some(1)), Some(Errno::EINVAL));
    assert_eq!(call(SET_ATTR_UID, t, t, Some(1), None, Some(1), Some(1)), Some(Errno::EINVAL));
    assert_eq!(call(SET_ATTR_GID, t, t, Some(1), Some(1), None, Some(1)), Some(Errno::EINVAL));
    assert_eq!(call(SET_ATTR_ATIME, None, t, Some(1), Some(1), Some(1), Some(1)), Some(Errno::EINVAL));
    assert_eq!(call(SET_ATTR_MTIME, t, None, Some(1), Some(1), Some(1), Some(1)), Some(Errno::EINVAL));
}

#[test]
fn open_refuses_internal_inodes() {
    assert_eq!(KisekiVFS::open(Ino(CONTROL_INODE)), Err(Errno::EACCES));
    assert_eq!(KisekiVFS::open(Ino(TRASH_INODE)), Err(Errno::EACCES));
    assert_eq!(KisekiVFS::open(Ino(2)), Ok(()));
    let mut attr = InodeAttr::default_at(now(), 1, 1);
    assert_eq!(KisekiVFS::opened_flags(Ino(2), &attr), 0);
    attr.keep_cache();
    assert_eq!(KisekiVFS::opened_flags(Ino(2), &attr), FOPEN_KEEP_CACHE);
    assert_eq!(KisekiVFS::opened_flags(Ino(CONFIG_INODE), &attr), FOPEN_DIRECT_IO);
    assert_eq!((FOPEN_DIRECT_IO, FOPEN_KEEP_CACHE), (1, 2));
}

#[test]
fn file_ranges_end_before_the_largest_file() {
    assert_eq!(MAX_FILE_SIZE, (64u64 << 20) << 31);
    assert_eq!(check_file_range(0, 0), Ok(0));
    assert_eq!(check_file_range(100, 4096), Ok(100));
    assert_eq!(check_file_range(-1, 10), Err(Errno::EFBIG));
    assert_eq!(check_file_range(MAX_FILE_SIZE as i64, 0), Err(Errno::EFBIG));
    assert_eq!(check_file_range(MAX_FILE_SIZE as i64 - 1, 0), Ok(MAX_FILE_SIZE - 1));
    assert_eq!(check_file_range(MAX_FILE_SIZE as i64 - 1, 1), Err(Errno::EFBIG));
    assert_eq!(check_file_range(MAX_FILE_SIZE as i64 - 10, 9), Ok(MAX_FILE_SIZE - 10));
    assert_eq!(check_file_range(MAX_FILE_SIZE as i64 - 10, 10), Err(Errno::EFBIG));
    assert_eq!(check_file_range(5, u64::MAX), Err(Errno::EFBIG));
}

#[test]
fn read_and_write_are_checked() {
    let ino = Ino(9);
    assert_eq!(KisekiVFS::read(ino, false, true, 0, 10), Err(Errno::EBADF));
    assert_eq!(KisekiVFS::read(ino, false, true, -1, 10), Err(Errno::EBADF));
    assert_eq!(KisekiVFS::read(ino, true, true, -1, 10), Err(Errno::EFBIG));
    assert_eq!(KisekiVFS::read(ino, true, false, 5, 10), Err(Errno::EBADF));
    assert_eq!(KisekiVFS::read(ino, true, true, 5, 10), Ok(5));
    assert_eq!(KisekiVFS::write(ino, false, true, -1, 10), Err(Errno::EFBIG));
    assert_eq!(KisekiVFS::write(ino, false, true, 5, 10), Err(Errno::EBADF));
    assert_eq!(KisekiVFS::write(Ino(CONTROL_INODE), true, true, 5, 10), Err(Errno::EACCES));
    assert_eq!(KisekiVFS::write(ino, true, false, 5, 10), Err(Errno::EBADF));
    assert_eq!(KisekiVFS::write(ino, true, true, 5, 10), Ok(5));
}

#[test]
fn flush_and_fsync_are_checked() {
    let ino = Ino(9);
    assert_eq!(KisekiVFS::flush(ino, false, 1, 1, 0), Err(Errno::EBADF));
    assert_eq!(KisekiVFS::flush(Ino(CONFIG_INODE), false, 1, 1, 0), Err(Errno::EBADF));
    assert_eq!(
        KisekiVFS::flush(Ino(CONFIG_INODE), true, 1, 2, 2),
        Ok(FlushSteps { flush_writer: false, clear_ofd_owner: false, unlock: false })
    );
    assert_eq!(
        KisekiVFS::flush(ino, true, 1, 1, 1),
        Ok(FlushSteps { flush_writer: true, clear_ofd_owner: false, unlock: false })
    );
    assert_eq!(
        KisekiVFS::flush(ino, true, 1, 2, 3),
        Ok(FlushSteps { flush_writer: true, clear_ofd_owner: true, unlock: true })
    );
    assert_eq!(KisekiVFS::fsync(Ino(CONFIG_INODE), false), Ok(false));
    assert_eq!(KisekiVFS::fsync(ino, false), Err(Errno::EBADF));
    assert_eq!(KisekiVFS::fsync(ino, true), Ok(true));
}
