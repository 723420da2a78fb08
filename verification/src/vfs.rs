//! The filesystem interface: what each call checks and decides before and
//! after it turns to the metadata service and to the data path.
use vstd::prelude::*;
use std::time::Duration;
use crate::attr::{
    FileType,
    InodeAttr,
    SetAttrFlags,
    Timestamp,
    SET_ATTR_ALL,
    SET_ATTR_ATIME,
    SET_ATTR_GID,
    SET_ATTR_MODE,
    SET_ATTR_MTIME,
    SET_ATTR_MTIME_NOW,
    SET_ATTR_SIZE,
    SET_ATTR_UID,
};
use crate::common::{MAX_FILE_SIZE, MAX_NAME_LENGTH};
use crate::errno::Errno;
use crate::ino::{
    Ino,
    CONFIG_INODE,
    CONTROL_INODE,
    LOG_INODE,
    MIN_INTERNAL_INODE,
    ROOT_INO,
    STATS_INODE,
};
use crate::internal_nodes::{
    file_node,
    node_named,
    node_numbered,
    prefixed,
    trash_node,
    EntryView,
    InternalNode,
    PreInternalNodes,
    CONFIG_INODE_NAME,
    CONTROL_INODE_NAME,
    LOG_INODE_NAME,
    STATS_INODE_NAME,
};
use crate::meta::DOT;
use crate::sys::{access_mask_in, access_mask_of, file_type_in, file_type_of, libc_sys_table, SysTable};

verus! {

/// Flag of an open reply: bypass the page cache for this file.
pub const FOPEN_DIRECT_IO: u32 = 1;

/// Flag of an open reply: keep the cached data of this file.
pub const FOPEN_KEEP_CACHE: u32 = 2;

/// The settings of the filesystem interface.
#[derive(Debug, Clone, Copy)]
pub struct Config {
    pub file_entry_timeout: Duration,
    pub dir_entry_timeout: Duration,
    pub prefix_internal: bool,
    pub page_size: usize,
    pub block_size: usize,
    pub chunk_size: usize,
}

/// An inode with its name and attributes.
#[derive(Debug, Clone)]
pub struct FullEntry {
    pub inode: Ino,
    pub name: String,
    pub attr: InodeAttr,
}

/// Reply to an `open` or `opendir` call.
#[derive(Debug)]
pub struct Opened {
    pub fh: u64,
    pub flags: u32,
    pub entry: FullEntry,
}

/// A time given by the caller, or the time of the call.
#[derive(Debug, Clone, Copy, PartialEq, Eq, Structural)]
pub enum TimeOrNow {
    SpecificTime(Timestamp),
    Now,
}

/// What a `set_attr` call asks the metadata service to store.
#[derive(Debug, Clone, Copy, PartialEq, Eq, Structural)]
pub struct SetAttrPlan {
    /// The attributes to store.
    pub attr: InodeAttr,
    /// Whether the times need the permission check of the metadata
    /// service.
    pub need_update: bool,
    /// The modification time to pass on to the data path, if any.
    pub mtime: Option<Timestamp>,
}

/// What a `flush` call does after it found its handle.
#[derive(Debug, Clone, Copy, PartialEq, Eq, Structural)]
pub struct FlushSteps {
    /// Flush the file writer of the inode, if it has one.
    pub flush_writer: bool,
    /// Forget the owner of the open file description.
    pub clear_ofd_owner: bool,
    /// Release the locks that the lock owner holds on the file.
    pub unlock: bool,
}

/// The time that `t` stands for at `now`.
pub open spec fn resolved(t: TimeOrNow, now: Timestamp) -> Timestamp {
    match t {
        TimeOrNow::SpecificTime(at) => at,
        TimeOrNow::Now => now,
    }
}

/// The first reason to refuse a `set_attr` call for what it leaves out:
/// the length without a size counts as not permitted, every other flag
/// without its value as invalid.
pub open spec fn set_attr_refusal(
    flags: SetAttrFlags,
    atime: Option<TimeOrNow>,
    mtime: Option<TimeOrNow>,
    mode: Option<u32>,
    uid: Option<u32>,
    gid: Option<u32>,
    size: Option<u64>,
) -> Option<Errno> {
    if flags.has(SET_ATTR_SIZE) && size is None {
        Some(Errno::EPERM)
    } else if flags.has(SET_ATTR_MODE) && mode is None {
        Some(Errno::EINVAL)
    } else if flags.has(SET_ATTR_UID) && uid is None {
        Some(Errno::EINVAL)
    } else if flags.has(SET_ATTR_GID) && gid is None {
        Some(Errno::EINVAL)
    } else if flags.has(SET_ATTR_ATIME) && atime is None {
        Some(Errno::EINVAL)
    } else if flags.has(SET_ATTR_MTIME) && mtime is None {
        Some(Errno::EINVAL)
    } else {
        None
    }
}

/// What a `set_attr` call that leaves nothing out asks for: `base` with
/// every attribute that a flag names set to the value given for it.
pub open spec fn set_attr_plan(
    flags: SetAttrFlags,
    atime: Option<TimeOrNow>,
    mtime: Option<TimeOrNow>,
    mode: Option<u32>,
    uid: Option<u32>,
    gid: Option<u32>,
    base: InodeAttr,
    now: Timestamp,
) -> SetAttrPlan {
    let need_update = flags.has(SET_ATTR_ATIME) || (flags.has(SET_ATTR_MTIME) && mtime
        == Some(TimeOrNow::Now));
    SetAttrPlan {
        attr: InodeAttr {
            perm: if flags.has(SET_ATTR_MODE) {
                (mode->Some_0 as u16) & 0o777
            } else {
                base.perm
            },
            uid: if flags.has(SET_ATTR_UID) {
                uid->Some_0
            } else {
                base.uid
            },
            gid: if flags.has(SET_ATTR_GID) {
                gid->Some_0
            } else {
                base.gid
            },
            atime: if flags.has(SET_ATTR_ATIME) {
                resolved(atime->Some_0, now)
            } else {
                base.atime
            },
            mtime: if flags.has(SET_ATTR_MTIME) {
                resolved(mtime->Some_0, now)
            } else {
                base.mtime
            },
            ..base
        },
        need_update,
        mtime: if need_update && mtime is Some && (flags.has(SET_ATTR_MTIME) || flags.has(
            SET_ATTR_MTIME_NOW,
        )) {
            Some(resolved(mtime->Some_0, now))
        } else {
            None
        },
    }
}

/// The reason to refuse a new entry `name` in `parent`, if there is one:
/// under the root, the names of the internal inodes are taken; nowhere may
/// a name be longer than `MAX_NAME_LENGTH` bytes.
pub open spec fn entry_refusal(nodes: PreInternalNodes, parent: Ino, name: &str) -> Option<Errno> {
    if parent.0 == ROOT_INO && node_named(nodes.nodes(), name@, 0) >= 0 {
        Some(Errno::EEXIST)
    } else if name.len() > MAX_NAME_LENGTH {
        Some(Errno::ENAMETOOLONG)
    } else {
        None
    }
}

/// The reason to refuse the transfer of `size` bytes at `offset`, if there
/// is one: no file reaches `MAX_FILE_SIZE`.
pub open spec fn range_refusal(offset: i64, size: u64) -> Option<Errno> {
    if offset < 0 || offset >= MAX_FILE_SIZE || offset + size >= MAX_FILE_SIZE {
        Some(Errno::EFBIG)
    } else {
        None
    }
}

/// Checks the range of a read or write.
pub fn check_file_range(offset: i64, size: u64) -> (res: Result<u64, Errno>)
    ensures
        res is Err <==> range_refusal(offset, size) is Some,
        res is Err ==> res->Err_0 == Errno::EFBIG,
        res matches Ok(at) ==> at == offset,
{
    if offset < 0 {
        return Err(Errno::EFBIG);
    }
    let at: u64 = offset as u64;
    if at >= MAX_FILE_SIZE || size >= MAX_FILE_SIZE - at {
        return Err(Errno::EFBIG);
    }
    Ok(at)
}

/// The internal inodes that the filesystem interface starts with: the
/// five of the table, the configuration file `config_len` bytes long, and
/// all names with their prefix if the settings ask for it.
pub open spec fn first_nodes(
    config: Config,
    config_len: u64,
    now: Timestamp,
    uid: u32,
    gid: u32,
) -> Seq<EntryView> {
    let plain = seq![
        file_node(LOG_INODE, LOG_INODE_NAME@, 0o400, now, uid, gid, config.file_entry_timeout),
        file_node(
            CONTROL_INODE,
            CONTROL_INODE_NAME@,
            0o666,
            now,
            uid,
            gid,
            config.file_entry_timeout,
        ),
        file_node(STATS_INODE, STATS_INODE_NAME@, 0o400, now, uid, gid, config.file_entry_timeout),
        (EntryView {
            attr: InodeAttr {
                length: config_len,
                ..file_node(
                    CONFIG_INODE,
                    CONFIG_INODE_NAME@,
                    0o400,
                    now,
                    uid,
                    gid,
                    config.file_entry_timeout,
                ).attr
            },
            ..file_node(
                CONFIG_INODE,
                CONFIG_INODE_NAME@,
                0o400,
                now,
                uid,
                gid,
                config.file_entry_timeout,
            )
        }),
        trash_node(now, uid, gid, config.dir_entry_timeout),
    ];
    if config.prefix_internal {
        Seq::new(5, |i: int| (EntryView { name: prefixed(plain[i].name), ..plain[i] }))
    } else {
        plain
    }
}

/// The filesystem interface.
pub struct KisekiVFS {
    config: Config,
    internal_nodes: PreInternalNodes,
    next_fh: u64,
}

impl KisekiVFS {
    /// The settings.
    pub closed spec fn config(&self) -> Config {
        self.config
    }

    /// The table of the internal inodes.
    pub closed spec fn internal_nodes(&self) -> PreInternalNodes {
        self.internal_nodes
    }

    /// The file handle that the next open call gets.
    pub closed spec fn next_fh(&self) -> u64 {
        self.next_fh
    }

    /// The filesystem interface with the settings `config`. The internal
    /// inodes are made at `now` for `uid` of `gid`; the configuration file
    /// is `config_len` bytes long; the names of the internal inodes get
    /// their prefix if the settings ask for it.
    pub fn new(config: Config, config_len: u64, now: Timestamp, uid: u32, gid: u32) -> (vfs:
        KisekiVFS)
        ensures
            vfs.config() == config,
            vfs.next_fh() == 1,
            vfs.internal_nodes().nodes().len() == 5,
            forall|i: int|
                0 <= i < 5 ==> (#[trigger] vfs.internal_nodes().nodes()[i]).0@ == first_nodes(
                    config,
                    config_len,
                    now,
                    uid,
                    gid,
                )[i],
    {
        let mut internal_nodes = PreInternalNodes::new(
            (config.file_entry_timeout, config.dir_entry_timeout),
            now,
            uid,
            gid,
        );
        proof {
            reveal_strlit(".accesslog");
            reveal_strlit(".control");
            reveal_strlit(".stats");
            reveal_strlit(".config");
            reveal_strlit(".trash");
            let nodes = internal_nodes.nodes();
            let name = CONFIG_INODE_NAME@;
            assert(name.len() == 7);
            assert(nodes[0].0@.name.len() == 10);
            assert(nodes[1].0@.name.len() == 8);
            assert(nodes[2].0@.name.len() == 6);
            assert(nodes[0].0.name@ !== name);
            assert(nodes[1].0.name@ !== name);
            assert(nodes[2].0.name@ !== name);
            assert(nodes[3].0.name@ == name);
            assert(node_named(nodes, name, 3) == 3);
            assert(node_named(nodes, name, 2) == 3);
            assert(node_named(nodes, name, 1) == 3);
            assert(node_named(nodes, name, 0) == 3);
        }
        match internal_nodes.get_mut_internal_node_by_name(CONFIG_INODE_NAME) {
            Some(node) => {
                node.0.attr.length = config_len;
            },
            None => {},
        }
        if config.prefix_internal {
            internal_nodes.add_prefix();
        }
        KisekiVFS { config, internal_nodes, next_fh: 1 }
    }

    /// The settings.
    pub fn get_config(&self) -> (config: &Config)
        ensures
            *config == self.config(),
    {
        &self.config
    }

    /// Gives out a new file handle.
    pub fn new_handle(&mut self) -> (fh: u64)
        ensures
            fh == old(self).next_fh(),
            final(self).next_fh() == if old(self).next_fh() == u64::MAX {
                0
            } else {
                (old(self).next_fh() + 1) as u64
            },
            final(self).internal_nodes() == old(self).internal_nodes(),
            final(self).config() == old(self).config(),
    {
        let fh: u64 = self.next_fh;
        self.next_fh = if fh == u64::MAX {
            0
        } else {
            fh + 1
        };
        fh
    }

    /// The internal inode that `name` in `parent` stands for, if it stands
    /// for one: under the root, and everywhere for the control file, the
    /// internal inode of that name; in an internal inode, the inode itself
    /// for the name `.`.
    pub open spec fn internal_answer(&self, parent: Ino, name: Seq<char>) -> Option<InternalNode> {
        let nodes = self.internal_nodes().nodes();
        if (parent.0 == ROOT_INO || name == CONTROL_INODE_NAME@) && node_named(nodes, name, 0)
            >= 0 {
            Some(nodes[node_named(nodes, name, 0)])
        } else if parent.0 >= MIN_INTERNAL_INODE && name == DOT@ && node_numbered(nodes, parent, 0)
            >= 0 {
            Some(nodes[node_numbered(nodes, parent, 0)])
        } else {
            None
        }
    }

    /// Answers a lookup from the table of the internal inodes, if it can:
    /// `Ok(Some(..))` is the answer, `Ok(None)` sends the caller to the
    /// metadata service, and a name longer than `MAX_NAME_LENGTH` bytes is
    /// refused.
    pub fn lookup(&self, parent: Ino, name: &str) -> (res: Result<Option<FullEntry>, Errno>)
        ensures
            res is Err <==> name.len() > MAX_NAME_LENGTH,
            res is Err ==> res->Err_0 == Errno::ENAMETOOLONG,
            res matches Ok(found) ==> {
                &&& found is Some <==> self.internal_answer(parent, name@) is Some
                &&& found matches Some(e) ==> {
                    let n = self.internal_answer(parent, name@)->Some_0;
                    e.inode == n.0.inode && e.name@ == n.0.name@ && e.attr == n.0.attr
                }
            },
    {
        if name.len() > MAX_NAME_LENGTH {
            return Err(Errno::ENAMETOOLONG);
        }
        if parent.is_root() || name.to_owned() == CONTROL_INODE_NAME.to_owned() {
            match self.internal_nodes.get_internal_node_by_name(name) {
                Some(n) => {
                    return Ok(
                        Some(FullEntry { inode: n.0.inode, name: n.0.name.clone(), attr: n.0.attr }),
                    );
                },
                None => {},
            }
        }
        if parent.is_special() && name.to_owned() == DOT.to_owned() {
            match self.internal_nodes.get_internal_node(parent) {
                Some(n) => {
                    return Ok(
                        Some(FullEntry { inode: n.0.inode, name: n.0.name.clone(), attr: n.0.attr }),
                    );
                },
                None => {},
            }
        }
        Ok(None)
    }

    /// How long an entry of the kind `kind` stays valid.
    pub fn get_entry_ttl(&self, kind: FileType) -> (ttl: &Duration)
        ensures
            *ttl == if kind is Directory {
                self.config().dir_entry_timeout
            } else {
                self.config().file_entry_timeout
            },
    {
        if kind == FileType::Directory {
            &self.config.dir_entry_timeout
        } else {
            &self.config.file_entry_timeout
        }
    }

    /// Makes the attributes of a regular file show the length that its
    /// writer has reached, if that is further. Says whether the readers of
    /// the file are to be cut back to the length of the attributes.
    pub fn update_length(&self, attr: &mut InodeAttr, writer_len: u64) -> (truncate: bool)
        ensures
            *final(attr) == (InodeAttr {
                length: if old(attr).kind is RegularFile && writer_len > old(attr).length {
                    writer_len
                } else {
                    old(attr).length
                },
                ..*old(attr)
            }),
            truncate == (old(attr).kind is RegularFile && writer_len < old(attr).length),
    {
        if attr.is_file() {
            if writer_len > attr.length {
                attr.length = writer_len;
            }
            if writer_len < attr.length {
                return true;
            }
        }
        false
    }

    /// Whether an inode last modified at `modified_at`, if it was modified
    /// at all, was modified since `start_at`.
    pub fn modified_since(&self, modified_at: Option<u64>, start_at: u64) -> (b: bool)
        ensures
            b == (modified_at matches Some(at) && at > start_at),
    {
        match modified_at {
            Some(at) => at > start_at,
            None => false,
        }
    }

    /// The attributes of the internal inode `inode`, if it is one.
    pub fn get_attr(&self, inode: Ino) -> (attr: Option<InodeAttr>)
        ensures
            attr is Some <==> inode.0 >= MIN_INTERNAL_INODE && node_numbered(
                self.internal_nodes().nodes(),
                inode,
                0,
            ) >= 0,
            attr matches Some(a) ==> a == self.internal_nodes().nodes()[node_numbered(
                self.internal_nodes().nodes(),
                inode,
                0,
            )].0.attr,
    {
        if inode.is_special() {
            match self.internal_nodes.get_internal_node(inode) {
                Some(n) => {
                    return Some(n.get_attr());
                },
                None => {},
            }
        }
        None
    }

    /// The permission bits that opening a directory with `flags` needs
    /// under `table`.
    pub fn open_dir_mask(table: &SysTable, flags: i32) -> (mask: u8)
        ensures
            mask == access_mask_in(*table, flags),
    {
        access_mask_of(table, flags)
    }

    /// The permission bits that opening a directory with `flags` needs, or
    /// nothing when permissions are not checked.
    pub fn open_dir(&self, check_permission: bool, flags: i32) -> (mask: Option<u8>)
        ensures
            mask is Some <==> check_permission,
            mask matches Some(m)
                ==> exists|table: SysTable| m == #[trigger] access_mask_in(table, flags),
    {
        if check_permission {
            let table = libc_sys_table();
            Some(Self::open_dir_mask(&table, flags))
        } else {
            None
        }
    }

    /// Whether a `read_dir` call has to read the directory anew: it has
    /// when nothing is kept from an earlier call, and when it starts over.
    pub fn read_dir_refills(children: usize, offset: i64) -> (b: bool)
        ensures
            b == (children == 0 || offset == 0),
    {
        children == 0 || offset == 0
    }

    /// The entries that a `read_dir` call at `offset` returns of the
    /// `children` entries of the directory: those from `offset` on, or
    /// none if `offset` lies behind the last.
    pub fn read_dir(children: usize, offset: i64) -> (from: Option<usize>)
        ensures
            from == if 0 <= offset < children {
                Some(offset as usize)
            } else {
                None::<usize>
            },
    {
        if offset >= 0 && (offset as u64) < (children as u64) {
            Some(offset as usize)
        } else {
            None
        }
    }

    /// Checks the name of a new entry of `parent`.
    pub fn check_new_entry(&self, parent: Ino, name: &str) -> (res: Result<(), Errno>)
        ensures
            res == match entry_refusal(self.internal_nodes(), parent, name) {
                Some(e) => Err::<(), Errno>(e),
                None => Ok::<(), Errno>(()),
            },
    {
        if parent.is_root() && self.internal_nodes.contains_name(name) {
            return Err(Errno::EEXIST);
        }
        if name.len() > MAX_NAME_LENGTH {
            return Err(Errno::ENAMETOOLONG);
        }
        Ok(())
    }

    /// What a `mknod` call comes to under `table`: the refusal of the
    /// entry, if it is refused; else the kind of file that the mode names,
    /// with the permission bits of the mode; a mode that names no kind of
    /// file is not permitted.
    pub open spec fn mknod_answer(&self, table: SysTable, parent: Ino, name: &str, mode: u32) -> Result<
        (FileType, u16),
        Errno,
    > {
        match entry_refusal(self.internal_nodes(), parent, name) {
            Some(e) => Err(e),
            None => match file_type_in(table, mode) {
                Some(kind) => Ok((kind, (mode as u16) & 0o777)),
                None => Err(Errno::EPERM),
            },
        }
    }

    /// Checks a `mknod` call under `table` and says what the metadata
    /// service is to make: a file of which kind, with which permission
    /// bits.
    pub fn mknod_in(&self, table: &SysTable, parent: Ino, name: &str, mode: u32) -> (res: Result<
        (FileType, u16),
        Errno,
    >)
        ensures
            res == self.mknod_answer(*table, parent, name, mode),
    {
        match self.check_new_entry(parent, name) {
            Err(e) => Err(e),
            Ok(_) => match file_type_of(table, mode) {
                Some(kind) => Ok((kind, (mode as u16) & 0o777)),
                None => Err(Errno::EPERM),
            },
        }
    }

    /// Checks a `mknod` call and says what the metadata service is to
    /// make, with the numbers of this operating system for the kinds of
    /// file.
    pub fn mknod(&self, parent: Ino, name: &str, mode: u32) -> (res: Result<(FileType, u16), Errno>)
        ensures
            exists|table: SysTable| res == #[trigger] self.mknod_answer(table, parent, name, mode),
    {
        let table = libc_sys_table();
        self.mknod_in(&table, parent, name, mode)
    }

    /// Checks a `create` call and says with which permission bits the
    /// metadata service is to make the file.
    pub fn create(&self, parent: Ino, name: &str, mode: u16) -> (res: Result<u16, Errno>)
        ensures
            res == match entry_refusal(self.internal_nodes(), parent, name) {
                Some(e) => Err::<u16, Errno>(e),
                None => Ok::<u16, Errno>(mode & 0o777),
            },
    {
        match self.check_new_entry(parent, name) {
            Err(e) => Err(e),
            Ok(_) => Ok(mode & 0o777),
        }
    }

    /// Checks a `mkdir` call.
    pub fn mkdir(&self, parent: Ino, name: &str) -> (res: Result<(), Errno>)
        ensures
            res == match entry_refusal(self.internal_nodes(), parent, name) {
                Some(e) => Err::<(), Errno>(e),
                None => Ok::<(), Errno>(()),
            },
    {
        self.check_new_entry(parent, name)
    }

    /// Answers a `set_attr` call for an internal inode: its attributes as
    /// they are, or "not permitted" if there is no such internal inode.
    pub fn set_attr_special(&self, ino: Ino) -> (res: Result<InodeAttr, Errno>)
        requires
            ino.0 >= MIN_INTERNAL_INODE,
        ensures
            res is Ok <==> node_numbered(self.internal_nodes().nodes(), ino, 0) >= 0,
            res matches Ok(a) ==> a == self.internal_nodes().nodes()[node_numbered(
                self.internal_nodes().nodes(),
                ino,
                0,
            )].0.attr,
            res is Err ==> res->Err_0 == Errno::EPERM,
    {
        match self.internal_nodes.get_internal_node(ino) {
            Some(n) => Ok(n.get_attr()),
            None => Err(Errno::EPERM),
        }
    }

    /// Decides what a `set_attr` call for an ordinary inode asks the
    /// metadata service to store.
    ///
    /// `base` holds the attributes to start from: those that setting the
    /// length left when the call sets the length, fresh ones otherwise.
    /// Every flag of the call needs its value; the times may be given or
    /// be `now`.
    pub fn set_attr(
        flags: u32,
        atime: Option<TimeOrNow>,
        mtime: Option<TimeOrNow>,
        mode: Option<u32>,
        uid: Option<u32>,
        gid: Option<u32>,
        size: Option<u64>,
        base: InodeAttr,
        now: Timestamp,
    ) -> (res: Result<SetAttrPlan, Errno>)
        requires
            flags & !SET_ATTR_ALL == 0,
        ensures
            res == match set_attr_refusal(SetAttrFlags(flags), atime, mtime, mode, uid, gid, size) {
                Some(e) => Err::<SetAttrPlan, Errno>(e),
                None => Ok::<SetAttrPlan, Errno>(
                    set_attr_plan(SetAttrFlags(flags), atime, mtime, mode, uid, gid, base, now),
                ),
            },
    {
        let flags = SetAttrFlags(flags);
        let mut new_attr = base;
        if flags.contains(SET_ATTR_SIZE) {
            if size.is_none() {
                return Err(Errno::EPERM);
            }
        }
        if flags.contains(SET_ATTR_MODE) {
            match mode {
                Some(mode) => {
                    new_attr.perm = (mode as u16) & 0o777;
                },
                None => {
                    return Err(Errno::EINVAL);
                },
            }
        }
        if flags.contains(SET_ATTR_UID) {
            match uid {
                Some(uid) => {
                    new_attr.uid = uid;
                },
                None => {
                    return Err(Errno::EINVAL);
                },
            }
        }
        if flags.contains(SET_ATTR_GID) {
            match gid {
                Some(gid) => {
                    new_attr.gid = gid;
                },
                None => {
                    return Err(Errno::EINVAL);
                },
            }
        }
        let mut need_update: bool = false;
        if flags.contains(SET_ATTR_ATIME) {
            match atime {
                Some(atime) => {
                    new_attr.atime = match atime {
                        TimeOrNow::SpecificTime(st) => st,
                        TimeOrNow::Now => now,
                    };
                    need_update = true;
                },
                None => {
                    return Err(Errno::EINVAL);
                },
            }
        }
        if flags.contains(SET_ATTR_MTIME) {
            match mtime {
                Some(mtime) => {
                    new_attr.mtime = match mtime {
                        TimeOrNow::SpecificTime(st) => st,
                        TimeOrNow::Now => {
                            need_update = true;
                            now
                        },
                    };
                },
                None => {
                    return Err(Errno::EINVAL);
                },
            }
        }
        let pass_mtime: Option<Timestamp> = if need_update && (flags.contains(SET_ATTR_MTIME)
            || flags.contains(SET_ATTR_MTIME_NOW)) {
            match mtime {
                Some(TimeOrNow::SpecificTime(st)) => Some(st),
                Some(TimeOrNow::Now) => Some(now),
                None => None,
            }
        } else {
            None
        };
        Ok(SetAttrPlan { attr: new_attr, need_update, mtime: pass_mtime })
    }

    /// Checks an `open` call: the internal inodes cannot be opened.
    pub fn open(inode: Ino) -> (res: Result<(), Errno>)
        ensures
            res == if inode.0 >= MIN_INTERNAL_INODE {
                Err::<(), Errno>(Errno::EACCES)
            } else {
                Ok::<(), Errno>(())
            },
    {
        if inode.is_special() {
            return Err(Errno::EACCES);
        }
        Ok(())
    }

    /// The flags of the reply to an `open` call: direct I/O for an
    /// internal inode, else "keep the cache" if the attributes say so.
    pub fn opened_flags(inode: Ino, attr: &InodeAttr) -> (flags: u32)
        ensures
            flags == if inode.0 >= MIN_INTERNAL_INODE {
                FOPEN_DIRECT_IO
            } else if attr.keep_cache {
                FOPEN_KEEP_CACHE
            } else {
                0
            },
    {
        if inode.is_special() {
            FOPEN_DIRECT_IO
        } else if attr.keep_cache {
            FOPEN_KEEP_CACHE
        } else {
            0
        }
    }

    /// Checks a `read` call on an ordinary inode: the handle and the
    /// reader must be known, and the range must lie within the largest
    /// file. Says at which offset to read.
    pub fn read(ino: Ino, handle_known: bool, reader_known: bool, offset: i64, size: u32) -> (res:
        Result<u64, Errno>)
        requires
            ino.0 < MIN_INTERNAL_INODE,
        ensures
            res == if !handle_known {
                Err::<u64, Errno>(Errno::EBADF)
            } else if range_refusal(offset, size as u64) is Some {
                Err::<u64, Errno>(Errno::EFBIG)
            } else if !reader_known {
                Err::<u64, Errno>(Errno::EBADF)
            } else {
                Ok::<u64, Errno>(offset as u64)
            },
    {
        if !handle_known {
            return Err(Errno::EBADF);
        }
        let at: u64 = match check_file_range(offset, size as u64) {
            Ok(at) => at,
            Err(e) => {
                return Err(e);
            },
        };
        if !reader_known {
            return Err(Errno::EBADF);
        }
        Ok(at)
    }

    /// Checks a `write` call: the range must lie within the largest file,
    /// the handle must be known, the control file takes no writes, and the
    /// inode must have a writer. Says at which offset to write.
    pub fn write(ino: Ino, handle_known: bool, writer_known: bool, offset: i64, size: usize) -> (res:
        Result<u64, Errno>)
        ensures
            res == if range_refusal(offset, size as u64) is Some {
                Err::<u64, Errno>(Errno::EFBIG)
            } else if !handle_known {
                Err::<u64, Errno>(Errno::EBADF)
            } else if ino.0 == CONTROL_INODE {
                Err::<u64, Errno>(Errno::EACCES)
            } else if !writer_known {
                Err::<u64, Errno>(Errno::EBADF)
            } else {
                Ok::<u64, Errno>(offset as u64)
            },
    {
        let at: u64 = match check_file_range(offset, size as u64) {
            Ok(at) => at,
            Err(e) => {
                return Err(e);
            },
        };
        if !handle_known {
            return Err(Errno::EBADF);
        }
        if ino.0 == CONTROL_INODE {
            return Err(Errno::EACCES);
        }
        if !writer_known {
            return Err(Errno::EBADF);
        }
        Ok(at)
    }

    /// Decides what a `flush` call does: nothing for an internal inode;
    /// else it flushes the writer, forgets the owner of the open file
    /// description unless that is the lock owner, and releases the lock
    /// owner's locks if the handle holds any of their kind.
    pub fn flush(ino: Ino, handle_known: bool, lock_owner: u64, ofd_owner: u64, locks: u8) -> (res:
        Result<FlushSteps, Errno>)
        ensures
            res == if !handle_known {
                Err::<FlushSteps, Errno>(Errno::EBADF)
            } else if ino.0 >= MIN_INTERNAL_INODE {
                Ok::<FlushSteps, Errno>(
                    FlushSteps { flush_writer: false, clear_ofd_owner: false, unlock: false },
                )
            } else {
                Ok::<FlushSteps, Errno>(
                    FlushSteps {
                        flush_writer: true,
                        clear_ofd_owner: lock_owner != ofd_owner,
                        unlock: locks & 2 != 0,
                    },
                )
            },
    {
        if !handle_known {
            return Err(Errno::EBADF);
        }
        if ino.is_special() {
            return Ok(FlushSteps { flush_writer: false, clear_ofd_owner: false, unlock: false });
        }
        Ok(
            FlushSteps {
                flush_writer: true,
                clear_ofd_owner: lock_owner != ofd_owner,
                unlock: locks & 2 != 0,
            },
        )
    }

    /// Decides whether an `fsync` call flushes the writer of the inode:
    /// not for an internal inode; else the handle must be known.
    pub fn fsync(ino: Ino, handle_known: bool) -> (res: Result<bool, Errno>)
        ensures
            res == if ino.0 >= MIN_INTERNAL_INODE {
                Ok::<bool, Errno>(false)
            } else if !handle_known {
                Err::<bool, Errno>(Errno::EBADF)
            } else {
                Ok::<bool, Errno>(true)
            },
    {
        if ino.is_special() {
            return Ok(false);
        }
        if !handle_known {
            return Err(Errno::EBADF);
        }
        Ok(true)
    }
}

} // verus!
