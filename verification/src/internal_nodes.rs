//! The inodes that the filesystem itself puts under the root directory.
use vstd::prelude::*;
use vstd::string::{StrSliceExecFns, StringExecFns};
use std::time::Duration;
use crate::attr::{FileType, InodeAttr, Timestamp};
use crate::ino::{Ino, CONFIG_INODE, CONTROL_INODE, LOG_INODE, MAX_INTERNAL_INODE, STATS_INODE};

verus! {

/// Name of the access log.
pub const LOG_INODE_NAME: &'static str = ".accesslog";

/// Name of the control file.
pub const CONTROL_INODE_NAME: &'static str = ".control";

/// Name of the statistics file.
pub const STATS_INODE_NAME: &'static str = ".stats";

/// Name of the configuration file.
pub const CONFIG_INODE_NAME: &'static str = ".config";

/// Name of the trash directory.
pub const TRASH_INODE_NAME: &'static str = ".trash";

/// What is put in front of the names of the internal inodes on request.
pub const INTERNAL_PREFIX: &'static str = ".kfs";

/// An entry of a directory.
#[derive(Debug, Clone)]
pub struct Entry {
    pub inode: Ino,
    pub name: String,
    pub attr: InodeAttr,
    pub ttl: Option<Duration>,
    pub generation: Option<u64>,
}

/// What an entry stands for.
pub struct EntryView {
    pub inode: Ino,
    pub name: Seq<char>,
    pub attr: InodeAttr,
    pub ttl: Option<Duration>,
    pub generation: Option<u64>,
}

impl View for Entry {
    type V = EntryView;

    open spec fn view(&self) -> EntryView {
        EntryView {
            inode: self.inode,
            name: self.name@,
            attr: self.attr,
            ttl: self.ttl,
            generation: self.generation,
        }
    }
}

/// An inode that the filesystem itself puts under the root directory.
#[derive(Debug)]
pub struct InternalNode(pub Entry);

impl InternalNode {
    /// The attributes of the inode.
    pub fn get_attr(&self) -> (attr: InodeAttr)
        ensures
            attr == self.0.attr,
    {
        self.0.attr
    }
}

/// Position of the first of `nodes`, from `from` on, with the name `name`,
/// or -1 if there is none.
pub open spec fn node_named(nodes: Seq<InternalNode>, name: Seq<char>, from: int) -> int
    decreases nodes.len() - from,
{
    if from < 0 || from >= nodes.len() {
        -1
    } else if nodes[from].0.name@ == name {
        from
    } else {
        node_named(nodes, name, from + 1)
    }
}

/// Position of the first of `nodes`, from `from` on, with the inode `ino`,
/// or -1 if there is none.
pub open spec fn node_numbered(nodes: Seq<InternalNode>, ino: Ino, from: int) -> int
    decreases nodes.len() - from,
{
    if from < 0 || from >= nodes.len() {
        -1
    } else if nodes[from].0.inode == ino {
        from
    } else {
        node_numbered(nodes, ino, from + 1)
    }
}

/// The internal node `inode` named `name` with the permissions `perm`,
/// made at `now` by `uid` of `gid`, valid for `ttl`.
pub open spec fn file_node(
    inode: u64,
    name: Seq<char>,
    perm: u16,
    now: Timestamp,
    uid: u32,
    gid: u32,
    ttl: Duration,
) -> EntryView {
    EntryView {
        inode: Ino(inode),
        name,
        attr: InodeAttr {
            flags: 0,
            kind: FileType::RegularFile,
            perm,
            uid,
            gid,
            rdev: 0,
            atime: now,
            mtime: now,
            ctime: now,
            crtime: now,
            nlink: 1,
            length: 0,
            parent: Ino(0),
            keep_cache: false,
        },
        ttl: Some(ttl),
        generation: Some(1),
    }
}

/// The trash directory, made at `now` by `uid` of `gid`, valid for `ttl`.
pub open spec fn trash_node(now: Timestamp, uid: u32, gid: u32, ttl: Duration) -> EntryView {
    EntryView {
        inode: Ino(MAX_INTERNAL_INODE),
        name: TRASH_INODE_NAME@,
        attr: InodeAttr {
            flags: 0,
            kind: FileType::Directory,
            perm: 0o555,
            uid,
            gid,
            rdev: 0,
            atime: now,
            mtime: now,
            ctime: now,
            crtime: now,
            nlink: 2,
            length: 0,
            parent: Ino(0),
            keep_cache: false,
        },
        ttl: Some(ttl),
        generation: Some(1),
    }
}

/// The name `name` with the prefix of the internal inodes: `.kfs` in place
/// of the dot that the name begins with, or in front of a name that begins
/// with none.
pub open spec fn prefixed(name: Seq<char>) -> Seq<char> {
    if name.len() > 0 && name[0] == '.' {
        INTERNAL_PREFIX@ + name.subrange(1, name.len() as int)
    } else {
        INTERNAL_PREFIX@ + name
    }
}

/// The name `name` with the prefix of the internal inodes.
pub fn with_prefix(name: &str) -> (out: String)
    ensures
        out@ == prefixed(name@),
{
    let n: usize = name.unicode_len();
    let rest: &str = if n > 0 && name.get_char(0) == '.' {
        name.substring_char(1, n)
    } else {
        name
    };
    String::from_str(INTERNAL_PREFIX).concat(rest)
}

/// Whether `name` is a name of the trash directory: its name as it is, or
/// with the prefix of the internal inodes.
pub open spec fn is_trash_name(name: Seq<char>) -> bool {
    name == TRASH_INODE_NAME@ || name == prefixed(TRASH_INODE_NAME@)
}

/// The internal inodes `nodes` without those that go by a name of the
/// trash directory, in their order.
pub open spec fn without_trash(nodes: Seq<InternalNode>) -> Seq<InternalNode>
    decreases nodes.len(),
{
    if nodes.len() == 0 {
        Seq::<InternalNode>::empty()
    } else if is_trash_name(nodes.last().0.name@) {
        without_trash(nodes.drop_last())
    } else {
        without_trash(nodes.drop_last()).push(nodes.last())
    }
}

/// The table of the internal inodes.
#[derive(Debug)]
pub struct PreInternalNodes {
    nodes: Vec<InternalNode>,
}

impl PreInternalNodes {
    /// The internal inodes of the table.
    pub closed spec fn nodes(&self) -> Seq<InternalNode> {
        self.nodes@
    }

    /// The table of the five internal inodes: the access log, the control
    /// file, the statistics file, the configuration file and the trash
    /// directory. The files are valid for `entry_timeout.0`, the directory
    /// for `entry_timeout.1`.
    pub fn new(entry_timeout: (Duration, Duration), now: Timestamp, uid: u32, gid: u32) -> (table:
        PreInternalNodes)
        ensures
            table.nodes().len() == 5,
            table.nodes()[0].0@ == file_node(
                LOG_INODE,
                LOG_INODE_NAME@,
                0o400,
                now,
                uid,
                gid,
                entry_timeout.0,
            ),
            table.nodes()[1].0@ == file_node(
                CONTROL_INODE,
                CONTROL_INODE_NAME@,
                0o666,
                now,
                uid,
                gid,
                entry_timeout.0,
            ),
            table.nodes()[2].0@ == file_node(
                STATS_INODE,
                STATS_INODE_NAME@,
                0o400,
                now,
                uid,
                gid,
                entry_timeout.0,
            ),
            table.nodes()[3].0@ == file_node(
                CONFIG_INODE,
                CONFIG_INODE_NAME@,
                0o400,
                now,
                uid,
                gid,
                entry_timeout.0,
            ),
            table.nodes()[4].0@ == trash_node(now, uid, gid, entry_timeout.1),
    {
        let mut control_attr = InodeAttr::default_at(now, uid, gid);
        control_attr.set_perm(0o666);
        let mut file_attr = InodeAttr::default_at(now, uid, gid);
        file_attr.set_perm(0o400);
        let mut trash_attr = InodeAttr::default_at(now, uid, gid);
        trash_attr.set_perm(0o555).set_kind(FileType::Directory).set_nlink(2).set_uid(uid).set_gid(
            gid,
        );
        let mut nodes: Vec<InternalNode> = Vec::new();
        nodes.push(
            InternalNode(
                Entry {
                    inode: Ino(LOG_INODE),
                    name: String::from_str(LOG_INODE_NAME),
                    attr: file_attr,
                    ttl: Some(entry_timeout.0),
                    generation: Some(1),
                },
            ),
        );
        nodes.push(
            InternalNode(
                Entry {
                    inode: Ino(CONTROL_INODE),
                    name: String::from_str(CONTROL_INODE_NAME),
                    attr: control_attr,
                    ttl: Some(entry_timeout.0),
                    generation: Some(1),
                },
            ),
        );
        nodes.push(
            InternalNode(
                Entry {
                    inode: Ino(STATS_INODE),
                    name: String::from_str(STATS_INODE_NAME),
                    attr: file_attr,
                    ttl: Some(entry_timeout.0),
                    generation: Some(1),
                },
            ),
        );
        nodes.push(
            InternalNode(
                Entry {
                    inode: Ino(CONFIG_INODE),
                    name: String::from_str(CONFIG_INODE_NAME),
                    attr: file_attr,
                    ttl: Some(entry_timeout.0),
                    generation: Some(1),
                },
            ),
        );
        nodes.push(
            InternalNode(
                Entry {
                    inode: Ino(MAX_INTERNAL_INODE),
                    name: String::from_str(TRASH_INODE_NAME),
                    attr: trash_attr,
                    ttl: Some(entry_timeout.1),
                    generation: Some(1),
                },
            ),
        );
        PreInternalNodes { nodes }
    }

    /// Looks for the first internal inode with the name `name`.
    fn position_by_name(&self, name: &str) -> (pos: Option<usize>)
        ensures
            pos is Some <==> node_named(self.nodes(), name@, 0) >= 0,
            pos matches Some(i) ==> i == node_named(self.nodes(), name@, 0) && i
                < self.nodes().len() && self.nodes()[i as int].0.name@ == name@,
    {
        let wanted: String = name.to_owned();
        let mut i: usize = 0;
        while i < self.nodes.len()
            invariant
                i <= self.nodes.len(),
                wanted@ == name@,
                node_named(self.nodes(), name@, 0) == node_named(self.nodes(), name@, i as int),
            decreases self.nodes.len() - i,
        {
            if self.nodes[i].0.name == wanted {
                return Some(i);
            }
            i = i + 1;
        }
        None
    }

    /// The internal inode with the name `name`, if there is one.
    pub fn get_internal_node_by_name(&self, name: &str) -> (node: Option<&InternalNode>)
        ensures
            node is Some <==> node_named(self.nodes(), name@, 0) >= 0,
            node is Some ==> node_named(self.nodes(), name@, 0) < self.nodes().len(),
            node matches Some(n) ==> *n == self.nodes()[node_named(self.nodes(), name@, 0)],
    {
        match self.position_by_name(name) {
            Some(i) => Some(&self.nodes[i]),
            None => None,
        }
    }

    /// The internal inode with the name `name`, if there is one, to be
    /// changed in place.
    pub fn get_mut_internal_node_by_name(&mut self, name: &str) -> (node: Option<
        &mut InternalNode,
    >)
        ensures
            node is Some <==> node_named(old(self).nodes(), name@, 0) >= 0,
            node is Some ==> node_named(old(self).nodes(), name@, 0) < old(self).nodes().len(),
            node matches Some(n) ==> *n == old(self).nodes()[node_named(
                old(self).nodes(),
                name@,
                0,
            )] && final(self).nodes() == old(self).nodes().update(
                node_named(old(self).nodes(), name@, 0),
                *final(n),
            ),
            node is None ==> final(self).nodes() == old(self).nodes(),
    {
        match self.position_by_name(name) {
            Some(i) => Some(&mut self.nodes[i]),
            None => None,
        }
    }

    /// The internal inode with the number `ino`, if there is one.
    pub fn get_internal_node(&self, ino: Ino) -> (node: Option<&InternalNode>)
        ensures
            node is Some <==> node_numbered(self.nodes(), ino, 0) >= 0,
            node is Some ==> node_numbered(self.nodes(), ino, 0) < self.nodes().len(),
            node matches Some(n) ==> *n == self.nodes()[node_numbered(self.nodes(), ino, 0)]
                && n.0.inode == ino,
    {
        let mut i: usize = 0;
        while i < self.nodes.len()
            invariant
                i <= self.nodes.len(),
                node_numbered(self.nodes(), ino, 0) == node_numbered(self.nodes(), ino, i as int),
            decreases self.nodes.len() - i,
        {
            if self.nodes[i].0.inode.0 == ino.0 {
                return Some(&self.nodes[i]);
            }
            i = i + 1;
        }
        None
    }

    /// Takes the trash directory out of the table: every internal inode
    /// that goes by the name of the trash directory, with or without the
    /// prefix. The other internal inodes stay, in their order.
    pub fn remove_trash_node(&mut self)
        ensures
            final(self).nodes() == without_trash(old(self).nodes()),
    {
        let plain: String = String::from_str(TRASH_INODE_NAME);
        let long: String = with_prefix(TRASH_INODE_NAME);
        let mut rest: Vec<InternalNode> = Vec::new();
        std::mem::swap(&mut self.nodes, &mut rest);
        let ghost all = rest@;
        let ghost mut k: int = 0;
        proof {
            assert(all.take(0) =~= Seq::<InternalNode>::empty());
            assert(all.skip(0) =~= all);
        }
        while rest.len() > 0
            invariant
                0 <= k <= all.len(),
                rest@ == all.skip(k),
                self.nodes() == without_trash(all.take(k)),
                plain@ == TRASH_INODE_NAME@,
                long@ == prefixed(TRASH_INODE_NAME@),
            decreases rest.len(),
        {
            let node = rest.remove(0);
            proof {
                assert(node == all[k]);
                assert(all.take(k + 1).drop_last() =~= all.take(k));
                assert(all.take(k + 1).last() == all[k]);
                assert(rest@ =~= all.skip(k + 1));
                k = k + 1;
            }
            if node.0.name == plain || node.0.name == long {
            } else {
                self.nodes.push(node);
            }
        }
        proof {
            assert(all.take(k) =~= all);
        }
    }

    /// Gives the name of every internal inode its prefix: `.config` becomes
    /// `.kfsconfig`.
    pub fn add_prefix(&mut self)
        ensures
            final(self).nodes().len() == old(self).nodes().len(),
            forall|i: int|
                0 <= i < old(self).nodes().len() ==> (#[trigger] final(self).nodes()[i]).0@ == (
                EntryView {
                    name: prefixed(old(self).nodes()[i].0.name@),
                    ..old(self).nodes()[i].0@
                }),
    {
        let mut i: usize = 0;
        while i < self.nodes.len()
            invariant
                i <= self.nodes.len(),
                self.nodes().len() == old(self).nodes().len(),
                forall|j: int|
                    0 <= j < i ==> (#[trigger] self.nodes()[j]).0@ == (EntryView {
                        name: prefixed(old(self).nodes()[j].0.name@),
                        ..old(self).nodes()[j].0@
                    }),
                forall|j: int| i <= j < self.nodes().len() ==> self.nodes()[j] == old(self).nodes()[j],
            decreases self.nodes.len() - i,
        {
            let ghost before = self.nodes();
            let name: String = with_prefix(self.nodes[i].0.name.as_str());
            self.nodes[i].0.name = name;
            proof {
                assert forall|j: int| 0 <= j < i + 1 implies (#[trigger] self.nodes()[j]).0@ == (
                EntryView {
                    name: prefixed(old(self).nodes()[j].0.name@),
                    ..old(self).nodes()[j].0@
                }) by {
                    if j < i {
                        assert(self.nodes()[j] == before[j]);
                    }
                }
            }
            i = i + 1;
        }
    }

    /// Whether an internal inode has the name `name`.
    pub fn contains_name(&self, name: &str) -> (b: bool)
        ensures
            b == (node_named(self.nodes(), name@, 0) >= 0),
    {
        self.position_by_name(name).is_some()
    }
}

/// What the search by name finds: the first node with the name, and
/// nothing only where no node has it.
pub proof fn lemma_node_named(nodes: Seq<InternalNode>, name: Seq<char>, from: int)
    requires
        0 <= from <= nodes.len(),
    ensures
        ({
            let r = node_named(nodes, name, from);
            &&& r == -1 || from <= r < nodes.len()
            &&& r >= 0 ==> nodes[r].0.name@ == name
            &&& forall|j: int|
                from <= j < (if r >= 0 {
                    r
                } else {
                    nodes.len() as int
                }) ==> (#[trigger] nodes[j]).0.name@ != name
        }),
    decreases nodes.len() - from,
{
    if from < nodes.len() && nodes[from].0.name@ != name {
        lemma_node_named(nodes, name, from + 1);
    }
}

/// The first node with the name is what the search by name finds.
pub proof fn lemma_first_named(nodes: Seq<InternalNode>, name: Seq<char>, i: int)
    requires
        0 <= i < nodes.len(),
        nodes[i].0.name@ == name,
        forall|j: int| 0 <= j < i ==> (#[trigger] nodes[j]).0.name@ != name,
    ensures
        node_named(nodes, name, 0) == i,
{
    lemma_node_named(nodes, name, 0);
}

/// Taking the trash directory out of the table takes out what goes by its
/// name and nothing else: afterwards no internal inode is found under a
/// name of the trash directory, every other name finds the internal inode
/// that it found before, and taking the trash directory out once more
/// changes nothing.
pub proof fn lemma_without_trash(nodes: Seq<InternalNode>, name: Seq<char>)
    ensures
        is_trash_name(name) ==> node_named(without_trash(nodes), name, 0) < 0,
        !is_trash_name(name) ==> (node_named(without_trash(nodes), name, 0) >= 0 <==> node_named(
            nodes,
            name,
            0,
        ) >= 0),
        !is_trash_name(name) && node_named(nodes, name, 0) >= 0 ==> without_trash(
            nodes,
        )[node_named(without_trash(nodes), name, 0)] == nodes[node_named(nodes, name, 0)],
        without_trash(without_trash(nodes)) == without_trash(nodes),
        without_trash(nodes).len() <= nodes.len(),
    decreases nodes.len(),
{
    let kept = without_trash(nodes);
    lemma_node_named(nodes, name, 0);
    lemma_node_named(kept, name, 0);
    if nodes.len() > 0 {
        let head = nodes.drop_last();
        let last = nodes.last();
        let kept_head = without_trash(head);
        lemma_without_trash(head, name);
        lemma_node_named(head, name, 0);
        lemma_node_named(kept_head, name, 0);
        let r = node_named(head, name, 0);
        let q = node_named(kept_head, name, 0);
        assert(nodes[nodes.len() - 1] == last);
        assert forall|j: int| 0 <= j < head.len() implies head[j] == nodes[j] by {}
        if is_trash_name(last.0.name@) {
            assert(kept == kept_head);
            if r >= 0 {
                lemma_first_named(nodes, name, r);
            } else if last.0.name@ == name {
                lemma_first_named(nodes, name, nodes.len() - 1);
            }
        } else {
            assert(kept == kept_head.push(last));
            assert forall|j: int| 0 <= j < kept_head.len() implies kept[j] == kept_head[j] by {}
            assert(kept[kept_head.len() as int] == last);
            if r >= 0 {
                lemma_first_named(nodes, name, r);
            } else if last.0.name@ == name {
                lemma_first_named(nodes, name, nodes.len() - 1);
            }
            if q >= 0 {
                lemma_first_named(kept, name, q);
            } else if last.0.name@ == name {
                lemma_first_named(kept, name, kept_head.len() as int);
            }
            assert(kept.drop_last() =~= kept_head);
            assert(kept.last() == last);
        }
    }
}

} // verus!
