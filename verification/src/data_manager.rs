//! The owner of the page pool, of the file writers and of the file readers.
use vstd::prelude::*;
use dashmap::DashMap;
use sonyflake::Sonyflake;
use crate::err::{StorageError, VFSError};
use crate::errno::Errno;
use crate::file_writer::{FileWriter, FlushKind, OpResult, SliceOp, WriteOutcome};
use crate::common::{BLOCK_SIZE, CHUNK_SIZE};
use crate::pool::DiskPagePool;
use crate::reader::FileReader;
use crate::slice_writer::{FlushReq, SliceHandle};

verus! {

/// The table from inode to the inode's file writer.
pub type FileWriters = DashMap<u64, FileWriter>;

/// What a table of file writers holds.
pub uninterp spec fn file_writers(m: FileWriters) -> Map<u64, FileWriter>;

/// `DashMap::new`: a table without entries.
#[verifier::external_body]
fn writers_new() -> (m: FileWriters)
    ensures
        file_writers(m) == (Map::<u64, FileWriter>::empty()),
{
    DashMap::new()
}

/// `DashMap::remove`: takes the entry of `ino` out of the table and hands
/// its value over, or nothing if the table has no such entry.
#[verifier::external_body]
fn writers_take(m: &mut FileWriters, ino: u64) -> (taken: Option<FileWriter>)
    ensures
        file_writers(*final(m)) == file_writers(*old(m)).remove(ino),
        taken == if file_writers(*old(m)).contains_key(ino) {
            Some(file_writers(*old(m))[ino])
        } else {
            None
        },
{
    m.remove(&ino).map(|entry| entry.1)
}

/// `DashMap::insert`: sets the entry of `ino` to `fw` and hands over the
/// value that the entry had before, if there was one.
#[verifier::external_body]
fn writers_put(m: &mut FileWriters, ino: u64, fw: FileWriter) -> (before: Option<FileWriter>)
    ensures
        file_writers(*final(m)) == file_writers(*old(m)).insert(ino, fw),
        before == if file_writers(*old(m)).contains_key(ino) {
            Some(file_writers(*old(m))[ino])
        } else {
            None
        },
{
    m.insert(ino, fw)
}

/// `DashMap::contains_key`: whether the table has an entry for `ino`.
#[verifier::external_body]
fn writers_has(m: &FileWriters, ino: u64) -> (has: bool)
    ensures
        has == file_writers(*m).contains_key(ino),
{
    m.contains_key(&ino)
}

/// The table from inode and file handle to the handle's file reader.
pub type FileReaders = DashMap<(u64, u64), FileReader>;

/// What a table of file readers holds.
pub uninterp spec fn file_readers(m: FileReaders) -> Map<(u64, u64), FileReader>;

/// `DashMap::new`: a table without entries.
#[verifier::external_body]
fn readers_new() -> (m: FileReaders)
    ensures
        file_readers(m) == (Map::<(u64, u64), FileReader>::empty()),
{
    DashMap::new()
}

/// `DashMap::remove`: takes the entry of `key` out of the table and hands
/// its value over, or nothing if the table has no such entry.
#[verifier::external_body]
fn readers_take(m: &mut FileReaders, key: (u64, u64)) -> (taken: Option<FileReader>)
    ensures
        file_readers(*final(m)) == file_readers(*old(m)).remove(key),
        taken == if file_readers(*old(m)).contains_key(key) {
            Some(file_readers(*old(m))[key])
        } else {
            None
        },
{
    m.remove(&key).map(|entry| entry.1)
}

/// `DashMap::insert`: sets the entry of `key` to `fr` and hands over the
/// value that the entry had before, if there was one.
#[verifier::external_body]
fn readers_put(m: &mut FileReaders, key: (u64, u64), fr: FileReader) -> (before: Option<
    FileReader,
>)
    ensures
        file_readers(*final(m)) == file_readers(*old(m)).insert(key, fr),
        before == if file_readers(*old(m)).contains_key(key) {
            Some(file_readers(*old(m))[key])
        } else {
            None
        },
{
    m.insert(key, fr)
}

/// `DashMap::contains_key`: whether the table has an entry for `key`.
#[verifier::external_body]
fn readers_has(m: &FileReaders, key: (u64, u64)) -> (has: bool)
    ensures
        has == file_readers(*m).contains_key(key),
{
    m.contains_key(&key)
}

/// `Sonyflake::clone`: another handle to the same generator. Nothing is
/// claimed of it.
#[verifier::external_body]
fn share_generator(generator: &Sonyflake) -> (shared: Sonyflake) {
    generator.clone()
}

/// The owner of the page pool, of the file writers and of the file
/// readers.
pub struct DataManager {
    pool: DiskPagePool,
    file_writers: FileWriters,
    file_readers: FileReaders,
    id_generator: Sonyflake,
}

impl DataManager {
    /// The page pool.
    pub closed spec fn pool(&self) -> DiskPagePool {
        self.pool
    }

    /// The file writers, by inode.
    pub closed spec fn writers(&self) -> Map<u64, FileWriter> {
        file_writers(self.file_writers)
    }

    /// The file readers, by inode and file handle.
    pub closed spec fn readers(&self) -> Map<(u64, u64), FileReader> {
        file_readers(self.file_readers)
    }

    /// The manager's invariant: the pool, every file writer and every file
    /// reader are well formed, every file writer stands under its own
    /// inode, and every file reader under its own inode and file handle.
    pub open spec fn wf(&self) -> bool {
        &&& self.pool().wf()
        &&& forall|ino: u64| #[trigger]
            self.writers().contains_key(ino) ==> self.writers()[ino].wf()
                && self.writers()[ino].inode() == ino
        &&& forall|key: (u64, u64)| #[trigger]
            self.readers().contains_key(key) ==> self.readers()[key].wf()
                && self.readers()[key].inode() == key.0 && self.readers()[key].fh() == key.1
    }

    /// File readers that stay as they are stay in order.
    proof fn lemma_readers_kept(&self, before: DataManager)
        requires
            before.wf(),
            self.readers() == before.readers(),
        ensures
            forall|key: (u64, u64)| #[trigger]
                self.readers().contains_key(key) ==> self.readers()[key].wf()
                    && self.readers()[key].inode() == key.0 && self.readers()[key].fh() == key.1,
    {
        assert forall|key: (u64, u64)| #[trigger]
            self.readers().contains_key(key) implies self.readers()[key].wf()
            && self.readers()[key].inode() == key.0 && self.readers()[key].fh() == key.1 by {
            assert(before.readers().contains_key(key));
        }
    }

    /// File writers that stay as they are stay in order.
    proof fn lemma_writers_kept(&self, before: DataManager)
        requires
            before.wf(),
            self.writers() == before.writers(),
        ensures
            forall|ino: u64| #[trigger]
                self.writers().contains_key(ino) ==> self.writers()[ino].wf()
                    && self.writers()[ino].inode() == ino,
    {
        assert forall|ino: u64| #[trigger]
            self.writers().contains_key(ino) implies self.writers()[ino].wf()
            && self.writers()[ino].inode() == ino by {
            assert(before.writers().contains_key(ino));
        }
    }

    /// A manager of the pool `pool` without file writers; `id_generator`
    /// numbers the slice writers of all files.
    pub fn new(pool: DiskPagePool, id_generator: Sonyflake) -> (dm: DataManager)
        requires
            pool.wf(),
        ensures
            dm.wf(),
            dm.pool() == pool,
            dm.writers() == Map::<u64, FileWriter>::empty(),
            dm.readers() == Map::<(u64, u64), FileReader>::empty(),
    {
        DataManager {
            pool,
            file_writers: writers_new(),
            file_readers: readers_new(),
            id_generator,
        }
    }

    /// Number of free pages of the pool.
    pub fn remain_page_cnt(&self) -> (n: usize)
        ensures
            n == self.pool().free().len(),
    {
        self.pool.remain_page_cnt()
    }

    /// Makes a file writer for the file `ino` of `len` bytes, unless the
    /// file has one already: all handles of a file share its writer. Says
    /// whether a writer was made.
    pub fn open_file_writer(&mut self, ino: u64, len: usize) -> (made: bool)
        requires
            old(self).wf(),
        ensures
            final(self).wf(),
            final(self).readers() == old(self).readers(),
            final(self).pool() == old(self).pool(),
            made == !old(self).writers().contains_key(ino),
            !made ==> final(self).writers() == old(self).writers(),
            made ==> {
                let fw = final(self).writers()[ino];
                &&& final(self).writers() == old(self).writers().insert(ino, fw)
                &&& fw.inode() == ino
                &&& fw.length() == len
                &&& fw.table() == Map::<usize, crate::chunk_table::ChunkWriters>::empty()
                &&& fw.detached().len() == 0
                &&& !fw.manually_flushing()
            },
    {
        if writers_has(&self.file_writers, ino) {
            return false;
        }
        let ghost before = self.writers();
        let fw = FileWriter::new(ino, len, share_generator(&self.id_generator));
        writers_put(&mut self.file_writers, ino, fw);
        proof {
            assert forall|i: u64| #[trigger] self.writers().contains_key(i) implies self.writers()[i].wf()
                && self.writers()[i].inode() == i by {
                if i != ino {
                    assert(before.contains_key(i));
                }
            }
            self.lemma_readers_kept(*old(self));
        }
        true
    }

    /// Whether the file `ino` has a writer.
    pub fn file_writer_exists(&self, ino: u64) -> (b: bool)
        ensures
            b == self.writers().contains_key(ino),
    {
        writers_has(&self.file_writers, ino)
    }

    /// `after` is this manager with the writer `fw` for the file `ino`, the
    /// pool `pool`, and every other writer as it is.
    pub open spec fn with_writer(&self, after: DataManager, ino: u64, fw: FileWriter, pool: DiskPagePool) -> bool {
        &&& after.pool() == pool
        &&& after.writers() == self.writers().insert(ino, fw)
    }

    /// Writes `len` bytes at `offset` of the file `ino` through the file's
    /// writer. A file without writer has no open handle to write through;
    /// what the storage layer refuses interrupts the call.
    pub fn write(&mut self, ino: u64, offset: usize, len: usize) -> (res: Result<
        WriteOutcome,
        VFSError,
    >)
        requires
            old(self).wf(),
            offset + len <= usize::MAX,
        ensures
            final(self).wf(),
            final(self).readers() == old(self).readers(),
            !old(self).writers().contains_key(ino) ==> res is Err && res->Err_0 == (
            VFSError::ErrLIBC { kind: Errno::EBADF })
                && final(self).writers() == old(self).writers()
                && final(self).pool() == old(self).pool(),
            old(self).writers().contains_key(ino) ==> {
                let fw = final(self).writers()[ino];
                &&& old(self).with_writer(*final(self), ino, fw, final(self).pool())
                &&& exists|inner: Result<WriteOutcome, StorageError>|
                    {
                        &&& #[trigger] old(self).writers()[ino].wrote(
                            old(self).pool(),
                            offset,
                            len,
                            fw,
                            final(self).pool(),
                            inner,
                        )
                        &&& inner is Err ==> res is Err && res->Err_0 == (VFSError::ErrLIBC {
                            kind: Errno::EINTR,
                        })
                        &&& inner is Ok ==> res is Ok && res->Ok_0 == inner->Ok_0
                    }
            },
    {
        let ghost before = self.writers();
        match writers_take(&mut self.file_writers, ino) {
            None => {
                proof {
                    assert(self.writers() =~= before);
                    self.lemma_readers_kept(*old(self));
                }
                Err(VFSError::ErrLIBC { kind: Errno::EBADF })
            },
            Some(fw) => {
                let mut fw = fw;
                let inner = fw.write(&mut self.pool, offset, len);
                let ghost after_fw = fw;
                writers_put(&mut self.file_writers, ino, fw);
                proof {
                    assert(self.writers() =~= before.insert(ino, after_fw));
                    self.lemma_readers_kept(*old(self));
                    assert forall|i: u64| #[trigger] self.writers().contains_key(i) implies self.writers()[i].wf()
                        && self.writers()[i].inode() == i by {
                        if i != ino {
                            assert(before.contains_key(i));
                        }
                    }
                }
                match inner {
                    Ok(o) => Ok(o),
                    Err(e) => Err(crate::err::storage_error_to_vfs(e)),
                }
            },
        }
    }

    /// The length that the writer of the file `ino` has reached, or zero
    /// if the file has no writer.
    pub fn get_length(&mut self, ino: u64) -> (len: u64)
        requires
            old(self).wf(),
        ensures
            final(self).wf(),
            final(self).readers() == old(self).readers(),
            final(self).pool() == old(self).pool(),
            final(self).writers() == old(self).writers(),
            len == if old(self).writers().contains_key(ino) {
                old(self).writers()[ino].length() as u64
            } else {
                0
            },
    {
        let ghost before = self.writers();
        match writers_take(&mut self.file_writers, ino) {
            None => {
                proof {
                    assert(self.writers() =~= before);
                    self.lemma_readers_kept(*old(self));
                }
                0
            },
            Some(fw) => {
                let len: u64 = fw.get_length() as u64;
                writers_put(&mut self.file_writers, ino, fw);
                proof {
                    assert(self.writers() =~= before);
                    self.lemma_readers_kept(*old(self));
                }
                len
            },
        }
    }

    /// Starts a manual flush of the file `ino`, if the file has a writer,
    /// and hands out the request for the background flusher, if there is
    /// anything to flush.
    pub fn flush_if_exists(&mut self, ino: u64) -> (req: Option<FlushReq>)
        requires
            old(self).wf(),
        ensures
            final(self).wf(),
            final(self).readers() == old(self).readers(),
            final(self).pool() == old(self).pool(),
            !old(self).writers().contains_key(ino) ==> req is None && final(self).writers()
                == old(self).writers(),
            old(self).writers().contains_key(ino) ==> {
                let fw = final(self).writers()[ino];
                &&& final(self).writers() == old(self).writers().insert(ino, fw)
                &&& old(self).writers()[ino].flushed_manually(fw, req)
            },
    {
        let ghost before = self.writers();
        match writers_take(&mut self.file_writers, ino) {
            None => {
                proof {
                    assert(self.writers() =~= before);
                    self.lemma_readers_kept(*old(self));
                }
                None
            },
            Some(fw) => {
                let mut fw = fw;
                let ghost fw0 = fw;
                let req = fw.flush();
                let ghost after_fw = fw;
                proof {
                    if fw0.flush_idle() {
                        assert(after_fw == fw0);
                    }
                    assert(after_fw.inode() == ino);
                }
                writers_put(&mut self.file_writers, ino, fw);
                proof {
                    assert(self.writers() =~= before.insert(ino, after_fw));
                    self.lemma_readers_kept(*old(self));
                    assert forall|i: u64| #[trigger] self.writers().contains_key(i) implies self.writers()[i].wf()
                        && self.writers()[i].inode() == i by {
                        if i != ino {
                            assert(before.contains_key(i));
                        }
                    }
                }
                req
            },
        }
    }

    /// Performs one step of a flush on the slice writer `h` of the file
    /// `ino`. Does nothing, and says so, if there is no such writer.
    pub fn flush_step(&mut self, ino: u64, h: SliceHandle, op: SliceOp) -> (res: Option<OpResult>)
        requires
            old(self).wf(),
        ensures
            final(self).wf(),
            final(self).readers() == old(self).readers(),
            !old(self).writers().contains_key(ino) ==> res is None && final(self).writers()
                == old(self).writers() && final(self).pool() == old(self).pool(),
            old(self).writers().contains_key(ino) ==> {
                let fw = final(self).writers()[ino];
                &&& final(self).writers() == old(self).writers().insert(ino, fw)
                &&& old(self).writers()[ino].stepped(
                    old(self).pool(),
                    h,
                    op,
                    fw,
                    final(self).pool(),
                    res,
                )
            },
    {
        let ghost before = self.writers();
        match writers_take(&mut self.file_writers, ino) {
            None => {
                proof {
                    assert(self.writers() =~= before);
                    self.lemma_readers_kept(*old(self));
                }
                None
            },
            Some(fw) => {
                let mut fw = fw;
                let res = fw.flush_step(&mut self.pool, h, op);
                let ghost after_fw = fw;
                writers_put(&mut self.file_writers, ino, fw);
                proof {
                    assert(self.writers() =~= before.insert(ino, after_fw));
                    self.lemma_readers_kept(*old(self));
                    assert forall|i: u64| #[trigger] self.writers().contains_key(i) implies self.writers()[i].wf()
                        && self.writers()[i].inode() == i by {
                        if i != ino {
                            assert(before.contains_key(i));
                        }
                    }
                }
                res
            },
        }
    }

    /// Sweeps the slice writers of the file `ino` that are done. Says
    /// whether the file has a writer.
    pub fn remove_done_slice_writer(&mut self, ino: u64) -> (found: bool)
        requires
            old(self).wf(),
        ensures
            final(self).wf(),
            final(self).readers() == old(self).readers(),
            found == old(self).writers().contains_key(ino),
            !found ==> final(self).writers() == old(self).writers()
                && final(self).pool() == old(self).pool(),
            found ==> {
                let fw = final(self).writers()[ino];
                &&& final(self).writers() == old(self).writers().insert(ino, fw)
                &&& old(self).writers()[ino].swept(fw)
                &&& fw.manually_flushing() == old(self).writers()[ino].manually_flushing()
                &&& fw.flush_failure() == old(self).writers()[ino].flush_failure()
                &&& final(self).pool().outstanding() <= old(self).pool().outstanding()
            },
    {
        let ghost before = self.writers();
        match writers_take(&mut self.file_writers, ino) {
            None => {
                proof {
                    assert(self.writers() =~= before);
                    self.lemma_readers_kept(*old(self));
                }
                false
            },
            Some(fw) => {
                let mut fw = fw;
                fw.remove_done_slice_writer(&mut self.pool);
                let ghost after_fw = fw;
                writers_put(&mut self.file_writers, ino, fw);
                proof {
                    assert(self.writers() =~= before.insert(ino, after_fw));
                    self.lemma_readers_kept(*old(self));
                    assert forall|i: u64| #[trigger] self.writers().contains_key(i) implies self.writers()[i].wf()
                        && self.writers()[i].inode() == i by {
                        if i != ino {
                            assert(before.contains_key(i));
                        }
                    }
                }
                true
            },
        }
    }

    /// Makes a file reader for the handle `fh` of the file `ino` of
    /// `length` bytes, unless the handle has one already. Says whether a
    /// reader was made.
    pub fn open_file_reader(&mut self, ino: u64, fh: u64, length: usize) -> (made: bool)
        requires
            old(self).wf(),
        ensures
            final(self).wf(),
            final(self).pool() == old(self).pool(),
            final(self).writers() == old(self).writers(),
            made == !old(self).readers().contains_key((ino, fh)),
            !made ==> final(self).readers() == old(self).readers(),
            made ==> {
                let fr = final(self).readers()[(ino, fh)];
                &&& final(self).readers() == old(self).readers().insert((ino, fh), fr)
                &&& fr.length() == length
                &&& fr.block_size() == BLOCK_SIZE
                &&& fr.chunk_size() == CHUNK_SIZE
                &&& fr.readers().len() == 0
                &&& !fr.closing()
                &&& fr.read_count() == 0
                &&& fr.read_buffer_usage() == 0
                &&& fr.last_seq() == 0
            },
    {
        if readers_has(&self.file_readers, (ino, fh)) {
            return false;
        }
        let ghost before = self.readers();
        let fr = FileReader::new(
            ino,
            fh,
            length,
            BLOCK_SIZE,
            CHUNK_SIZE,
            share_generator(&self.id_generator),
        );
        readers_put(&mut self.file_readers, (ino, fh), fr);
        proof {
            self.lemma_writers_kept(*old(self));
            assert forall|key: (u64, u64)| #[trigger]
                self.readers().contains_key(key) implies self.readers()[key].wf()
                && self.readers()[key].inode() == key.0 && self.readers()[key].fh() == key.1 by {
                if key != (ino, fh) {
                    assert(before.contains_key(key));
                }
            }
        }
        true
    }

    /// Whether the handle `fh` of the file `ino` has a file reader.
    pub fn file_reader_exists(&self, ino: u64, fh: u64) -> (b: bool)
        ensures
            b == self.readers().contains_key((ino, fh)),
    {
        readers_has(&self.file_readers, (ino, fh))
    }

    /// Takes the file reader of the handle `fh` of the file `ino` out of
    /// the table, for the caller to read through it or to close it.
    pub fn take_file_reader(&mut self, ino: u64, fh: u64) -> (taken: Option<FileReader>)
        requires
            old(self).wf(),
        ensures
            final(self).wf(),
            final(self).pool() == old(self).pool(),
            final(self).writers() == old(self).writers(),
            final(self).readers() == old(self).readers().remove((ino, fh)),
            taken == if old(self).readers().contains_key((ino, fh)) {
                Some(old(self).readers()[(ino, fh)])
            } else {
                None
            },
            taken matches Some(fr) ==> fr.wf() && fr.inode() == ino && fr.fh() == fh,
    {
        let ghost before = self.readers();
        let taken = readers_take(&mut self.file_readers, (ino, fh));
        proof {
            self.lemma_writers_kept(*old(self));
            assert forall|key: (u64, u64)| #[trigger]
                self.readers().contains_key(key) implies self.readers()[key].wf()
                && self.readers()[key].inode() == key.0 && self.readers()[key].fh() == key.1 by {
                assert(before.contains_key(key));
            }
        }
        taken
    }

    /// Puts the file reader `fr` into the table, under its inode and its
    /// file handle, in place of the reader that the handle had, if any.
    pub fn put_file_reader(&mut self, fr: FileReader)
        requires
            old(self).wf(),
            fr.wf(),
        ensures
            final(self).wf(),
            final(self).pool() == old(self).pool(),
            final(self).writers() == old(self).writers(),
            final(self).readers() == old(self).readers().insert((fr.inode(), fr.fh()), fr),
    {
        let ghost before = self.readers();
        let key = (fr.get_inode(), fr.get_fh());
        readers_put(&mut self.file_readers, key, fr);
        proof {
            self.lemma_writers_kept(*old(self));
            assert forall|k: (u64, u64)| #[trigger]
                self.readers().contains_key(k) implies self.readers()[k].wf()
                && self.readers()[k].inode() == k.0 && self.readers()[k].fh() == k.1 by {
                if k != key {
                    assert(before.contains_key(k));
                }
            }
        }
    }

    /// Records that an upload of a flush of the kind `kind` for the file
    /// `ino` failed with `error`, and says whether the failure is to reach
    /// the caller: that of a full flush does, that of a bulk flush is
    /// absorbed. While a manual flush of the file is under way, its first
    /// failure is kept on record for `finish_manual_flush`.
    pub fn report_flush_error(&mut self, ino: u64, kind: FlushKind, error: StorageError) -> (bubbles:
        bool)
        requires
            old(self).wf(),
        ensures
            final(self).wf(),
            final(self).readers() == old(self).readers(),
            bubbles == (kind is Full),
            final(self).pool() == old(self).pool(),
            !old(self).writers().contains_key(ino) ==> final(self).writers() == old(self).writers(),
            old(self).writers().contains_key(ino) ==> {
                let before = old(self).writers()[ino];
                let fw = final(self).writers()[ino];
                &&& final(self).writers() == old(self).writers().insert(ino, fw)
                &&& before.reported(fw, kind, error)
            },
    {
        let ghost before = self.writers();
        match writers_take(&mut self.file_writers, ino) {
            None => {
                proof {
                    assert(self.writers() =~= before);
                    self.lemma_readers_kept(*old(self));
                }
            },
            Some(fw) => {
                let mut fw = fw;
                fw.report_flush_error(kind, error);
                let ghost after_fw = fw;
                writers_put(&mut self.file_writers, ino, fw);
                proof {
                    assert(self.writers() =~= before.insert(ino, after_fw));
                    self.lemma_readers_kept(*old(self));
                    assert forall|i: u64| #[trigger] self.writers().contains_key(i) implies self.writers()[i].wf()
                        && self.writers()[i].inode() == i by {
                        if i != ino {
                            assert(before.contains_key(i));
                        }
                    }
                }
            },
        }
        match kind {
            FlushKind::Bulk { .. } => false,
            FlushKind::Full => true,
        }
    }

    /// Records that the request of a manual flush of the file `ino` was
    /// served, and sweeps the slice writers that are done. Returns the
    /// first failure that was reported of the flush, if any was; else
    /// whether the file has a writer.
    pub fn finish_manual_flush(&mut self, ino: u64) -> (res: Result<bool, StorageError>)
        requires
            old(self).wf(),
        ensures
            final(self).wf(),
            final(self).readers() == old(self).readers(),
            !old(self).writers().contains_key(ino) ==> res == Ok::<bool, StorageError>(false)
                && final(self).writers() == old(self).writers() && final(self).pool() == old(
                self,
            ).pool(),
            old(self).writers().contains_key(ino) ==> {
                let fw = final(self).writers()[ino];
                &&& final(self).writers() == old(self).writers().insert(ino, fw)
                &&& old(self).writers()[ino].swept(fw)
                &&& !fw.manually_flushing()
                &&& fw.flush_failure() is None
                &&& final(self).pool().outstanding() <= old(self).pool().outstanding()
                &&& res == match old(self).writers()[ino].flush_failure() {
                    Some(e) => Err::<bool, StorageError>(e),
                    None => Ok::<bool, StorageError>(true),
                }
            },
    {
        let ghost before = self.writers();
        match writers_take(&mut self.file_writers, ino) {
            None => {
                proof {
                    assert(self.writers() =~= before);
                    self.lemma_readers_kept(*old(self));
                }
                Ok(false)
            },
            Some(fw) => {
                let mut fw = fw;
                let res = fw.finish_manual_flush(&mut self.pool);
                let ghost after_fw = fw;
                writers_put(&mut self.file_writers, ino, fw);
                proof {
                    assert(self.writers() =~= before.insert(ino, after_fw));
                    self.lemma_readers_kept(*old(self));
                    assert forall|i: u64| #[trigger] self.writers().contains_key(i) implies self.writers()[i].wf()
                        && self.writers()[i].inode() == i by {
                        if i != ino {
                            assert(before.contains_key(i));
                        }
                    }
                }
                match res {
                    Ok(_) => Ok(true),
                    Err(e) => Err(e),
                }
            },
        }
    }
}

} // verus!
