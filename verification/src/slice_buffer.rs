//! The write buffer of one slice: up to a chunk of bytes, block by block,
//! each buffered block in a page of the pool.
//!
//! A buffer fills from left to right. Its blocks are uploaded in order, and
//! an uploaded block gives its page back: the blocks before `flushed_length`
//! are released, those from there up to `length` are dirty and hold a page,
//! the rest are absent.
use vstd::prelude::*;
use crate::common::{BLOCKS_PER_CHUNK, BLOCK_SIZE, CHUNK_SIZE};
use crate::err::StorageError;
use crate::locate::{
    lemma_piece_within_chunk,
    lemma_pieces_partition,
    locate_chunk,
    piece,
    piece_count,
    piece_end,
    ChunkWriteCtx,
};
use crate::pool::{DiskPagePool, FilePage};

verus! {

/// Number of blocks that the first `x` bytes of a slice touch.
pub open spec fn blocks_up_to(x: int) -> int {
    (x + BLOCK_SIZE - 1) / (BLOCK_SIZE as int)
}

/// One copy that a write asks for: `len` bytes of the caller's data, from
/// `src_offset` on, go to the pool file at `file_offset`, which lies in the
/// page `page_id` that buffers block `block_index`.
#[derive(Debug, Clone, Copy, PartialEq, Eq, Structural)]
pub struct PageCopy {
    pub block_index: usize,
    pub page_id: u64,
    pub file_offset: usize,
    pub src_offset: usize,
    pub len: usize,
}

/// What a write did: the bytes it took and the copies that put them into
/// pages.
#[derive(Debug)]
pub struct Written {
    pub written: usize,
    pub copies: Vec<PageCopy>,
}

/// One block to upload: the first `size` bytes of the page `page_id`, which
/// start in the pool file at `file_offset`, are the content of block
/// `block_index` of slice `slice_id`.
#[derive(Debug, Clone, Copy, PartialEq, Eq, Structural)]
pub struct BlockUpload {
    pub slice_id: u64,
    pub block_index: usize,
    pub size: usize,
    pub page_id: u64,
    pub file_offset: usize,
}

/// The two lengths of a buffer.
pub struct SliceBufferView {
    /// End of the written bytes.
    pub length: int,
    /// End of the uploaded prefix.
    pub flushed_length: int,
}

impl SliceBufferView {
    /// The lengths are ordered and end within a chunk, and the uploaded
    /// prefix ends on a block boundary or at the end of the written bytes.
    pub open spec fn wf(self) -> bool {
        &&& 0 <= self.flushed_length <= self.length <= CHUNK_SIZE
        &&& (self.flushed_length % (BLOCK_SIZE as int) == 0 || self.flushed_length
            == self.length)
    }

    /// Number of blocks already uploaded.
    pub open spec fn released_blocks(self) -> int {
        blocks_up_to(self.flushed_length)
    }

    /// Number of blocks that hold written bytes.
    pub open spec fn used_blocks(self) -> int {
        blocks_up_to(self.length)
    }

    /// Whether a write may start at `offset`: inside or right behind the
    /// written bytes, and in a block that is not uploaded yet.
    pub open spec fn in_window(self, offset: int) -> bool {
        self.released_blocks() * BLOCK_SIZE <= offset <= self.length
    }

    /// Number of bytes of block `i` that a full flush uploads.
    pub open spec fn block_bytes(self, i: int) -> int {
        if (i + 1) * BLOCK_SIZE <= self.length {
            BLOCK_SIZE as int
        } else {
            self.length - i * BLOCK_SIZE
        }
    }

    /// The blocks that a bulk flush up to `up_to` uploads: the complete
    /// blocks that end at or before `up_to` and are not uploaded yet.
    pub open spec fn bulk_blocks(self, up_to: int) -> Seq<int> {
        let stop = if up_to < self.length {
            up_to
        } else {
            self.length
        } / (BLOCK_SIZE as int);
        if stop <= self.released_blocks() {
            Seq::<int>::empty()
        } else {
            Seq::new((stop - self.released_blocks()) as nat, |k: int| self.released_blocks() + k)
        }
    }

    /// The blocks that a full flush uploads: all that are not uploaded yet.
    pub open spec fn pending_blocks(self) -> Seq<int> {
        Seq::new(
            (self.used_blocks() - self.released_blocks()) as nat,
            |k: int| self.released_blocks() + k,
        )
    }

    /// Whether the upload of `size` bytes as block `i` is the next one due:
    /// `i` is the first block not uploaded yet, and `size` is a whole block
    /// that is written in full, or all the bytes of the last, short block.
    pub open spec fn accepts_upload(self, i: int, size: int) -> bool {
        &&& i == self.released_blocks()
        &&& i < self.used_blocks()
        &&& size == self.block_bytes(i)
    }

    /// The lengths after block `i` was uploaded with `size` bytes.
    pub open spec fn after_upload(self, i: int, size: int) -> SliceBufferView {
        SliceBufferView { length: self.length, flushed_length: i * BLOCK_SIZE + size }
    }

    /// The lengths after all blocks of `blocks`, in order, were uploaded.
    pub open spec fn after_uploads(self, blocks: Seq<int>) -> SliceBufferView
        decreases blocks.len(),
    {
        if blocks.len() == 0 {
            self
        } else {
            let before = self.after_uploads(blocks.drop_last());
            before.after_upload(blocks.last(), before.block_bytes(blocks.last()))
        }
    }
}

/// The write buffer of one slice.
#[derive(Debug)]
pub struct SliceBuffer {
    length: usize,
    flushed_length: usize,
    pages: Vec<Option<FilePage>>,
}

/// A buffer is seen as its two lengths. Which page buffers which block is
/// told by `page_of`, and tied to the lengths by the buffer's invariant.
impl View for SliceBuffer {
    type V = SliceBufferView;

    closed spec fn view(&self) -> SliceBufferView {
        SliceBufferView {
            length: self.length as int,
            flushed_length: self.flushed_length as int,
        }
    }
}

impl SliceBuffer {
    /// The page that buffers block `i`, if the block is dirty.
    pub closed spec fn page_of(&self, i: int) -> Option<FilePage> {
        if 0 <= i < self.pages.len() {
            self.pages[i]
        } else {
            None
        }
    }

    /// Number of block slots.
    pub closed spec fn slots(&self) -> int {
        self.pages.len() as int
    }

    /// The buffer's invariant: the lengths are in order, and exactly the
    /// blocks between the uploaded prefix and the end of the written bytes
    /// hold a page, each large enough for a whole block.
    pub open spec fn wf(&self) -> bool {
        &&& self@.wf()
        &&& self.slots() == BLOCKS_PER_CHUNK
        &&& forall|i: int|
            0 <= i < BLOCKS_PER_CHUNK ==> ((#[trigger] self.page_of(i)) is Some
                <==> self@.released_blocks() <= i < self@.used_blocks())
        &&& forall|i: int|
            0 <= i < BLOCKS_PER_CHUNK && (#[trigger] self.page_of(i)) is Some ==> self.page_of(
                i,
            )->Some_0.wf() && self.page_of(i)->Some_0.size() >= BLOCK_SIZE
    }

    /// The pages of the buffer are pages of `pool` that are with a holder,
    /// and no two blocks of the buffer share a page.
    pub open spec fn holds(&self, pool: DiskPagePool) -> bool {
        &&& forall|i: int|
            0 <= i < BLOCKS_PER_CHUNK && (#[trigger] self.page_of(i)) is Some ==> pool.is_out(
                self.page_of(i)->Some_0.id(),
            ) && self.page_of(i)->Some_0.size() == pool.page_size()
        &&& forall|i: int, j: int|
            0 <= i < j < BLOCKS_PER_CHUNK && (#[trigger] self.page_of(i)) is Some && (
            #[trigger] self.page_of(j)) is Some ==> self.page_of(i)->Some_0.id() != self.page_of(
                j,
            )->Some_0.id()
    }

    /// The copy that moves piece `p` of a write into this buffer's pages.
    pub open spec fn copy_for(&self, p: ChunkWriteCtx) -> PageCopy {
        let page = self.page_of(p.chunk_idx as int)->Some_0;
        PageCopy {
            block_index: p.chunk_idx,
            page_id: page.id(),
            file_offset: (page.start() + p.chunk_offset) as usize,
            src_offset: p.buf_start_at,
            len: p.need_write_len,
        }
    }

    /// The upload of block `i` with `size` bytes under the slice id `slice_id`.
    pub open spec fn upload_for(&self, slice_id: u64, i: int, size: int) -> BlockUpload {
        let page = self.page_of(i)->Some_0;
        BlockUpload {
            slice_id,
            block_index: i as usize,
            size: size as usize,
            page_id: page.id(),
            file_offset: page.start() as usize,
        }
    }

    /// How a write of `len` bytes at `offset` relates the buffer `self` and
    /// the pool before it to the buffer and the pool after it, and to what
    /// the write returns.
    pub open spec fn wrote(
        &self,
        pool: DiskPagePool,
        offset: usize,
        len: usize,
        after: SliceBuffer,
        pool_after: DiskPagePool,
        res: Result<Written, StorageError>,
    ) -> bool {
        &&& pool_after.page_size() == pool.page_size()
        &&& pool_after.capacity() == pool.capacity()
        &&& self.holds(pool) ==> after.holds(pool_after)
        &&& after@.flushed_length == self@.flushed_length
        &&& res is Err <==> !self@.in_window(offset as int) || pool.page_size()
            < BLOCK_SIZE
        &&& res is Err ==> res->Err_0 == StorageError::Bounds && after@ == self@
            && pool_after.free() == pool.free() && forall|i: int|
            after.page_of(i) == self.page_of(i)
        &&& res matches Ok(w) ==> {
            let want = if len <= CHUNK_SIZE - offset {
                len as int
            } else {
                CHUNK_SIZE - offset
            };
            let first = offset as int / (BLOCK_SIZE as int);
            let all = piece_count(BLOCK_SIZE as int, offset as int, want);
            let reach = self@.used_blocks() - first + pool.free().len();
            let m = if all <= reach {
                all
            } else {
                reach
            };
            let fresh = if first + m > self@.used_blocks() {
                first + m - self@.used_blocks()
            } else {
                0
            };
            &&& w.copies.len() == m
            &&& w.written == if m == 0 {
                0
            } else {
                piece_end(BLOCK_SIZE as int, offset as int, want, m - 1) - offset
            }
            &&& after@.length == if self@.length >= offset + w.written {
                self@.length
            } else {
                offset + w.written
            }
            &&& forall|k: int|
                0 <= k < m ==> #[trigger] w.copies[k] == after.copy_for(
                    piece(BLOCK_SIZE as int, offset as int, want, k),
                )
            &&& pool_after.free() == pool.free().skip(fresh)
            &&& pool_after.outstanding() == pool.outstanding() + fresh
            &&& forall|i: int|
                0 <= i < self@.used_blocks() || first + m <= i ==> after.page_of(i)
                    == self.page_of(i)
            &&& forall|i: int|
                self@.used_blocks() <= i < first + m ==> (#[trigger] after.page_of(i)) is Some
                    && after.page_of(i)->Some_0.id() == pool.free()[i - self@.used_blocks()]
        }
    }

    /// How the report that block `block_index` was uploaded with `size`
    /// bytes relates the buffer `self` and the pool before it to the buffer
    /// and the pool after it, and to whether the upload counted.
    pub open spec fn uploaded(
        &self,
        pool: DiskPagePool,
        block_index: usize,
        size: usize,
        after: SliceBuffer,
        pool_after: DiskPagePool,
        counted: bool,
    ) -> bool {
        &&& pool_after.page_size() == pool.page_size()
        &&& pool_after.capacity() == pool.capacity()
        &&& self.holds(pool) ==> after.holds(pool_after)
        &&& counted == self@.accepts_upload(block_index as int, size as int)
        &&& after@.flushed_length >= self@.flushed_length
        &&& !counted ==> after@ == self@ && pool_after.free() == pool.free()
            && pool_after.outstanding() == pool.outstanding() && forall|i: int|
            after.page_of(i) == self.page_of(i)
        &&& counted ==> {
            let page = self.page_of(block_index as int)->Some_0;
            &&& after@ == self@.after_upload(block_index as int, size as int)
            &&& after.page_of(block_index as int) is None
            &&& forall|i: int|
                i != block_index ==> after.page_of(i) == self.page_of(i)
            &&& pool.is_out(page.id()) ==> pool_after.free() == pool.free().push(
                page.id(),
            ) && pool_after.outstanding() == pool.outstanding() - 1
            &&& !pool.is_out(page.id()) ==> pool_after.free() == pool.free()
                && pool_after.outstanding() == pool.outstanding()
            &&& forall|id: u64|
                id != page.id() ==> pool_after.is_out(id) == pool.is_out(id)
        }
    }

    /// An empty buffer: nothing written, nothing uploaded, no page held.
    pub fn new() -> (buf: SliceBuffer)
        ensures
            buf.wf(),
            buf@.length == 0,
            buf@.flushed_length == 0,
    {
        let mut pages: Vec<Option<FilePage>> = Vec::new();
        let mut i: usize = 0;
        while i < BLOCKS_PER_CHUNK
            invariant
                i <= BLOCKS_PER_CHUNK,
                pages.len() == i,
                forall|j: int| 0 <= j < i ==> pages[j] is None,
            decreases BLOCKS_PER_CHUNK - i,
        {
            pages.push(None);
            i = i + 1;
        }
        SliceBuffer { length: 0, flushed_length: 0, pages }
    }

    /// End of the written bytes.
    pub fn length(&self) -> (n: usize)
        ensures
            n == self@.length,
    {
        self.length
    }

    /// End of the uploaded prefix.
    pub fn flushed_length(&self) -> (n: usize)
        ensures
            n == self@.flushed_length,
    {
        self.flushed_length
    }

    /// Number of blocks already uploaded.
    pub fn released_block_cnt(&self) -> (n: usize)
        requires
            self.wf(),
        ensures
            n == self@.released_blocks(),
            n <= BLOCKS_PER_CHUNK,
    {
        (self.flushed_length + (BLOCK_SIZE - 1)) / BLOCK_SIZE
    }

    /// Number of blocks that hold written bytes.
    pub fn used_block_cnt(&self) -> (n: usize)
        requires
            self.wf(),
        ensures
            n == self@.used_blocks(),
            n <= BLOCKS_PER_CHUNK,
    {
        (self.length + (BLOCK_SIZE - 1)) / BLOCK_SIZE
    }

    /// Takes `len` bytes at `offset` into the buffer and says into which
    /// pages the caller has to copy them.
    ///
    /// The write is refused when it does not start inside or right behind
    /// the written bytes, when it starts in a block that is uploaded
    /// already, and when the pool's pages are smaller than a block. It is
    /// cut short at the end of the chunk, and in front of the first block
    /// for which the pool has no page left.
    pub fn write_at(&mut self, pool: &mut DiskPagePool, offset: usize, len: usize) -> (res: Result<
        Written,
        StorageError,
    >)
        requires
            old(self).wf(),
            old(pool).wf(),
        ensures
            final(self).wf(),
            final(pool).wf(),
            old(self).wrote(*old(pool), offset, len, *final(self), *final(pool), res),
    {
        if pool.page_bytes() < BLOCK_SIZE {
            return Err(StorageError::Bounds);
        }
        let released: usize = self.released_block_cnt();
        let used: usize = self.used_block_cnt();
        if offset > self.length || offset / BLOCK_SIZE < released {
            return Err(StorageError::Bounds);
        }
        let room: usize = CHUNK_SIZE - offset;
        let want: usize = if len <= room {
            len
        } else {
            room
        };
        let pieces = locate_chunk(BLOCK_SIZE, offset, want);
        let first: usize = offset / BLOCK_SIZE;
        let mut copies: Vec<PageCopy> = Vec::new();
        let mut written: usize = 0;
        let mut k: usize = 0;
        let mut dry: bool = false;
        let ghost bs = BLOCK_SIZE as int;
        let ghost off = offset as int;
        let ghost wn = want as int;
        while k < pieces.len() && !dry
            invariant
                bs == BLOCK_SIZE,
                off == offset,
                wn == want,
                off + wn <= CHUNK_SIZE,
                first == off / bs,
                used == old(self)@.used_blocks(),
                first <= used <= BLOCKS_PER_CHUNK,
                released == old(self)@.released_blocks(),
                released <= first,
                old(self)@.flushed_length % bs == 0,
                old(self).wf(),
                self.wf(),
                pool.wf(),
                pool.page_size() == old(pool).page_size(),
                pool.capacity() == old(pool).capacity(),
                pool.page_size() >= BLOCK_SIZE,
                self@.flushed_length == old(self)@.flushed_length,
                old(self).holds(*old(pool)) ==> self.holds(*pool),
                old(self)@.in_window(off),
                pieces.len() == piece_count(bs, off, wn),
                forall|i: int| 0 <= i < pieces.len() ==> #[trigger] pieces[i] == piece(bs, off, wn, i),
                k <= pieces.len(),
                copies.len() == k,
                dry ==> k < pieces.len() && pool.free().len() == 0 && first + k >= used,
                written == if k == 0 {
                    0
                } else {
                    piece_end(bs, off, wn, k - 1) - off
                },
                self@.length == if old(self)@.length >= off + written {
                    old(self)@.length
                } else {
                    off + written
                },
                forall|j: int| 0 <= j < k
                    ==> #[trigger] copies[j] == self.copy_for(piece(bs, off, wn, j)),
                pool.free() == old(pool).free().skip(
                    if first + k > used {
                        first + k - used
                    } else {
                        0
                    },
                ),
                pool.outstanding() == old(pool).outstanding() + if first + k > used {
                    first + k - used
                } else {
                    0
                },
                (if first + k > used {
                    first + k - used
                } else {
                    0
                }) <= old(pool).free().len(),
                forall|i: int|
                    0 <= i < used || first + k <= i ==> self.page_of(i) == old(self).page_of(i),
                forall|i: int|
                    used <= i < first + k ==> (#[trigger] self.page_of(i)) is Some && self.page_of(
                        i,
                    )->Some_0.id() == old(pool).free()[i - used],
            decreases pieces.len() - k + (if dry {
                0int
            } else {
                1int
            }),
        {
            let p: ChunkWriteCtx = pieces[k];
            let b: usize = p.chunk_idx;
            let ghost head = *self;
            proof {
                lemma_pieces_partition(bs, off, wn, k as int);
                lemma_piece_within_chunk(bs, off, wn, k as int);
                assert(p == piece(bs, off, wn, k as int));
                assert(b == first + k);
                assert(b < BLOCKS_PER_CHUNK);
            }
            let mut have: bool = self.pages[b].is_some();
            proof {
                assert(self.page_of(b as int) == self.pages[b as int]);
                if k > 0 {
                    lemma_pieces_partition(bs, off, wn, k - 1);
                    assert(off + written == (first + k) * bs);
                }
                assert(self@.used_blocks() >= b);
                assert(have || b == self@.used_blocks());
            }
            if !have {
                let ghost pool_head = *pool;
                match pool.try_acquire_page() {
                    None => {
                        dry = true;
                    },
                    Some(page) => {
                        proof {
                            assert(b >= used);
                            assert(pool.free() =~= old(pool).free().skip(first + k + 1 - used));
                        }
                        let ghost fresh_id = page.id();
                        self.pages.set(b, Some(page));
                        have = true;
                        proof {
                            if old(self).holds(*old(pool)) {
                                assert(head.holds(pool_head));
                                assert forall|i: int|
                                    0 <= i < BLOCKS_PER_CHUNK
                                        && (#[trigger] self.page_of(i)) is Some implies pool.is_out(
                                    self.page_of(i)->Some_0.id(),
                                ) && self.page_of(i)->Some_0.size() == pool.page_size() by {
                                    if i != b {
                                        assert(self.page_of(i) == head.page_of(i));
                                    }
                                }
                                assert forall|i: int, j: int|
                                    0 <= i < j < BLOCKS_PER_CHUNK && (#[trigger] self.page_of(i)) is Some
                                        && (#[trigger] self.page_of(j)) is Some implies self.page_of(
                                    i,
                                )->Some_0.id() != self.page_of(j)->Some_0.id() by {
                                    if i != b {
                                        assert(self.page_of(i) == head.page_of(i));
                                    }
                                    if j != b {
                                        assert(self.page_of(j) == head.page_of(j));
                                    }
                                }
                            }
                        }
                    },
                }
            }
            let ghost placed = *self;
            if have {
                let (page_id, page_start): (u64, usize) = match &self.pages[b] {
                    Some(page) => (page.page_id(), page.cal_offset()),
                    None => (0, 0),
                };
                let copy = PageCopy {
                    block_index: b,
                    page_id,
                    file_offset: page_start + p.chunk_offset,
                    src_offset: p.buf_start_at,
                    len: p.need_write_len,
                };
                copies.push(copy);
                written = written + p.need_write_len;
                let end: usize = p.file_offset + p.need_write_len;
                if end > self.length {
                    self.length = end;
                }
                k = k + 1;
                proof {
                    assert forall|i: int| self.page_of(i) == placed.page_of(i) by {}
                    if old(self).holds(*old(pool)) {
                        assert(placed.holds(*pool));
                        assert forall|i: int|
                            0 <= i < BLOCKS_PER_CHUNK
                                && (#[trigger] self.page_of(i)) is Some implies pool.is_out(
                            self.page_of(i)->Some_0.id(),
                        ) && self.page_of(i)->Some_0.size() == pool.page_size() by {
                            assert(self.page_of(i) == placed.page_of(i));
                        }
                        assert forall|i: int, j: int|
                            0 <= i < j < BLOCKS_PER_CHUNK && (#[trigger] self.page_of(i)) is Some && (
                            #[trigger] self.page_of(j)) is Some implies self.page_of(i)->Some_0.id()
                            != self.page_of(j)->Some_0.id() by {
                            assert(self.page_of(i) == placed.page_of(i));
                            assert(self.page_of(j) == placed.page_of(j));
                        }
                    }
                    assert(b * bs < end <= (b + 1) * bs);
                    assert(self@.used_blocks() >= b + 1);
                    assert forall|i: int| 0 <= i < BLOCKS_PER_CHUNK implies ((
                    #[trigger] self.page_of(i)) is Some <==> self@.released_blocks() <= i
                        < self@.used_blocks()) by {
                        if i != b {
                            assert(self.page_of(i) == head.page_of(i));
                        }
                    }
                    assert forall|i: int|
                        0 <= i < BLOCKS_PER_CHUNK
                            && (#[trigger] self.page_of(i)) is Some implies self.page_of(
                        i,
                    )->Some_0.wf() && self.page_of(i)->Some_0.size() >= BLOCK_SIZE by {
                        if i != b {
                            assert(self.page_of(i) == head.page_of(i));
                        }
                    }
                    assert forall|i: int| used <= i < first + k implies (#[trigger] self.page_of(
                        i,
                    )) is Some && self.page_of(i)->Some_0.id() == old(pool).free()[i - used] by {
                        if i != b {
                            assert(self.page_of(i) == head.page_of(i));
                        }
                    }
                    assert forall|i: int| 0 <= i < used || first + k <= i implies self.page_of(i)
                        == old(self).page_of(i) by {
                        assert(self.page_of(i) == head.page_of(i));
                    }
                    assert(copy == self.copy_for(piece(bs, off, wn, k - 1)));
                    assert forall|j: int| 0 <= j < k implies #[trigger] copies[j] == self.copy_for(
                        piece(bs, off, wn, j),
                    ) by {
                        if j < k - 1 {
                            lemma_piece_within_chunk(bs, off, wn, j);
                        }
                    }
                }
            }
        }
        Ok(Written { written, copies })
    }

    /// The uploads that a bulk flush up to `up_to` asks for: one for every
    /// complete block that ends at or before `up_to` and is not uploaded
    /// yet, in order. The buffer changes only when an upload is reported
    /// done.
    pub fn flush_bulk_to(&self, up_to: usize, slice_id: u64) -> (uploads: Vec<BlockUpload>)
        requires
            self.wf(),
        ensures
            uploads.len() == self@.bulk_blocks(up_to as int).len(),
            forall|k: int|
                0 <= k < uploads.len() ==> #[trigger] uploads[k] == self.upload_for(
                    slice_id,
                    self@.bulk_blocks(up_to as int)[k],
                    BLOCK_SIZE as int,
                ),
    {
        let released: usize = self.released_block_cnt();
        let limit: usize = if up_to < self.length {
            up_to
        } else {
            self.length
        };
        let stop: usize = limit / BLOCK_SIZE;
        let mut uploads: Vec<BlockUpload> = Vec::new();
        let mut i: usize = released;
        while i < stop
            invariant
                self.wf(),
                released == self@.released_blocks(),
                stop <= self@.used_blocks(),
                stop <= BLOCKS_PER_CHUNK,
                released <= i || stop <= released,
                i <= stop || stop <= released,
                stop > released ==> uploads.len() == i - released,
                stop <= released ==> uploads.len() == 0,
                forall|k: int|
                    0 <= k < uploads.len() ==> #[trigger] uploads[k] == self.upload_for(
                        slice_id,
                        released + k,
                        BLOCK_SIZE as int,
                    ),
            decreases stop - i,
        {
            assert(self.page_of(i as int) == self.pages[i as int]);
            match &self.pages[i] {
                Some(page) => {
                    uploads.push(
                        BlockUpload {
                            slice_id,
                            block_index: i,
                            size: BLOCK_SIZE,
                            page_id: page.page_id(),
                            file_offset: page.cal_offset(),
                        },
                    );
                },
                None => {},
            }
            i = i + 1;
        }
        uploads
    }

    /// The uploads that a full flush asks for: one for every block that is
    /// not uploaded yet, in order, the last one as short as the written
    /// bytes. The buffer changes only when an upload is reported done.
    pub fn flush(&self, slice_id: u64) -> (uploads: Vec<BlockUpload>)
        requires
            self.wf(),
        ensures
            uploads.len() == self@.pending_blocks().len(),
            forall|k: int|
                0 <= k < uploads.len() ==> #[trigger] uploads[k] == self.upload_for(
                    slice_id,
                    self@.pending_blocks()[k],
                    self@.block_bytes(self@.pending_blocks()[k]),
                ),
    {
        let released: usize = self.released_block_cnt();
        let used: usize = self.used_block_cnt();
        let mut uploads: Vec<BlockUpload> = Vec::new();
        let mut i: usize = released;
        while i < used
            invariant
                self.wf(),
                released == self@.released_blocks(),
                used == self@.used_blocks(),
                used <= BLOCKS_PER_CHUNK,
                released <= used,
                released <= i <= used,
                uploads.len() == i - released,
                forall|k: int|
                    0 <= k < uploads.len() ==> #[trigger] uploads[k] == self.upload_for(
                        slice_id,
                        released + k,
                        self@.block_bytes(released + k),
                    ),
            decreases used - i,
        {
            assert(self.page_of(i as int) == self.pages[i as int]);
            let size: usize = if (i + 1) * BLOCK_SIZE <= self.length {
                BLOCK_SIZE
            } else {
                self.length - i * BLOCK_SIZE
            };
            match &self.pages[i] {
                Some(page) => {
                    uploads.push(
                        BlockUpload {
                            slice_id,
                            block_index: i,
                            size,
                            page_id: page.page_id(),
                            file_offset: page.cal_offset(),
                        },
                    );
                },
                None => {},
            }
            i = i + 1;
        }
        uploads
    }

    /// Records that block `block_index` was uploaded with `size` bytes.
    ///
    /// The upload counts only if it is the next one due. Then the block's
    /// page goes back to the pool, the block is released, and the uploaded
    /// prefix ends behind it. Otherwise nothing changes. Says whether the
    /// upload counted.
    pub fn complete_upload(&mut self, pool: &mut DiskPagePool, block_index: usize, size: usize) -> (counted:
        bool)
        requires
            old(self).wf(),
            old(pool).wf(),
        ensures
            final(self).wf(),
            final(pool).wf(),
            old(self).uploaded(*old(pool), block_index, size, *final(self), *final(pool), counted),
    {
        let released: usize = self.released_block_cnt();
        let used: usize = self.used_block_cnt();
        if block_index != released || block_index >= used {
            return false;
        }
        let due: usize = if (block_index + 1) * BLOCK_SIZE <= self.length {
            BLOCK_SIZE
        } else {
            self.length - block_index * BLOCK_SIZE
        };
        if size != due {
            return false;
        }
        let mut slot: Option<FilePage> = None;
        assert(self.page_of(block_index as int) == self.pages[block_index as int]);
        core::mem::swap(&mut self.pages[block_index], &mut slot);
        self.flushed_length = block_index * BLOCK_SIZE + size;
        match slot {
            Some(page) => {
                pool.release_page(page);
            },
            None => {},
        }
        proof {
            if old(self).holds(*old(pool)) {
                assert(old(self).page_of(block_index as int) is Some);
                assert forall|i: int|
                    0 <= i < BLOCKS_PER_CHUNK
                        && (#[trigger] self.page_of(i)) is Some implies pool.is_out(
                    self.page_of(i)->Some_0.id(),
                ) && self.page_of(i)->Some_0.size() == pool.page_size() by {
                    assert(self.page_of(i) == old(self).page_of(i));
                    if i < block_index {
                        assert(old(self).page_of(i)->Some_0.id() != old(self).page_of(
                            block_index as int,
                        )->Some_0.id());
                    } else {
                        assert(old(self).page_of(block_index as int)->Some_0.id() != old(self).page_of(i)->Some_0.id());
                    }
                }
                assert forall|i: int, j: int|
                    0 <= i < j < BLOCKS_PER_CHUNK && (#[trigger] self.page_of(i)) is Some && (
                    #[trigger] self.page_of(j)) is Some implies self.page_of(i)->Some_0.id()
                    != self.page_of(j)->Some_0.id() by {
                    assert(self.page_of(i) == old(self).page_of(i));
                    assert(self.page_of(j) == old(self).page_of(j));
                }
            }
            assert forall|i: int| i != block_index implies self.page_of(i) == old(self).page_of(
                i,
            ) by {}
            assert forall|i: int| 0 <= i < BLOCKS_PER_CHUNK implies ((#[trigger] self.page_of(
                i,
            )) is Some <==> self@.released_blocks() <= i < self@.used_blocks()) by {
                if i != block_index {
                    assert(self.page_of(i) == old(self).page_of(i));
                }
            }
            assert forall|i: int|
                0 <= i < BLOCKS_PER_CHUNK && (#[trigger] self.page_of(i)) is Some implies self.page_of(
                i,
            )->Some_0.wf() && self.page_of(i)->Some_0.size() >= BLOCK_SIZE by {
                if i != block_index {
                    assert(self.page_of(i) == old(self).page_of(i));
                }
            }
        }
        true
    }

    /// Gives up the buffer and hands every page it still holds back to the
    /// pool.
    pub fn discard(self, pool: &mut DiskPagePool)
        requires
            self.wf(),
            old(pool).wf(),
        ensures
            final(pool).wf(),
            final(pool).page_size() == old(pool).page_size(),
            final(pool).capacity() == old(pool).capacity(),
            final(pool).outstanding() <= old(pool).outstanding(),
            forall|id: u64| final(pool).is_out(id) ==> old(pool).is_out(id),
            forall|i: int|
                0 <= i < BLOCKS_PER_CHUNK && (#[trigger] self.page_of(i)) is Some
                    ==> !final(pool).is_out(self.page_of(i)->Some_0.id()),
            forall|id: u64|
                (forall|i: int|
                    0 <= i < BLOCKS_PER_CHUNK && (#[trigger] self.page_of(i)) is Some
                        ==> self.page_of(i)->Some_0.id() != id)
                            ==> final(pool).is_out(id) == old(pool).is_out(id),
    {
        let mut pages = self.pages;
        let ghost all = pages@;
        assert forall|i: int| 0 <= i < BLOCKS_PER_CHUNK implies self.page_of(i) == #[trigger] all[i] by {}
        while pages.len() > 0
            invariant
                pool.wf(),
                pool.page_size() == old(pool).page_size(),
                pool.capacity() == old(pool).capacity(),
                pool.outstanding() <= old(pool).outstanding(),
                pages.len() <= all.len(),
                all.len() == BLOCKS_PER_CHUNK,
                forall|i: int| 0 <= i < pages.len() ==> pages[i] == all[i],
                forall|id: u64| pool.is_out(id) ==> old(pool).is_out(id),
                forall|i: int|
                    pages.len() <= i < all.len() && all[i] is Some ==> !pool.is_out(
                        (#[trigger] all[i])->Some_0.id(),
                    ),
                forall|id: u64|
                    (forall|i: int|
                        0 <= i < all.len() && (#[trigger] all[i]) is Some ==> all[i]->Some_0.id()
                            != id) ==> pool.is_out(id) == old(pool).is_out(id),
            decreases pages.len(),
        {
            let ghost n = pages.len() - 1;
            match pages.pop() {
                Some(Some(page)) => {
                    assert(all[n] == Some(page));
                    pool.release_page(page);
                },
                _ => {},
            }
        }
    }
}

/// The copy of `len` bytes from `data[from..]` into `image[at..]`, if both
/// ranges exist.
fn copy_bytes(image: &mut [u8], at: usize, data: &[u8], from: usize, len: usize) -> (done: Result<
    (),
    StorageError,
>)
    ensures
        final(image)@.len() == old(image)@.len(),
        done is Ok <==> from + len <= data@.len() && at + len <= old(image)@.len(),
        done is Err ==> done->Err_0 == StorageError::Bounds && final(image)@ == old(image)@,
        done is Ok ==> final(image)@ == old(image)@.subrange(0, at as int) + data@.subrange(
            from as int,
            from + len,
        ) + old(image)@.subrange(at + len, old(image)@.len() as int),
{
    if from > data.len() || len > data.len() - from || at > image.len() || len > image.len()
        - at {
        return Err(StorageError::Bounds);
    }
    let mut k: usize = 0;
    while k < len
        invariant
            k <= len,
            from + len <= data.len(),
            at + len <= image.len(),
            image@.len() == old(image)@.len(),
            forall|i: int| at <= i < at + k ==> #[trigger] image@[i] == data@[i - at + from],
            forall|i: int|
                0 <= i < image@.len() && !(at <= i < at + k) ==> image@[i] == old(image)@[i],
        decreases len - k,
    {
        image[at + k] = data[from + k];
        k = k + 1;
    }
    assert(image@ =~= old(image)@.subrange(0, at as int) + data@.subrange(
        from as int,
        from + len,
    ) + old(image)@.subrange(at + len, old(image)@.len() as int));
    Ok(())
}

impl PageCopy {
    /// The mapped bytes of the pool file after this copy took its bytes
    /// from `data`.
    pub open spec fn applied(self, image: Seq<u8>, data: Seq<u8>) -> Seq<u8> {
        image.subrange(0, self.file_offset as int) + data.subrange(
            self.src_offset as int,
            self.src_offset + self.len,
        ) + image.subrange(self.file_offset + self.len, image.len() as int)
    }

    /// Whether the copy stays inside `data` and inside the mapped bytes.
    pub open spec fn fits(self, image_len: int, data_len: int) -> bool {
        self.src_offset + self.len <= data_len && self.file_offset + self.len <= image_len
    }

    /// Performs the copy on the mapped bytes `image` of the pool file.
    /// Nothing is copied unless both ranges exist.
    pub fn apply(&self, image: &mut [u8], data: &[u8]) -> (done: Result<(), StorageError>)
        ensures
            final(image)@.len() == old(image)@.len(),
            done is Ok <==> self.fits(old(image)@.len() as int, data@.len() as int),
            done is Err ==> done->Err_0 == StorageError::Bounds && final(image)@ == old(image)@,
            done is Ok ==> final(image)@ == self.applied(old(image)@, data@),
    {
        copy_bytes(image, self.file_offset, data, self.src_offset, self.len)
    }
}

impl BlockUpload {
    /// The bytes to upload, read from the mapped bytes `image` of the pool
    /// file, or `Bounds` if they do not exist there.
    pub fn read(&self, image: &[u8]) -> (bytes: Result<Vec<u8>, StorageError>)
        ensures
            bytes is Ok <==> self.file_offset + self.size <= image@.len(),
            bytes is Err ==> bytes->Err_0 == StorageError::Bounds,
            bytes matches Ok(b) ==> b@ == image@.subrange(
                self.file_offset as int,
                self.file_offset + self.size,
            ),
    {
        if self.file_offset > image.len() || self.size > image.len() - self.file_offset {
            return Err(StorageError::Bounds);
        }
        let mut out: Vec<u8> = Vec::new();
        let mut k: usize = 0;
        while k < self.size
            invariant
                k <= self.size,
                self.file_offset + self.size <= image.len(),
                out@ == image@.subrange(self.file_offset as int, self.file_offset + k),
            decreases self.size - k,
        {
            out.push(image[self.file_offset + k]);
            k = k + 1;
            assert(out@ =~= image@.subrange(self.file_offset as int, self.file_offset + k));
        }
        Ok(out)
    }
}

/// The bytes that a copy put into the pool file are the bytes that it took
/// from the data.
pub proof fn lemma_copy_round_trip(c: PageCopy, image: Seq<u8>, data: Seq<u8>)
    requires
        c.fits(image.len() as int, data.len() as int),
    ensures
        c.applied(image, data).len() == image.len(),
        c.applied(image, data).subrange(c.file_offset as int, c.file_offset + c.len)
            == data.subrange(c.src_offset as int, c.src_offset + c.len),
        forall|i: int|
            0 <= i < image.len() && !(c.file_offset <= i < c.file_offset + c.len) ==> c.applied(
                image,
                data,
            )[i] == image[i],
{
    assert(c.applied(image, data).subrange(c.file_offset as int, c.file_offset + c.len)
        =~= data.subrange(c.src_offset as int, c.src_offset + c.len));
}

/// The mapped bytes after the copies `copies`, one after the other, took
/// their bytes from `data`.
pub open spec fn applied_all(image: Seq<u8>, copies: Seq<PageCopy>, data: Seq<u8>) -> Seq<u8>
    decreases copies.len(),
{
    if copies.len() == 0 {
        image
    } else {
        copies.last().applied(applied_all(image, copies.drop_last(), data), data)
    }
}

/// The two copies write to different bytes of the pool file.
pub open spec fn apart(a: PageCopy, b: PageCopy) -> bool {
    a.file_offset + a.len <= b.file_offset || b.file_offset + b.len <= a.file_offset
}

proof fn lemma_applied_len(image: Seq<u8>, copies: Seq<PageCopy>, data: Seq<u8>)
    requires
        forall|i: int|
            0 <= i < copies.len() ==> (#[trigger] copies[i]).fits(
                image.len() as int,
                data.len() as int,
            ),
    ensures
        applied_all(image, copies, data).len() == image.len(),
    decreases copies.len(),
{
    if copies.len() > 0 {
        let head = copies.drop_last();
        assert forall|i: int| 0 <= i < head.len() implies (#[trigger] head[i]).fits(
            image.len() as int,
            data.len() as int,
        ) by {
            assert(head[i] == copies[i]);
        }
        lemma_applied_len(image, head, data);
        assert(copies[copies.len() - 1] == copies.last());
        lemma_copy_round_trip(copies.last(), applied_all(image, head, data), data);
    }
}

/// Copies that write to different bytes do not disturb each other: after
/// all of them, the bytes that each of them put into the pool file are the
/// bytes that it took from the data.
pub proof fn lemma_copies_round_trip(
    image: Seq<u8>,
    copies: Seq<PageCopy>,
    data: Seq<u8>,
    k: int,
)
    requires
        0 <= k < copies.len(),
        forall|i: int|
            0 <= i < copies.len() ==> (#[trigger] copies[i]).fits(
                image.len() as int,
                data.len() as int,
            ),
        forall|i: int, j: int|
            0 <= i < j < copies.len() ==> apart(#[trigger] copies[i], #[trigger] copies[j]),
    ensures
        applied_all(image, copies, data).len() == image.len(),
        applied_all(image, copies, data).subrange(
            copies[k].file_offset as int,
            copies[k].file_offset + copies[k].len,
        ) == data.subrange(copies[k].src_offset as int, copies[k].src_offset + copies[k].len),
    decreases copies.len(),
{
    lemma_applied_len(image, copies, data);
    let head = copies.drop_last();
    let last = copies.last();
    let mid = applied_all(image, head, data);
    assert forall|i: int| 0 <= i < head.len() implies (#[trigger] head[i]).fits(
        image.len() as int,
        data.len() as int,
    ) by {
        assert(head[i] == copies[i]);
    }
    lemma_applied_len(image, head, data);
    assert(copies[copies.len() - 1] == last);
    lemma_copy_round_trip(last, mid, data);
    if k < copies.len() - 1 {
        assert forall|i: int, j: int| 0 <= i < j < head.len() implies apart(
            #[trigger] head[i],
            #[trigger] head[j],
        ) by {
            assert(head[i] == copies[i] && head[j] == copies[j]);
        }
        lemma_copies_round_trip(image, head, data, k);
        assert(head[k] == copies[k]);
        assert(apart(copies[k], copies[copies.len() - 1]));
        let out = applied_all(image, copies, data);
        let from = copies[k].file_offset as int;
        let to = copies[k].file_offset + copies[k].len;
        assert(out.subrange(from, to) =~= mid.subrange(from, to)) by {
            assert forall|x: int| from <= x < to implies out[x] == mid[x] by {}
        }
    }
}

/// What a write takes is in the pages: once the copies of the write are
/// made, each block's page holds, at the place of each piece of the write,
/// the bytes of that piece. The buffer must hold pages of the pool, each
/// once, and the mapped bytes must span the pool file.
pub proof fn lemma_write_round_trip(
    before: SliceBuffer,
    pool: DiskPagePool,
    offset: usize,
    len: usize,
    after: SliceBuffer,
    pool_after: DiskPagePool,
    w: Written,
    image: Seq<u8>,
    data: Seq<u8>,
    k: int,
)
    requires
        before.wf(),
        pool.wf(),
        after.wf(),
        pool_after.wf(),
        before.holds(pool),
        before.wrote(pool, offset, len, after, pool_after, Ok(w)),
        data.len() == len,
        image.len() >= pool.capacity(),
        0 <= k < w.copies.len(),
    ensures
        applied_all(image, w.copies@, data).len() == image.len(),
        applied_all(image, w.copies@, data).subrange(
            w.copies[k].file_offset as int,
            w.copies[k].file_offset + w.copies[k].len,
        ) == data.subrange(w.copies[k].src_offset as int, w.copies[k].src_offset + w.copies[k].len),
        after.page_of(w.copies[k].block_index as int) is Some,
        w.copies[k].file_offset == after.page_of(w.copies[k].block_index as int)->Some_0.start()
            + (offset + w.copies[k].src_offset) % (BLOCK_SIZE as int),
{
    let bs = BLOCK_SIZE as int;
    let off = offset as int;
    let want = if len <= CHUNK_SIZE - offset {
        len as int
    } else {
        CHUNK_SIZE - offset
    };
    let first = off / bs;
    let m = w.copies.len() as int;
    let size = pool.page_size();
    assert(after.holds(pool_after));
    assert forall|i: int| 0 <= i < m implies {
        let c = #[trigger] w.copies[i];
        let page = after.page_of(first + i)->Some_0;
        &&& after.page_of(first + i) is Some
        &&& c.block_index == first + i
        &&& page.start() == page.id() * size
        &&& page.start() <= c.file_offset
        &&& c.file_offset + c.len <= page.start() + size
        &&& page.start() + size <= image.len()
        &&& c.src_offset + c.len <= data.len()
        &&& c.file_offset == page.start() + (off + c.src_offset) % bs
    } by {
        lemma_pieces_partition(bs, off, want, i);
        lemma_piece_within_chunk(bs, off, want, i);
        let p = piece(bs, off, want, i);
        assert(w.copies[i] == after.copy_for(p));
        assert(first + i < BLOCKS_PER_CHUNK);
        let page = after.page_of(first + i)->Some_0;
        assert(after.page_of(first + i) is Some);
        assert(page.wf());
        pool_after.lemma_out_page_span(page.id());
        if i + 1 < piece_count(bs, off, want) {
        }
    }
    assert forall|i: int| 0 <= i < m implies (#[trigger] w.copies@[i]).fits(
        image.len() as int,
        data.len() as int,
    ) by {
        assert(w.copies[i] == w.copies@[i]);
    }
    assert forall|i: int, j: int| 0 <= i < j < m implies apart(
        #[trigger] w.copies@[i],
        #[trigger] w.copies@[j],
    ) by {
        let pi = after.page_of(first + i)->Some_0;
        let pj = after.page_of(first + j)->Some_0;
        assert(w.copies[i] == w.copies@[i] && w.copies[j] == w.copies@[j]);
        assert(after.page_of(first + i) is Some && after.page_of(first + j) is Some);
        assert(pi.id() != pj.id());
        lemma_pages_apart(pi.id() as int, pj.id() as int, size);
    }
    lemma_copies_round_trip(image, w.copies@, data, k);
}

proof fn lemma_pages_apart(a: int, b: int, size: int)
    requires
        a != b,
        size > 0,
    ensures
        a * size + size <= b * size || b * size + size <= a * size,
{
    assert(a * size + size <= b * size || b * size + size <= a * size) by (nonlinear_arith)
        requires
            a != b,
            size > 0,
    ;
}

/// A write that finds pages is taken in full: a write that ends within the
/// chunk takes at most one page for every block it touches, which are at
/// most two more than it has whole blocks, and with that many free pages it
/// takes all its bytes.
pub proof fn lemma_wrote_in_full(
    before: SliceBuffer,
    pool: DiskPagePool,
    offset: usize,
    len: usize,
    after: SliceBuffer,
    pool_after: DiskPagePool,
    w: Written,
)
    requires
        before.wf(),
        before.wrote(pool, offset, len, after, pool_after, Ok(w)),
        offset + len <= CHUNK_SIZE,
    ensures
        pool_after.free().len() <= pool.free().len(),
        pool_after.free().len() >= pool.free().len() - (len / BLOCK_SIZE + 2),
        pool.free().len() >= len / BLOCK_SIZE + 2 ==> w.written == len,
{
    let bs = BLOCK_SIZE as int;
    let off = offset as int;
    let want = len as int;
    let first = off / bs;
    let all = piece_count(bs, off, want);
    let reach = before@.used_blocks() - first + pool.free().len();
    let m = w.copies.len() as int;
    assert(all <= want / bs + 2);
    assert(before@.used_blocks() >= first);
    if m > 0 && m == all {
        lemma_pieces_partition(bs, off, want, m - 1);
    }
}

/// The lengths of a buffer stay in order: nothing is uploaded that was not
/// written, and nothing is written beyond the chunk.
pub proof fn lemma_lengths_in_order(buf: SliceBuffer)
    requires
        buf.wf(),
    ensures
        0 <= buf@.flushed_length <= buf@.length <= CHUNK_SIZE,
        0 <= buf@.released_blocks() <= buf@.used_blocks() <= BLOCKS_PER_CHUNK,
{
}

/// An upload that counts moves the uploaded prefix forward, to the end of
/// the uploaded block, and keeps the lengths in order.
pub proof fn lemma_upload_advances(v: SliceBufferView, i: int, size: int)
    requires
        v.wf(),
        v.accepts_upload(i, size),
    ensures
        v.after_upload(i, size).wf(),
        v.after_upload(i, size).length == v.length,
        v.after_upload(i, size).flushed_length > v.flushed_length,
        v.after_upload(i, size).released_blocks() == i + 1,
{
}

/// A block is uploaded at most once: once the upload of block `i` has
/// counted, no flush of the buffer, in that state or in any later one, asks
/// for block `i` again, and no second upload of it counts.
pub proof fn lemma_block_uploaded_once(
    v: SliceBufferView,
    i: int,
    size: int,
    later: SliceBufferView,
    up_to: int,
    again: int,
)
    requires
        v.wf(),
        v.accepts_upload(i, size),
        later.wf(),
        later.flushed_length >= v.after_upload(i, size).flushed_length,
    ensures
        !later.pending_blocks().contains(i),
        !later.bulk_blocks(up_to).contains(i),
        !later.accepts_upload(i, again),
{
}

proof fn lemma_uploads_prefix(v: SliceBufferView, j: int)
    requires
        v.wf(),
        0 <= j <= v.pending_blocks().len(),
    ensures
        v.after_uploads(v.pending_blocks().take(j)).length == v.length,
        v.after_uploads(v.pending_blocks().take(j)).flushed_length == if j == 0 {
            v.flushed_length
        } else if v.released_blocks() + j == v.used_blocks() {
            v.length
        } else {
            (v.released_blocks() + j) * BLOCK_SIZE
        },
    decreases j,
{
    let blocks = v.pending_blocks().take(j);
    if j > 0 {
        lemma_uploads_prefix(v, j - 1);
        assert(blocks.drop_last() =~= v.pending_blocks().take(j - 1));
        assert(blocks.last() == v.released_blocks() + j - 1);
    }
}

/// A full flush is complete and final: once all the uploads it asked for
/// were done, everything written is uploaded, and a second full flush, or
/// any bulk flush, asks for nothing.
pub proof fn lemma_flush_twice(v: SliceBufferView, up_to: int)
    requires
        v.wf(),
    ensures
        v.after_uploads(v.pending_blocks()).wf(),
        v.after_uploads(v.pending_blocks()).length == v.length,
        v.after_uploads(v.pending_blocks()).flushed_length == v.length,
        v.after_uploads(v.pending_blocks()).pending_blocks().len() == 0,
        v.after_uploads(v.pending_blocks()).bulk_blocks(up_to).len() == 0,
{
    let n = v.pending_blocks().len() as int;
    lemma_uploads_prefix(v, n);
    assert(v.pending_blocks().take(n) =~= v.pending_blocks());
}

} // verus!
