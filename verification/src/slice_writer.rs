//! The writer of one slice: a buffer bound to its place in a chunk, with the
//! two latches of its life: frozen, then done.
use vstd::prelude::*;
use crate::common::{BLOCK_SIZE, CHUNK_SIZE};
use crate::err::StorageError;
use crate::pool::DiskPagePool;
use crate::slice::EMPTY_SLICE_ID;
use crate::slice_buffer::{BlockUpload, SliceBuffer, Written};

verus! {

/// Names a slice writer of a file: the chunk it writes to and its local
/// sequence number.
#[derive(Debug, Clone, Copy, PartialEq, Eq, Structural)]
pub struct SliceHandle {
    pub chunk_idx: usize,
    pub seq: u64,
}

/// A request to the background flusher.
#[derive(Debug)]
pub enum FlushReq {
    /// Upload the complete blocks of `sw` that end at or before `offset`.
    FlushBulk { sw: SliceHandle, offset: usize },
    /// Upload everything that `sw`, which is frozen, still buffers.
    FlushFull(SliceHandle),
    /// Upload everything that each of `sws` still buffers; all of them were
    /// frozen and taken out of the file writer's map for this.
    ManualFlush { sws: Vec<SliceHandle> },
}

/// The writer of one slice.
#[derive(Debug)]
pub struct SliceWriter {
    internal_seq: u64,
    slice_id: u64,
    chunk_idx: usize,
    offset_of_chunk: usize,
    slice_buffer: SliceBuffer,
    frozen: bool,
    done: bool,
}

impl SliceWriter {
    /// The local sequence number, which identifies the writer.
    pub closed spec fn seq(&self) -> u64 {
        self.internal_seq
    }

    /// The slice id, or `EMPTY_SLICE_ID` while none is assigned.
    pub closed spec fn slice_id(&self) -> u64 {
        self.slice_id
    }

    /// The chunk the slice belongs to.
    pub closed spec fn chunk_idx(&self) -> usize {
        self.chunk_idx
    }

    /// Where in its chunk the slice starts.
    pub closed spec fn offset_of_chunk(&self) -> int {
        self.offset_of_chunk as int
    }

    /// The buffer of the slice.
    pub closed spec fn buffer(&self) -> SliceBuffer {
        self.slice_buffer
    }

    /// Whether no more writes are accepted.
    pub closed spec fn frozen(&self) -> bool {
        self.frozen
    }

    /// Whether the writer may be removed from its file writer.
    pub closed spec fn done(&self) -> bool {
        self.done
    }

    /// This writer with the latches set to `frozen` and `done`.
    pub closed spec fn with_flags(self, frozen: bool, done: bool) -> SliceWriter {
        SliceWriter { frozen, done, ..self }
    }

    /// This writer with the slice id `slice_id`.
    pub closed spec fn with_slice_id(self, slice_id: u64) -> SliceWriter {
        SliceWriter { slice_id, ..self }
    }

    /// This writer with the buffer `buffer`.
    pub closed spec fn with_buffer(self, buffer: SliceBuffer) -> SliceWriter {
        SliceWriter { slice_buffer: buffer, ..self }
    }

    /// This writer after the slice id `candidate` was offered to it: it
    /// takes the id unless it has one already.
    pub open spec fn with_offer(self, candidate: u64) -> SliceWriter {
        self.with_slice_id(
            if self.slice_id() == EMPTY_SLICE_ID {
                candidate
            } else {
                self.slice_id()
            },
        )
    }

    /// This writer as a manual flush leaves it: frozen, unless it was done
    /// without having been frozen.
    pub open spec fn claimed(self) -> SliceWriter {
        self.with_flags(self.frozen() || !self.done(), self.done())
    }

    /// Whether a manual flush takes charge of this writer: it is neither
    /// frozen nor done.
    pub open spec fn flushable(self) -> bool {
        !self.frozen() && !self.done()
    }

    /// The name under which flush requests refer to this writer.
    pub open spec fn handle(&self) -> SliceHandle {
        SliceHandle { chunk_idx: self.chunk_idx(), seq: self.seq() }
    }

    /// The writer's invariant: its buffer's, and the slice ends within its
    /// chunk.
    pub open spec fn wf(&self) -> bool {
        &&& self.buffer().wf()
        &&& self.offset_of_chunk() + self.buffer()@.length <= CHUNK_SIZE
    }

    /// `o` is this writer with, at most, other latches.
    pub open spec fn same_slice(&self, o: SliceWriter) -> bool {
        &&& o.seq() == self.seq()
        &&& o.slice_id() == self.slice_id()
        &&& o.chunk_idx() == self.chunk_idx()
        &&& o.offset_of_chunk() == self.offset_of_chunk()
        &&& o.buffer() == self.buffer()
    }

    /// `o` is this writer with, at most, another buffer.
    pub open spec fn same_state(&self, o: SliceWriter) -> bool {
        &&& o.seq() == self.seq()
        &&& o.slice_id() == self.slice_id()
        &&& o.chunk_idx() == self.chunk_idx()
        &&& o.offset_of_chunk() == self.offset_of_chunk()
        &&& o.frozen() == self.frozen()
        &&& o.done() == self.done()
    }

    /// Whether a write at `chunk_offset` of the chunk can go to this writer:
    /// it is not frozen, and the write starts inside or right behind what it
    /// has written, in a block that it has not uploaded. While the uploaded
    /// prefix ends on a block boundary this is to say that the write starts
    /// between the end of the uploaded prefix and the end of the written
    /// bytes (`lemma_takes_between_lengths`). A buffer that was uploaded in
    /// full with a short last block takes no write at its end: the block is
    /// uploaded, and no block is uploaded twice.
    pub open spec fn takes(&self, chunk_offset: int) -> bool {
        &&& !self.frozen()
        &&& self.offset_of_chunk() <= chunk_offset
        &&& self.buffer()@.in_window(chunk_offset - self.offset_of_chunk())
    }

    /// Number of bytes of a write of `len` bytes at `buffer_offset` that
    /// still lie in the chunk.
    pub open spec fn clipped(&self, buffer_offset: usize, len: usize) -> usize {
        if self.offset_of_chunk() + buffer_offset > CHUNK_SIZE {
            0
        } else if len <= CHUNK_SIZE - self.offset_of_chunk() - buffer_offset {
            len
        } else {
            (CHUNK_SIZE - self.offset_of_chunk() - buffer_offset) as usize
        }
    }

    /// The flush request that the writer has reason to make: none once it
    /// is frozen or done; a full flush when the slice fills its chunk; a
    /// bulk flush when more than a block is written and not uploaded.
    pub open spec fn background_req(&self) -> Option<FlushReq> {
        if self.frozen() || self.done() {
            None
        } else if self.buffer()@.length == CHUNK_SIZE {
            Some(FlushReq::FlushFull(self.handle()))
        } else if self.buffer()@.length - self.buffer()@.flushed_length > BLOCK_SIZE {
            Some(FlushReq::FlushBulk { sw: self.handle(), offset: self.buffer()@.length as usize })
        } else {
            None
        }
    }

    /// A writer for a new slice of chunk `chunk_idx` that starts at
    /// `offset_of_chunk`: empty, without slice id, neither frozen nor done.
    pub fn new(seq: u64, chunk_idx: usize, offset_of_chunk: usize) -> (sw: SliceWriter)
        requires
            offset_of_chunk <= CHUNK_SIZE,
        ensures
            sw.wf(),
            sw.seq() == seq,
            sw.slice_id() == EMPTY_SLICE_ID,
            sw.chunk_idx() == chunk_idx,
            sw.offset_of_chunk() == offset_of_chunk,
            sw.buffer()@.length == 0,
            sw.buffer()@.flushed_length == 0,
            !sw.frozen(),
            !sw.done(),
    {
        SliceWriter {
            internal_seq: seq,
            slice_id: EMPTY_SLICE_ID,
            chunk_idx,
            offset_of_chunk,
            slice_buffer: SliceBuffer::new(),
            frozen: false,
            done: false,
        }
    }

    /// The local sequence number.
    pub fn internal_seq(&self) -> (seq: u64)
        ensures
            seq == self.seq(),
    {
        self.internal_seq
    }

    /// The name under which flush requests refer to this writer.
    pub fn get_handle(&self) -> (h: SliceHandle)
        ensures
            h == self.handle(),
    {
        SliceHandle { chunk_idx: self.chunk_idx, seq: self.internal_seq }
    }

    /// Where in its chunk the slice starts.
    pub fn get_offset_of_chunk(&self) -> (off: usize)
        ensures
            off == self.offset_of_chunk(),
    {
        self.offset_of_chunk
    }

    /// Whether a write at `chunk_offset` of the chunk can go to this writer.
    pub fn can_take(&self, chunk_offset: usize) -> (yes: bool)
        requires
            self.wf(),
        ensures
            yes == self.takes(chunk_offset as int),
    {
        if self.frozen || chunk_offset < self.offset_of_chunk {
            return false;
        }
        let boff: usize = chunk_offset - self.offset_of_chunk;
        let released: usize = self.slice_buffer.released_block_cnt();
        released * BLOCK_SIZE <= boff && boff <= self.slice_buffer.length()
    }

    /// The slice id, if one is assigned.
    pub fn get_slice_id(&self) -> (id: Option<u64>)
        ensures
            id == if self.slice_id() == EMPTY_SLICE_ID {
                None
            } else {
                Some(self.slice_id())
            },
    {
        if self.slice_id == EMPTY_SLICE_ID {
            None
        } else {
            Some(self.slice_id)
        }
    }

    /// Takes `len` bytes at `buffer_offset` of the slice, as far as they lie
    /// in the chunk, into the buffer. A frozen writer takes nothing and
    /// says so with a count of zero.
    pub fn write_at(&mut self, pool: &mut DiskPagePool, buffer_offset: usize, len: usize) -> (res:
        Result<Written, StorageError>)
        requires
            old(self).wf(),
            old(pool).wf(),
        ensures
            final(self).wf(),
            final(pool).wf(),
            *final(self) == old(self).with_buffer(final(self).buffer()),
            old(self).frozen() ==> {
                &&& res is Ok
                &&& res->Ok_0.written == 0
                &&& res->Ok_0.copies@.len() == 0
                &&& final(self).buffer() == old(self).buffer()
                &&& *final(pool) == *old(pool)
            },
            !old(self).frozen() ==> old(self).buffer().wrote(
                *old(pool),
                buffer_offset,
                old(self).clipped(buffer_offset, len),
                final(self).buffer(),
                *final(pool),
                res,
            ),
    {
        if self.frozen {
            return Ok(Written { written: 0, copies: Vec::new() });
        }
        let room: usize = CHUNK_SIZE - self.offset_of_chunk;
        let take: usize = if buffer_offset > room {
            0
        } else if len <= room - buffer_offset {
            len
        } else {
            room - buffer_offset
        };
        self.slice_buffer.write_at(pool, buffer_offset, take)
    }

    /// Gives the slice the id `candidate` unless it has one already: the
    /// first id wins, and later calls keep it.
    pub fn prepare_slice_id(&mut self, candidate: u64)
        ensures
            *final(self) == old(self).with_offer(candidate),
    {
        if self.slice_id == EMPTY_SLICE_ID {
            self.slice_id = candidate;
        }
    }

    /// The uploads of a bulk flush up to `offset`, or nothing while the
    /// slice has no id.
    pub fn flush_bulk(&self, offset: usize) -> (uploads: Option<Vec<BlockUpload>>)
        requires
            self.wf(),
        ensures
            uploads is None <==> self.slice_id() == EMPTY_SLICE_ID,
            uploads matches Some(u) ==> {
                &&& u.len() == self.buffer()@.bulk_blocks(offset as int).len()
                &&& forall|k: int|
                    0 <= k < u.len() ==> #[trigger] u[k] == self.buffer().upload_for(
                        self.slice_id(),
                        self.buffer()@.bulk_blocks(offset as int)[k],
                        BLOCK_SIZE as int,
                    )
            },
    {
        if self.slice_id == EMPTY_SLICE_ID {
            None
        } else {
            Some(self.slice_buffer.flush_bulk_to(offset, self.slice_id))
        }
    }

    /// The uploads of a full flush, or nothing while the slice has no id.
    pub fn flush(&self) -> (uploads: Option<Vec<BlockUpload>>)
        requires
            self.wf(),
        ensures
            uploads is None <==> self.slice_id() == EMPTY_SLICE_ID,
            uploads matches Some(u) ==> {
                &&& u.len() == self.buffer()@.pending_blocks().len()
                &&& forall|k: int|
                    0 <= k < u.len() ==> #[trigger] u[k] == self.buffer().upload_for(
                        self.slice_id(),
                        self.buffer()@.pending_blocks()[k],
                        self.buffer()@.block_bytes(self.buffer()@.pending_blocks()[k]),
                    )
            },
    {
        if self.slice_id == EMPTY_SLICE_ID {
            None
        } else {
            Some(self.slice_buffer.flush(self.slice_id))
        }
    }

    /// Records that block `block_index` of the slice was uploaded with
    /// `size` bytes; says whether the upload was the next one due.
    pub fn complete_upload(&mut self, pool: &mut DiskPagePool, block_index: usize, size: usize) -> (counted:
        bool)
        requires
            old(self).wf(),
            old(pool).wf(),
        ensures
            final(self).wf(),
            final(pool).wf(),
            *final(self) == old(self).with_buffer(final(self).buffer()),
            old(self).buffer().uploaded(
                *old(pool),
                block_index,
                size,
                final(self).buffer(),
                *final(pool),
                counted,
            ),
    {
        self.slice_buffer.complete_upload(pool, block_index, size)
    }

    /// Freezes the writer. Says whether this call did it: a writer is frozen
    /// once, and stays frozen.
    pub fn freeze(&mut self) -> (won: bool)
        ensures
            won == !old(self).frozen(),
            *final(self) == old(self).with_flags(true, old(self).done()),
    {
        let won = !self.frozen;
        self.frozen = true;
        won
    }

    /// Whether no more writes are accepted.
    pub fn has_frozen(&self) -> (b: bool)
        ensures
            b == self.frozen(),
    {
        self.frozen
    }

    /// Marks the writer as done.
    pub fn mark_done(&mut self)
        ensures
            *final(self) == old(self).with_flags(old(self).frozen(), true),
    {
        self.done = true;
    }

    /// Whether the writer may be removed from its file writer.
    pub fn has_done(&self) -> (b: bool)
        ensures
            b == self.done(),
    {
        self.done
    }

    /// Whether writes are still accepted.
    pub fn can_write(&self) -> (b: bool)
        ensures
            b == (!self.frozen() && !self.done()),
    {
        !self.frozen && !self.done
    }

    /// Claims the writer for a manual flush: succeeds, and freezes it, if it
    /// was neither frozen nor done.
    pub fn can_flush(&mut self) -> (won: bool)
        ensures
            won == old(self).flushable(),
            *final(self) == old(self).claimed(),
    {
        if self.frozen || self.done {
            return false;
        }
        self.freeze()
    }

    /// Makes the flush request that the writer has reason to make after a
    /// write, and freezes the writer if that is a full flush.
    pub fn make_background_flush_req(&mut self) -> (req: Option<FlushReq>)
        ensures
            req == old(self).background_req(),
            *final(self) == old(self).with_flags(
                old(self).frozen() || (old(self).flushable() && old(self).buffer()@.length
                    == CHUNK_SIZE),
                old(self).done(),
            ),
    {
        if self.frozen {
            return None;
        }
        if self.done {
            return None;
        }
        let length: usize = self.slice_buffer.length();
        if length == CHUNK_SIZE {
            self.freeze();
            return Some(FlushReq::FlushFull(self.get_handle()));
        } else if length > self.slice_buffer.flushed_length() && length
            - self.slice_buffer.flushed_length() > BLOCK_SIZE {
            return Some(FlushReq::FlushBulk { sw: self.get_handle(), offset: length });
        }
        None
    }

    /// Freezes the writer ahead of time and asks for its full flush, unless
    /// it is frozen already.
    pub fn make_full_flush_in_advance(&mut self) -> (req: Option<FlushReq>)
        ensures
            req == if old(self).frozen() {
                None
            } else {
                Some(FlushReq::FlushFull(old(self).handle()))
            },
            *final(self) == old(self).with_flags(true, old(self).done()),
    {
        if !self.freeze() {
            return None;
        }
        Some(FlushReq::FlushFull(self.get_handle()))
    }

    /// The end of the uploaded prefix and the end of the written bytes.
    pub fn get_flushed_length_and_total_write_length(&self) -> (lens: (usize, usize))
        ensures
            lens.0 == self.buffer()@.flushed_length,
            lens.1 == self.buffer()@.length,
    {
        (self.slice_buffer.flushed_length(), self.slice_buffer.length())
    }

    /// Gives up the writer and hands the pages it still holds back to the
    /// pool.
    pub fn discard(self, pool: &mut DiskPagePool)
        requires
            self.wf(),
            old(pool).wf(),
        ensures
            final(pool).wf(),
            final(pool).page_size() == old(pool).page_size(),
            final(pool).capacity() == old(pool).capacity(),
            final(pool).outstanding() <= old(pool).outstanding(),
            forall|id: u64| final(pool).is_out(id) ==> old(pool).is_out(id),
            forall|i: int|
                0 <= i < crate::common::BLOCKS_PER_CHUNK && (#[trigger] self.buffer().page_of(i)) is Some
                    ==> !final(pool).is_out(self.buffer().page_of(i)->Some_0.id()),
            forall|id: u64|
                (forall|i: int|
                    0 <= i < crate::common::BLOCKS_PER_CHUNK && (#[trigger] self.buffer().page_of(
                        i,
                    )) is Some ==> self.buffer().page_of(i)->Some_0.id() != id) ==> final(pool).is_out(id) == old(pool).is_out(id),
    {
        self.slice_buffer.discard(pool)
    }
}

/// What changing the latches, the slice id or the buffer of a writer leaves
/// as it was.
pub broadcast proof fn lemma_with_fields(w: SliceWriter, frozen: bool, done: bool)
    ensures
        (#[trigger] w.with_flags(frozen, done)).frozen() == frozen,
        w.with_flags(frozen, done).done() == done,
        w.same_slice(w.with_flags(frozen, done)),
        w.with_flags(w.frozen(), w.done()) == w,
{
}

/// A writer with another slice id is the same writer otherwise.
pub broadcast proof fn lemma_with_slice_id(w: SliceWriter, slice_id: u64)
    ensures
        (#[trigger] w.with_slice_id(slice_id)).slice_id() == slice_id,
        w.with_slice_id(slice_id).seq() == w.seq(),
        w.with_slice_id(slice_id).chunk_idx() == w.chunk_idx(),
        w.with_slice_id(slice_id).offset_of_chunk() == w.offset_of_chunk(),
        w.with_slice_id(slice_id).buffer() == w.buffer(),
        w.with_slice_id(slice_id).frozen() == w.frozen(),
        w.with_slice_id(slice_id).done() == w.done(),
        w.with_slice_id(w.slice_id()) == w,
{
}

/// A writer with another buffer is the same writer otherwise.
pub broadcast proof fn lemma_with_buffer(w: SliceWriter, buffer: SliceBuffer)
    ensures
        (#[trigger] w.with_buffer(buffer)).buffer() == buffer,
        w.same_state(w.with_buffer(buffer)),
        w.with_buffer(w.buffer()) == w,
{
}

/// A slice gets its id once: the first id that is offered, and is an id,
/// stays whatever is offered later.
pub proof fn lemma_first_slice_id_wins(w: SliceWriter, first: u64, later: u64)
    requires
        w.slice_id() == EMPTY_SLICE_ID,
        first != EMPTY_SLICE_ID,
    ensures
        w.with_offer(first).slice_id() == first,
        w.with_offer(first).with_offer(later) == w.with_offer(first),
{
    broadcast use group_slice_writer;

    let given = w.with_offer(first);
    assert(given.slice_id() == first);
    assert(given.with_offer(later) == given.with_slice_id(given.slice_id()));
}

/// A writer whose uploaded prefix ends on a block boundary takes the
/// writes that start between the end of that prefix and the end of what is
/// written, while it is not frozen.
pub proof fn lemma_takes_between_lengths(w: SliceWriter, chunk_offset: int)
    requires
        w.buffer()@.wf(),
        w.buffer()@.flushed_length % (BLOCK_SIZE as int) == 0,
    ensures
        w.takes(chunk_offset) <==> !w.frozen() && w.offset_of_chunk() + w.buffer()@.flushed_length
            <= chunk_offset <= w.offset_of_chunk() + w.buffer()@.length,
{
    let bs = BLOCK_SIZE as int;
    let f = w.buffer()@.flushed_length;
    assert(crate::slice_buffer::blocks_up_to(f) * bs == f) by {
        let q = f / bs;
        vstd::arithmetic::div_mod::lemma_fundamental_div_mod(f, bs);
        assert(f == bs * q);
        assert(f + bs - 1 == q * bs + (bs - 1)) by (nonlinear_arith)
            requires
                f == bs * q,
        ;
        vstd::arithmetic::div_mod::lemma_fundamental_div_mod_converse(f + bs - 1, bs, q, bs - 1);
        assert(q * bs == bs * q) by (nonlinear_arith);
    }
}

pub broadcast group group_slice_writer {
    lemma_with_fields,
    lemma_with_slice_id,
    lemma_with_buffer,
}

impl PartialEq for SliceWriter {
    /// Two writers are the same if they have the same sequence number.
    fn eq(&self, other: &Self) -> (same: bool) {
        self.internal_seq == other.internal_seq
    }
}

impl vstd::std_specs::cmp::PartialEqSpecImpl for SliceWriter {
    open spec fn obeys_eq_spec() -> bool {
        true
    }

    open spec fn eq_spec(&self, other: &Self) -> bool {
        self.seq() == other.seq()
    }
}

impl Eq for SliceWriter {

}

} // verus!
