//! The reader of one open file: it keeps the slice readers of the file
//! handle, turns a read into requests to slice readers, makes new slice
//! readers for what none covers yet, and copies the fetched bytes out.
use vstd::prelude::*;
use sonyflake::Sonyflake;
use std::ops::Range;
use crate::err::VFSError;
use crate::ranges::{canonical, coalesce, covered, make_range, span, uncovered};
use crate::seq_gen::next_seq;
use crate::slice_reader::{
    group_slice_reader,
    CleanupAction,
    SliceReader,
    SliceReaderState,
};

verus! {

broadcast use group_slice_reader;

/// A read this close to the end of the file makes the reader read ahead.
pub const LAST_BLOCK_SIZE: usize = 32768;

/// One request of a read to one slice reader: the bytes of the reader's
/// piece from `read_range.start` up to `read_range.end`, both counted from
/// the start of the piece, are the bytes of the file from `file_offset` on.
#[derive(Debug)]
pub struct Req {
    pub slice_reader: u64,
    pub read_range: Range<usize>,
    pub file_offset: usize,
}

/// How a read is to be served.
#[derive(Debug)]
pub struct ReadPlan {
    /// The part of the file that the read covers.
    pub block: Range<usize>,
    /// The part of the file to read ahead, if any.
    pub read_ahead: Option<Range<usize>>,
    /// The requests that serve the read, in file order.
    pub reqs: Vec<Req>,
    /// Whether a slice reader could not be made for want of a sequence
    /// number, so that the requests may end before the read does.
    pub starved: bool,
}

/// The offsets that the valid readers of `rs` cover.
pub open spec fn valid_cover(rs: Seq<SliceReader>) -> Set<int> {
    Set::new(
        |x: int|
            exists|i: int|
                0 <= i < rs.len() && (#[trigger] rs[i]).is_valid() && rs[i].range().start <= x
                    < rs[i].range().end,
    )
}

/// Number of bytes that the request `q` asks for.
pub open spec fn req_len(q: Req) -> int {
    q.read_range.end - q.read_range.start
}

/// Where the requests `reqs` of a read that starts at `start` end.
pub open spec fn reach_of(reqs: Seq<Req>, start: int) -> int {
    if reqs.len() == 0 {
        start
    } else {
        reqs.last().file_offset + req_len(reqs.last())
    }
}

/// The requests `reqs` cover the file from `start` on without gap or
/// overlap, none of them empty.
pub open spec fn tiles(reqs: Seq<Req>, start: int) -> bool {
    &&& reqs.len() > 0 ==> reqs[0].file_offset == start
    &&& forall|k: int| 0 <= k < reqs.len() ==> req_len(#[trigger] reqs[k]) > 0
    &&& forall|k: int|
        0 <= k < reqs.len() - 1 ==> (#[trigger] reqs[k]).file_offset + req_len(reqs[k]) == reqs[k
            + 1].file_offset
}

/// The request `q` is addressed to the reader `r` and lies in its piece.
pub open spec fn serves(r: SliceReader, q: Req) -> bool {
    &&& r.seq() == q.slice_reader
    &&& r.is_valid()
    &&& r.range().start + q.read_range.start == q.file_offset
    &&& q.read_range.start < q.read_range.end
    &&& r.range().start + q.read_range.end <= r.range().end
}

/// The piece of the reader `r` lies within one block of `block_size`
/// bytes.
pub open spec fn in_one_block(r: SliceReader, block_size: usize) -> bool {
    r.range().end <= (r.range().start as int / block_size as int + 1) * block_size
}

/// Where the piece ends that starts at `start` in a gap that ends at `end`:
/// at the next block boundary, or at the end of the gap if that comes
/// first.
pub open spec fn block_cut(block_size: usize, start: int, end: int) -> int {
    let boundary = (start / (block_size as int) + 1) * block_size;
    if end <= boundary {
        end
    } else {
        boundary
    }
}

/// The readers `made` are the first pieces of the gap from `start` to
/// `end`, in order: the first starts where the gap starts, each next one
/// where the one before ends, and each ends at the next block boundary or
/// with the gap. Each is new, without bytes, made at `now`, and knows the
/// chunk in which its piece starts.
pub open spec fn pieces_of_gap(
    made: Seq<SliceReader>,
    block_size: usize,
    chunk_size: usize,
    start: int,
    end: int,
    now: usize,
) -> bool {
    &&& made.len() > 0 ==> made[0].range().start == start
    &&& forall|k: int|
        0 <= k < made.len() ==> {
            let nr = #[trigger] made[k];
            &&& nr.state() is New
            &&& nr.bytes().len() == 0
            &&& nr.last_access() == now
            &&& nr.chunk_idx() == nr.range().start / chunk_size
            &&& nr.range().start < end
            &&& nr.range().end == block_cut(block_size, nr.range().start as int, end)
        }
    &&& forall|k: int|
        0 <= k < made.len() - 1 ==> (#[trigger] made[k]).range().end == made[k + 1].range().start
}

/// Where the pieces `made` of a gap that starts at `start` end.
pub open spec fn gap_reach(made: Seq<SliceReader>, start: int) -> int {
    if made.len() == 0 {
        start
    } else {
        made.last().range().end as int
    }
}

/// `usage` and `more` bytes together, as far as they can be counted.
pub open spec fn usage_plus(usage: usize, more: int) -> usize {
    if usage + more > usize::MAX {
        usize::MAX
    } else {
        (usage + more) as usize
    }
}

/// Number of bytes in the pieces of all of `rs` together.
pub open spec fn total_len(rs: Seq<SliceReader>) -> int
    decreases rs.len(),
{
    if rs.len() == 0 {
        0
    } else {
        total_len(rs.drop_last()) + (rs.last().range().end - rs.last().range().start)
    }
}

/// Whether `nr` is a reader as they are made for `open`, the part of a
/// read that no reader covers yet: new and without bytes, in the chunk in
/// which its piece starts, for a piece of `open` that lies within one
/// block and is as large as the block and `open` let it be: it starts at a
/// block boundary or where `open` starts, and ends at a block boundary or
/// where `open` ends.
pub open spec fn is_open_piece(
    nr: SliceReader,
    open: Set<int>,
    block_size: usize,
    chunk_size: usize,
) -> bool {
    &&& nr.state() is New
    &&& nr.bytes().len() == 0
    &&& nr.chunk_idx() == nr.range().start / chunk_size
    &&& nr.range().start < nr.range().end
    &&& in_one_block(nr, block_size)
    &&& forall|x: int| nr.range().start <= x < nr.range().end ==> #[trigger] open.contains(x)
    &&& nr.range().start as int % block_size as int == 0 || !open.contains(nr.range().start - 1)
    &&& nr.range().end as int % block_size as int == 0 || !open.contains(nr.range().end as int)
}

/// The readers `made` are the pieces of `open` before the offset `lim`:
/// each is a piece of `open`, they follow each other without overlap and
/// end at or before `lim`, and they cover what `open` holds before `lim`.
pub open spec fn gaps_filled(
    made: Seq<SliceReader>,
    open: Set<int>,
    block_size: usize,
    chunk_size: usize,
    lim: int,
) -> bool {
    &&& forall|k: int|
        0 <= k < made.len() ==> is_open_piece(#[trigger] made[k], open, block_size, chunk_size)
    &&& forall|k: int|
        0 <= k < made.len() - 1 ==> (#[trigger] made[k]).range().end <= made[k + 1].range().start
    &&& forall|x: int| #[trigger] valid_cover(made).contains(x) <==> open.contains(x) && x < lim
    &&& made.len() > 0 ==> made.last().range().end <= lim
}

/// How slice readers are made for the read of `read_range`: `after` holds
/// the readers `before` and, behind them, the new ones.
///
/// The new readers stand in the order of their pieces, which do not
/// overlap. Each is a piece of what no valid reader of `before` covered of
/// `read_range`. Together they cover all of that; or, where the making
/// stopped for want of a sequence number (`starved`), all of it before the
/// end of the last piece made.
pub open spec fn made_for(
    before: Seq<SliceReader>,
    after: Seq<SliceReader>,
    read_range: Range<usize>,
    block_size: usize,
    chunk_size: usize,
    starved: bool,
) -> bool {
    let made = after.skip(before.len() as int);
    let open = span(read_range).difference(valid_cover(before));
    let stop = gap_reach(made, read_range.start as int);
    &&& before.len() <= after.len()
    &&& forall|k: int|
        0 <= k < made.len() ==> is_open_piece(#[trigger] made[k], open, block_size, chunk_size)
    &&& forall|k: int|
        0 <= k < made.len() - 1 ==> (#[trigger] made[k]).range().end <= made[k + 1].range().start
    &&& forall|x: int| #[trigger]
        valid_cover(made).contains(x) <==> open.contains(x) && (starved ==> x < stop)
}

/// Some reader of `rs` serves the request `q`.
pub open spec fn served_by(rs: Seq<SliceReader>, q: Req) -> bool {
    exists|i: int| 0 <= i < rs.len() && serves(#[trigger] rs[i], q)
}

/// The readers `rs` are in order: each is well formed, and their sequence
/// numbers rise and stay at or below `last_seq`.
pub open spec fn readers_ok(rs: Seq<SliceReader>, last_seq: u64) -> bool {
    &&& forall|i: int| 0 <= i < rs.len() ==> (#[trigger] rs[i]).wf() && rs[i].seq() <= last_seq
    &&& forall|i: int, j: int|
        0 <= i < j < rs.len() ==> (#[trigger] rs[i]).seq() < (#[trigger] rs[j]).seq()
}

/// `after` holds the readers of `before`, in their places, changed at most
/// in when they were last used.
pub open spec fn kept(before: Seq<SliceReader>, after: Seq<SliceReader>) -> bool {
    &&& before.len() <= after.len()
    &&& forall|i: int|
        0 <= i < before.len() ==> (#[trigger] after[i]) == before[i].with_state(
            before[i].state(),
            after[i].last_access(),
        )
}

/// The reader of one open file.
pub struct FileReader {
    inode: u64,
    fh: u64,
    block_size: usize,
    chunk_size: usize,
    length: usize,
    slice_readers: Vec<SliceReader>,
    closing: bool,
    read_count: usize,
    read_buffer_usage: usize,
    seq_generator: Sonyflake,
    last_seq: u64,
}

impl FileReader {
    /// The inode of the file.
    pub closed spec fn inode(&self) -> u64 {
        self.inode
    }

    /// The file handle.
    pub closed spec fn fh(&self) -> u64 {
        self.fh
    }

    /// The size of a block.
    pub closed spec fn block_size(&self) -> usize {
        self.block_size
    }

    /// The size of a chunk.
    pub closed spec fn chunk_size(&self) -> usize {
        self.chunk_size
    }

    /// The length of the file as this reader knows it.
    pub closed spec fn length(&self) -> usize {
        self.length
    }

    /// The slice readers, lowest sequence number first.
    pub closed spec fn readers(&self) -> Seq<SliceReader> {
        self.slice_readers@
    }

    /// Whether the reader is closing.
    pub closed spec fn closing(&self) -> bool {
        self.closing
    }

    /// Number of reads under way.
    pub closed spec fn read_count(&self) -> usize {
        self.read_count
    }

    /// Number of bytes set aside for the slice readers' pieces.
    pub closed spec fn read_buffer_usage(&self) -> usize {
        self.read_buffer_usage
    }

    /// The highest sequence number given to a slice reader so far.
    pub closed spec fn last_seq(&self) -> u64 {
        self.last_seq
    }

    /// The reader's invariant: block and chunk have a size, and the slice
    /// readers are in order.
    pub open spec fn wf(&self) -> bool {
        &&& self.block_size() > 0
        &&& self.chunk_size() > 0
        &&& readers_ok(self.readers(), self.last_seq())
    }

    /// `after` is this reader but for its slice readers, their sequence
    /// numbers and their bytes.
    pub open spec fn same_file(&self, after: FileReader) -> bool {
        &&& after.inode() == self.inode()
        &&& after.fh() == self.fh()
        &&& after.block_size() == self.block_size()
        &&& after.chunk_size() == self.chunk_size()
        &&& after.length() == self.length()
        &&& after.closing() == self.closing()
        &&& after.read_count() == self.read_count()
    }

    /// A reader for the handle `fh` of the file `inode` of `length` bytes,
    /// without slice readers; `seq_generator` numbers its slice readers.
    pub fn new(
        inode: u64,
        fh: u64,
        length: usize,
        block_size: usize,
        chunk_size: usize,
        seq_generator: Sonyflake,
    ) -> (fr: FileReader)
        requires
            block_size > 0,
            chunk_size > 0,
        ensures
            fr.wf(),
            fr.inode() == inode,
            fr.fh() == fh,
            fr.block_size() == block_size,
            fr.chunk_size() == chunk_size,
            fr.length() == length,
            fr.readers().len() == 0,
            !fr.closing(),
            fr.read_count() == 0,
            fr.read_buffer_usage() == 0,
            fr.last_seq() == 0,
    {
        FileReader {
            inode,
            fh,
            block_size,
            chunk_size,
            length,
            slice_readers: Vec::new(),
            closing: false,
            read_count: 0,
            read_buffer_usage: 0,
            seq_generator,
            last_seq: 0,
        }
    }

    /// The inode of the file.
    pub fn get_inode(&self) -> (inode: u64)
        ensures
            inode == self.inode(),
    {
        self.inode
    }

    /// The file handle that the reader serves.
    pub fn get_fh(&self) -> (fh: u64)
        ensures
            fh == self.fh(),
    {
        self.fh
    }

    /// The length of the file as this reader knows it.
    pub fn get_length(&self) -> (n: usize)
        ensures
            n == self.length(),
    {
        self.length
    }

    /// Whether the reader is closing.
    pub fn is_closing(&self) -> (b: bool)
        ensures
            b == self.closing(),
    {
        self.closing
    }

    /// Number of bytes set aside for the slice readers' pieces.
    pub fn get_read_buffer_usage(&self) -> (n: usize)
        ensures
            n == self.read_buffer_usage(),
    {
        self.read_buffer_usage
    }

    /// The state of the slice reader `seq`, if there is such a reader.
    pub fn reader_state(&self, seq: u64) -> (state: Option<SliceReaderState>)
        ensures
            state == if reader_with_seq(self.readers(), seq, 0) >= 0 {
                Some(self.readers()[reader_with_seq(self.readers(), seq, 0)].state())
            } else {
                None
            },
    {
        match self.find_by_seq(seq) {
            Some(i) => Some(self.slice_readers[i].get_state()),
            None => None,
        }
    }

    /// Number of slice readers.
    pub fn slice_reader_cnt(&self) -> (n: usize)
        ensures
            n == self.readers().len(),
    {
        self.slice_readers.len()
    }

    /// The pieces of the valid slice readers, in the order of the readers.
    pub fn valid_ranges(&self) -> (out: Vec<Range<usize>>)
        requires
            self.wf(),
        ensures
            forall|i: int| 0 <= i < out.len() ==> (#[trigger] out[i]).start < out[i].end,
            covered(out@) == valid_cover(self.readers()),
    {
        let mut out: Vec<Range<usize>> = Vec::new();
        let mut k: usize = 0;
        proof {
            assert(covered(out@) =~= valid_cover(self.readers().take(0)));
        }
        while k < self.slice_readers.len()
            invariant
                k <= self.slice_readers.len(),
                self.wf(),
                forall|i: int| 0 <= i < out.len() ==> (#[trigger] out[i]).start < out[i].end,
                covered(out@) == valid_cover(self.readers().take(k as int)),
            decreases self.slice_readers.len() - k,
        {
            let ghost before = out@;
            if self.slice_readers[k].valid() {
                out.push(self.slice_readers[k].start()..self.slice_readers[k].end());
            }
            proof {
                let head = self.readers().take(k as int);
                let next = self.readers().take(k + 1);
                let r = self.readers()[k as int];
                assert(r.wf());
                assert forall|x: int| covered(out@).contains(x) <==> valid_cover(next).contains(
                    x,
                ) by {
                    if covered(out@).contains(x) {
                        let i = choose|i: int|
                            0 <= i < out@.len() && #[trigger] out@[i].start <= x < out@[i].end;
                        if i < before.len() {
                            assert(before[i].start <= x < before[i].end);
                            assert(covered(before).contains(x));
                            let j = choose|j: int|
                                0 <= j < head.len() && (#[trigger] head[j]).is_valid()
                                    && head[j].range().start <= x < head[j].range().end;
                            assert(next[j].is_valid() && next[j].range().start <= x
                                < next[j].range().end);
                        } else {
                            assert(next[k as int].is_valid() && next[k as int].range().start <= x
                                < next[k as int].range().end);
                        }
                    }
                    if valid_cover(next).contains(x) {
                        let j = choose|j: int|
                            0 <= j < next.len() && (#[trigger] next[j]).is_valid()
                                && next[j].range().start <= x < next[j].range().end;
                        if j < k {
                            assert(head[j].is_valid() && head[j].range().start <= x
                                < head[j].range().end);
                            assert(covered(before).contains(x));
                            let i = choose|i: int|
                                0 <= i < before.len() && #[trigger] before[i].start <= x
                                    < before[i].end;
                            assert(out@[i].start <= x < out@[i].end);
                        } else {
                            assert(out@[out@.len() - 1].start <= x < out@[out@.len() - 1].end);
                        }
                    }
                }
                assert(covered(out@) =~= valid_cover(next));
            }
            k = k + 1;
        }
        proof {
            assert(self.readers().take(self.slice_readers.len() as int) =~= self.readers());
        }
        out
    }

    /// The part of the file that `read_range` and the valid slice readers
    /// cover together, as the fewest ranges that hold it, in rising order.
    pub fn split_ranges(&self, read_range: Range<usize>) -> (out: Vec<Range<usize>>)
        requires
            self.wf(),
            read_range.start < read_range.end,
        ensures
            canonical(out@),
            covered(out@) == span(read_range).union(valid_cover(self.readers())),
    {
        let mut ranges = self.valid_ranges();
        let ghost valid = ranges@;
        ranges.push(read_range);
        proof {
            assert forall|x: int| covered(ranges@).contains(x) <==> span(read_range).contains(x)
                || covered(valid).contains(x) by {
                if covered(valid).contains(x) {
                    let i = choose|i: int| 0 <= i < valid.len()
                        && #[trigger] valid[i].start <= x < valid[i].end;
                    assert(ranges@[i].start <= x < ranges@[i].end);
                }
                if span(read_range).contains(x) {
                    assert(ranges@[valid.len() as int].start <= x < ranges@[valid.len() as int].end);
                }
                if covered(ranges@).contains(x) {
                    let i = choose|i: int|
                        0 <= i < ranges@.len() && #[trigger] ranges@[i].start <= x
                            < ranges@[i].end;
                    if i < valid.len() {
                        assert(valid[i].start <= x < valid[i].end);
                    }
                }
            }
            assert(covered(ranges@) =~= span(read_range).union(valid_cover(self.readers())));
        }
        coalesce(&ranges)
    }

    /// Looks for the first valid slice reader whose piece holds the offset
    /// `pos`.
    pub fn find_reader(&self, pos: usize) -> (found: Option<usize>)
        ensures
            found matches Some(i) ==> i < self.readers().len() && self.readers()[i as int].is_valid()
                && self.readers()[i as int].range().start <= pos
                < self.readers()[i as int].range().end,
            found is None <==> !valid_cover(self.readers()).contains(pos as int),
            found matches Some(i) ==> forall|j: int|
                0 <= j < i ==> !((#[trigger] self.readers()[j]).is_valid()
                    && self.readers()[j].range().start <= pos < self.readers()[j].range().end),
    {
        let mut k: usize = 0;
        while k < self.slice_readers.len()
            invariant
                k <= self.slice_readers.len(),
                forall|j: int|
                    0 <= j < k ==> !((#[trigger] self.readers()[j]).is_valid()
                        && self.readers()[j].range().start <= pos < self.readers()[j].range().end),
            decreases self.slice_readers.len() - k,
        {
            if self.slice_readers[k].valid() && self.slice_readers[k].start() <= pos && pos
                < self.slice_readers[k].end() {
                proof {
                    assert(self.readers()[k as int].is_valid());
                    assert(valid_cover(self.readers()).contains(pos as int));
                }
                return Some(k);
            }
            k = k + 1;
        }
        None
    }

    /// Where the first piece of the range `r` ends: at the end of `r`, at
    /// the end of the file, or at the next block boundary, whichever comes
    /// first.
    pub open spec fn piece_stop(&self, flen: usize, r: Range<usize>) -> int {
        let boundary = (r.start / self.block_size() + 1) * self.block_size();
        let a = if r.end <= flen {
            r.end as int
        } else {
            flen as int
        };
        if a <= boundary {
            a
        } else {
            boundary
        }
    }

    /// Makes a slice reader for the first piece of the range `r`, which
    /// ends at the next block boundary at the latest, and moves the start
    /// of `r` behind the piece. Nothing is made unless `fresh` brings a
    /// sequence number above all that were used before.
    pub fn new_slice_reader(
        &mut self,
        flen: usize,
        r: &mut Range<usize>,
        fresh: Option<u64>,
        now: usize,
    ) -> (made: Option<u64>)
        requires
            old(self).wf(),
            old(r).start < old(r).end,
            old(r).start < flen,
        ensures
            final(self).wf(),
            old(self).same_file(*final(self)),
            made is Some <==> fresh is Some && fresh->Some_0 > old(self).last_seq(),
            made is None ==> final(self).readers() == old(self).readers() && final(self).last_seq()
                == old(self).last_seq() && *final(r) == *old(r) && final(self).read_buffer_usage()
                == old(self).read_buffer_usage(),
            made matches Some(seq) ==> {
                let nr = final(self).readers().last();
                let stop = old(self).piece_stop(flen, *old(r));
                &&& seq == fresh->Some_0
                &&& final(self).last_seq() == seq
                &&& final(self).readers() == old(self).readers().push(nr)
                &&& nr.seq() == seq
                &&& nr.range().start == old(r).start
                &&& nr.range().end == stop
                &&& old(r).start < stop <= old(r).end
                &&& nr.state() is New
                &&& nr.chunk_idx() == old(r).start / old(self).chunk_size()
                &&& nr.last_access() == now
                &&& nr.bytes().len() == 0
                &&& final(r).start == stop
                &&& final(r).end == old(r).end
                &&& final(self).read_buffer_usage() == if old(self).read_buffer_usage() + (stop
                    - old(r).start) > usize::MAX {
                    usize::MAX
                } else {
                    (old(self).read_buffer_usage() + (stop - old(r).start)) as usize
                }
            },
    {
        let seq: u64 = match fresh {
            Some(seq) => seq,
            None => {
                return None;
            },
        };
        if seq <= self.last_seq {
            return None;
        }
        let limit: usize = if r.end <= flen {
            r.end
        } else {
            flen
        };
        let in_block: usize = r.start % self.block_size;
        let room: usize = self.block_size - in_block;
        let stop: usize = if limit - r.start <= room {
            limit
        } else {
            r.start + room
        };
        proof {
            let bs = self.block_size as int;
            let st = r.start as int;
            vstd::arithmetic::div_mod::lemma_fundamental_div_mod(st, bs);
            assert((st / bs + 1) * bs == bs * (st / bs) + bs) by (nonlinear_arith);
            assert(st + room == (st / bs + 1) * bs);
        }
        let block_len: usize = stop - r.start;
        let sr = SliceReader::new(seq, r.start / self.chunk_size, r.start, stop, now);
        let ghost before = self.readers();
        self.slice_readers.push(sr);
        self.last_seq = seq;
        self.read_buffer_usage = if self.read_buffer_usage > usize::MAX - block_len {
            usize::MAX
        } else {
            self.read_buffer_usage + block_len
        };
        r.start = stop;
        proof {
            assert(self.readers() =~= before.push(self.readers().last()));
            assert forall|i: int| 0 <= i < self.readers().len() implies (
            #[trigger] self.readers()[i]).wf() && self.readers()[i].seq() <= self.last_seq() by {
                if i < before.len() {
                    assert(before[i].wf());
                }
            }
            assert forall|i: int, j: int| 0 <= i < j < self.readers().len() implies (
            #[trigger] self.readers()[i]).seq() < (#[trigger] self.readers()[j]).seq() by {
                assert(before[i].seq() <= old(self).last_seq());
                if j < before.len() {
                    assert(before[i].seq() < before[j].seq());
                }
            }
        }
        Some(seq)
    }

    /// Makes slice readers for the whole of `gap`, one piece after the
    /// other, each piece cut at the next block boundary. Says whether it
    /// got to the end: it stops when no new sequence number is to be had.
    ///
    /// The readers that were there stay as they are. The new ones stand
    /// behind them, in the order of their pieces, and tile the gap from its
    /// start up to where the making stopped, which is the end of the gap
    /// exactly if the result says so. The sequence number of the last one
    /// is the highest given out, and the bytes set aside grow by the length
    /// of what was tiled.
    pub fn fill_gap(&mut self, flen: usize, gap: Range<usize>, now: usize) -> (complete: bool)
        requires
            old(self).wf(),
            gap.start < gap.end <= flen,
        ensures
            final(self).wf(),
            old(self).same_file(*final(self)),
            final(self).last_seq() >= old(self).last_seq(),
            final(self).readers().len() >= old(self).readers().len(),
            final(self).readers().take(old(self).readers().len() as int) == old(self).readers(),
            ({
                let made = final(self).readers().skip(old(self).readers().len() as int);
                let reach = gap_reach(made, gap.start as int);
                &&& pieces_of_gap(
                    made,
                    old(self).block_size(),
                    old(self).chunk_size(),
                    gap.start as int,
                    gap.end as int,
                    now,
                )
                &&& gap.start <= reach <= gap.end
                &&& complete <==> reach == gap.end
                &&& final(self).last_seq() == if made.len() == 0 {
                    old(self).last_seq()
                } else {
                    made.last().seq()
                }
                &&& final(self).read_buffer_usage() == usage_plus(
                    old(self).read_buffer_usage(),
                    reach - gap.start,
                )
            }),
            forall|i: int|
                old(self).readers().len() <= i < final(self).readers().len() ==> {
                    let nr = #[trigger] final(self).readers()[i];
                    &&& nr.state() is New
                    &&& gap.start <= nr.range().start < nr.range().end <= gap.end
                    &&& nr.bytes().len() == 0
                    &&& in_one_block(nr, old(self).block_size())
                },
            complete ==> forall|x: int|
                gap.start <= x < gap.end ==> #[trigger] valid_cover(final(self).readers()).contains(x),
    {
        let mut r: Range<usize> = gap.start..gap.end;
        let mut starved: bool = false;
        let ghost n0 = self.readers().len() as int;
        proof {
            assert(self.readers().take(n0) =~= self.readers());
            assert(self.readers().skip(n0).len() == 0);
        }
        while r.start < r.end && !starved
            invariant
                self.wf(),
                old(self).same_file(*self),
                self.last_seq() >= old(self).last_seq(),
                n0 == old(self).readers().len(),
                self.readers().len() >= n0,
                self.readers().take(n0) == old(self).readers(),
                gap.start <= r.start <= r.end,
                r.end == gap.end,
                gap.end <= flen,
                starved ==> r.start < r.end,
                pieces_of_gap(
                    self.readers().skip(n0),
                    old(self).block_size(),
                    old(self).chunk_size(),
                    gap.start as int,
                    gap.end as int,
                    now,
                ),
                r.start == gap_reach(self.readers().skip(n0), gap.start as int),
                self.last_seq() == if self.readers().len() == n0 {
                    old(self).last_seq()
                } else {
                    self.readers().last().seq()
                },
                self.read_buffer_usage() == usage_plus(
                    old(self).read_buffer_usage(),
                    r.start - gap.start,
                ),
                forall|i: int|
                    n0 <= i < self.readers().len() ==> {
                        let nr = #[trigger] self.readers()[i];
                        &&& nr.state() is New
                        &&& gap.start <= nr.range().start < nr.range().end <= gap.end
                        &&& nr.bytes().len() == 0
                        &&& in_one_block(nr, old(self).block_size())
                    },
                forall|x: int|
                    gap.start <= x < r.start ==> #[trigger] valid_cover(self.readers()).contains(x),
            decreases r.end - r.start + if starved {
                0int
            } else {
                1int
            },
        {
            let fresh = next_seq(&self.seq_generator);
            let ghost before = self.readers();
            let ghost r0 = r;
            match self.new_slice_reader(flen, &mut r, fresh, now) {
                Some(_) => {
                    proof {
                        let nr = self.readers().last();
                        assert(self.readers().take(n0) =~= before.take(n0));
                        let made0 = before.skip(n0);
                        let made = self.readers().skip(n0);
                        assert(made =~= made0.push(nr));
                        assert(nr.range().end == block_cut(
                            old(self).block_size(),
                            nr.range().start as int,
                            gap.end as int,
                        ));
                        assert forall|k: int| 0 <= k < made.len() implies {
                            let q = #[trigger] made[k];
                            &&& q.state() is New
                            &&& q.bytes().len() == 0
                            &&& q.last_access() == now
                            &&& q.chunk_idx() == q.range().start / old(self).chunk_size()
                            &&& q.range().start < gap.end
                            &&& q.range().end == block_cut(
                                old(self).block_size(),
                                q.range().start as int,
                                gap.end as int,
                            )
                        } by {
                            if k < made0.len() {
                                assert(made[k] == made0[k]);
                            }
                        }
                        assert forall|k: int| 0 <= k < made.len() - 1 implies (
                        #[trigger] made[k]).range().end == made[k + 1].range().start by {
                            if k < made0.len() - 1 {
                                assert(made[k] == made0[k]);
                                assert(made[k + 1] == made0[k + 1]);
                            } else {
                                assert(made[k] == made0[k]);
                                assert(made0.last() == made0[k]);
                            }
                        }
                        if made0.len() > 0 {
                            assert(made[0] == made0[0]);
                        }
                        assert(made.last() == nr);
                        assert forall|i: int| n0 <= i < self.readers().len() implies {
                            let q = #[trigger] self.readers()[i];
                            &&& q.state() is New
                            &&& gap.start <= q.range().start < q.range().end <= gap.end
                            &&& q.bytes().len() == 0
                            &&& in_one_block(q, old(self).block_size())
                        } by {
                            if i < before.len() {
                                assert(self.readers()[i] == before[i]);
                            }
                        }
                        assert forall|x: int| gap.start <= x < r.start implies #[trigger] valid_cover(
                            self.readers(),
                        ).contains(x) by {
                            if x < r0.start {
                                assert(valid_cover(before).contains(x));
                                let i = choose|i: int|
                                    0 <= i < before.len() && (#[trigger] before[i]).is_valid()
                                        && before[i].range().start <= x < before[i].range().end;
                                assert(self.readers()[i] == before[i]);
                                assert(self.readers()[i].is_valid());
                            } else {
                                let i = self.readers().len() - 1;
                                assert(self.readers()[i] == nr);
                                assert(self.readers()[i].is_valid());
                            }
                        }
                    }
                },
                None => {
                    starved = true;
                },
            }
        }
        !starved
    }

    /// Turns the read of `read_range` into requests to the valid slice
    /// readers, in file order, as far as they cover the range without a
    /// gap, and notes for each reader that serves one that it was used at
    /// the time `now`.
    pub fn build_reqs(&mut self, read_range: Range<usize>, now: usize) -> (reqs: Vec<Req>)
        requires
            old(self).wf(),
        ensures
            final(self).wf(),
            old(self).same_file(*final(self)),
            final(self).last_seq() == old(self).last_seq(),
            final(self).read_buffer_usage() == old(self).read_buffer_usage(),
            final(self).readers().len() == old(self).readers().len(),
            kept(old(self).readers(), final(self).readers()),
            tiles(reqs@, read_range.start as int),
            read_range.start < read_range.end ==> read_range.start <= reach_of(
                reqs@,
                read_range.start as int,
            ) <= read_range.end,
            read_range.start >= read_range.end ==> reqs.len() == 0,
            forall|k: int|
                0 <= k < reqs.len() ==> served_by(final(self).readers(), #[trigger] reqs[k]),
            reach_of(reqs@, read_range.start as int) < read_range.end ==> !valid_cover(
                old(self).readers(),
            ).contains(reach_of(reqs@, read_range.start as int)),
    {
        let mut reqs: Vec<Req> = Vec::new();
        let mut pos: usize = read_range.start;
        let mut stuck: bool = false;
        let ghost start = read_range.start as int;
        let ghost rs0 = self.readers();
        proof {
            assert forall|i: int| 0 <= i < rs0.len() implies (#[trigger] self.readers()[i])
                == rs0[i].with_state(rs0[i].state(), self.readers()[i].last_access()) by {}
        }
        while pos < read_range.end && !stuck
            invariant
                self.wf(),
                old(self).same_file(*self),
                self.last_seq() == old(self).last_seq(),
                self.read_buffer_usage() == old(self).read_buffer_usage(),
                rs0 == old(self).readers(),
                self.readers().len() == rs0.len(),
                kept(rs0, self.readers()),
                start == read_range.start,
                tiles(reqs@, start),
                pos == reach_of(reqs@, start),
                read_range.start < read_range.end ==> start <= pos <= read_range.end,
                read_range.start >= read_range.end ==> reqs.len() == 0,
                forall|k: int| 0 <= k < reqs.len() ==> served_by(rs0, #[trigger] reqs[k]),
                stuck ==> pos < read_range.end && !valid_cover(rs0).contains(pos as int),
            decreases read_range.end - pos + if stuck {
                0int
            } else {
                1int
            },
        {
            let ghost cur = self.readers();
            proof {
                lemma_kept_cover(rs0, cur);
            }
            match self.find_reader(pos) {
                None => {
                    stuck = true;
                },
                Some(i) => {
                    proof {
                        assert(cur[i as int].wf());
                        assert(cur[i as int] == rs0[i as int].with_state(
                            rs0[i as int].state(),
                            cur[i as int].last_access(),
                        ));
                    }
                    let first: usize = self.slice_readers[i].start();
                    let last: usize = self.slice_readers[i].end();
                    let stop: usize = if read_range.end <= last {
                        read_range.end
                    } else {
                        last
                    };
                    let seq: u64 = self.slice_readers[i].internal_seq_id();
                    self.slice_readers[i].touch(now);
                    let ghost before = reqs@;
                    let q = Req {
                        slice_reader: seq,
                        read_range: (pos - first)..(stop - first),
                        file_offset: pos,
                    };
                    reqs.push(q);
                    proof {
                        assert(serves(rs0[i as int], reqs@[reqs@.len() - 1]));
                        assert forall|k: int| 0 <= k < reqs.len() implies served_by(
                            rs0,
                            #[trigger] reqs[k],
                        ) by {
                            if k < before.len() {
                                assert(reqs[k] == before[k]);
                                assert(served_by(rs0, before[k]));
                            } else {
                                assert(serves(rs0[i as int], reqs[k]));
                            }
                        }
                        assert forall|k: int| 0 <= k < reqs.len() implies req_len(
                            #[trigger] reqs@[k],
                        ) > 0 by {
                            if k < before.len() {
                                assert(reqs@[k] == before[k]);
                            }
                        }
                        assert forall|k: int| 0 <= k < reqs.len() - 1 implies (
                        #[trigger] reqs@[k]).file_offset + req_len(reqs@[k]) == reqs@[k
                            + 1].file_offset by {
                            if k < before.len() - 1 {
                                assert(reqs@[k] == before[k]);
                                assert(reqs@[k + 1] == before[k + 1]);
                            } else {
                                assert(reqs@[k] == before[k]);
                                assert(before.last() == before[k]);
                            }
                        }
                        if before.len() > 0 {
                            assert(reqs@[0] == before[0]);
                        }
                        assert forall|a: int| 0 <= a < rs0.len() implies (
                        #[trigger] self.readers()[a]) == rs0[a].with_state(
                            rs0[a].state(),
                            self.readers()[a].last_access(),
                        ) by {
                            if a != i {
                                assert(self.readers()[a] == cur[a]);
                            }
                        }
                        assert forall|a: int| 0 <= a < self.readers().len() implies (
                        #[trigger] self.readers()[a]).wf() && self.readers()[a].seq()
                            <= self.last_seq() by {
                            assert(cur[a].wf());
                        }
                        assert forall|a: int, b: int|
                            0 <= a < b < self.readers().len() implies (
                        #[trigger] self.readers()[a]).seq() < (#[trigger] self.readers()[b]).seq() by {
                            assert(cur[a].seq() < cur[b].seq());
                        }
                    }
                    pos = stop;
                },
            }
        }
        proof {
            assert forall|k: int| 0 <= k < reqs.len() implies served_by(
                self.readers(),
                #[trigger] reqs[k],
            ) by {
                assert(served_by(rs0, reqs[k]));
                let j = choose|j: int| 0 <= j < rs0.len() && serves(#[trigger] rs0[j], reqs[k]);
                assert(self.readers()[j] == rs0[j].with_state(
                    rs0[j].state(),
                    self.readers()[j].last_access(),
                ));
                assert(serves(self.readers()[j], reqs[k]));
            }
        }
        reqs
    }
}

/// Position of the first reader of `rs`, from `from` on, that has the
/// sequence number `seq`, or -1 if there is none.
pub open spec fn reader_with_seq(rs: Seq<SliceReader>, seq: u64, from: int) -> int
    decreases rs.len() - from,
{
    if from < 0 || from >= rs.len() {
        -1
    } else if rs[from].seq() == seq {
        from
    } else {
        reader_with_seq(rs, seq, from + 1)
    }
}

/// The bytes that the readers `rs` have for the request `q`: those of the
/// piece of the first reader with the request's sequence number, if that
/// reader is ready and the request lies in its piece.
pub open spec fn answer(rs: Seq<SliceReader>, q: Req) -> Option<Seq<u8>> {
    let i = reader_with_seq(rs, q.slice_reader, 0);
    if i >= 0 && rs[i].state() is Ready && q.read_range.start <= q.read_range.end
        <= rs[i].bytes().len() {
        Some(rs[i].bytes().subrange(q.read_range.start as int, q.read_range.end as int))
    } else {
        None
    }
}

/// The bytes that the readers `rs` have for the requests `reqs`, taken in
/// order up to the first request that they cannot answer.
pub open spec fn answered(rs: Seq<SliceReader>, reqs: Seq<Req>) -> Seq<u8>
    decreases reqs.len(),
{
    if reqs.len() == 0 {
        Seq::<u8>::empty()
    } else {
        match answer(rs, reqs[0]) {
            Some(bytes) => bytes + answered(rs, reqs.skip(1)),
            None => Seq::<u8>::empty(),
        }
    }
}

/// The part of a file of `flen` bytes that a read at `start` makes the
/// reader read ahead: the last `LAST_BLOCK_SIZE` bytes of the file, or the
/// whole file if it is shorter, when the read starts that close to the
/// end; else nothing.
pub open spec fn read_ahead_of(start: usize, flen: usize) -> Option<Range<usize>> {
    if start + LAST_BLOCK_SIZE > flen {
        if flen < LAST_BLOCK_SIZE {
            Some(0..flen)
        } else {
            Some(((flen - LAST_BLOCK_SIZE) as usize)..flen)
        }
    } else {
        None
    }
}

impl FileReader {
    /// Looks for the first slice reader with the sequence number `seq`.
    pub fn find_by_seq(&self, seq: u64) -> (pos: Option<usize>)
        ensures
            pos is Some <==> reader_with_seq(self.readers(), seq, 0) >= 0,
            pos matches Some(i) ==> i == reader_with_seq(self.readers(), seq, 0) && i
                < self.readers().len() && self.readers()[i as int].seq() == seq,
            -1 <= reader_with_seq(self.readers(), seq, 0) < self.readers().len(),
    {
        let mut i: usize = 0;
        proof {
            lemma_reader_with_seq_bounds(self.readers(), seq, 0);
        }
        while i < self.slice_readers.len()
            invariant
                i <= self.slice_readers.len(),
                reader_with_seq(self.readers(), seq, 0) == reader_with_seq(
                    self.readers(),
                    seq,
                    i as int,
                ),
            decreases self.slice_readers.len() - i,
        {
            if self.slice_readers[i].internal_seq_id() == seq {
                return Some(i);
            }
            i = i + 1;
        }
        None
    }

    /// Turns the read of `read_range` of a file of `flen` bytes into
    /// requests to slice readers. What no valid slice reader covers yet is
    /// cut at the block boundaries and gets new slice readers; then the
    /// requests follow each other through the range. The second result
    /// says whether a slice reader could not be made for want of a
    /// sequence number: only then may the requests end before the range.
    ///
    /// The new slice readers stand behind the old ones, in the order of
    /// their pieces, which do not overlap. Each piece is a piece of what
    /// was not covered, within one block, and as large as that allows.
    /// Together they cover all that was not covered, or, where the making
    /// stopped for want of a sequence number, all of it before the end of
    /// the last piece. The bytes set aside grow by the length of the new
    /// pieces.
    pub fn make_requests(&mut self, flen: usize, read_range: Range<usize>, now: usize) -> (out: (
        Vec<Req>,
        bool,
    ))
        requires
            old(self).wf(),
            read_range.start < read_range.end <= flen,
        ensures
            final(self).wf(),
            old(self).same_file(*final(self)),
            final(self).last_seq() >= old(self).last_seq(),
            kept(old(self).readers(), final(self).readers()),
            forall|i: int|
                old(self).readers().len() <= i < final(self).readers().len() ==> {
                    let nr = #[trigger] final(self).readers()[i];
                    &&& nr.state() is New
                    &&& read_range.start <= nr.range().start < nr.range().end <= read_range.end
                    &&& nr.bytes().len() == 0
                    &&& in_one_block(nr, old(self).block_size())
                },
            tiles(out.0@, read_range.start as int),
            read_range.start <= reach_of(out.0@, read_range.start as int) <= read_range.end,
            forall|k: int|
                0 <= k < out.0.len() ==> served_by(final(self).readers(), #[trigger] out.0[k]),
            !out.1 ==> reach_of(out.0@, read_range.start as int) == read_range.end,
            out.1 ==> !span(read_range).subset_of(valid_cover(old(self).readers())),
            made_for(
                old(self).readers(),
                final(self).readers(),
                read_range,
                old(self).block_size(),
                old(self).chunk_size(),
                out.1,
            ),
            final(self).read_buffer_usage() == usage_plus(
                old(self).read_buffer_usage(),
                total_len(final(self).readers().skip(old(self).readers().len() as int)),
            ),
    {
        let ranges = self.valid_ranges();
        let gaps = uncovered(&ranges, &read_range);
        let ghost rs0 = self.readers();
        let ghost n0 = rs0.len() as int;
        let mut starved: bool = false;
        let mut g: usize = 0;
        let ghost open = covered(gaps@);
        let ghost bs = self.block_size();
        let ghost cs = self.chunk_size();
        let ghost usage0 = self.read_buffer_usage();
        let ghost mut lim: int = read_range.start as int;
        proof {
            assert(self.readers().take(n0) =~= rs0);
            assert(self.readers().skip(n0).len() == 0);
            assert forall|x: int| #[trigger]
                valid_cover(self.readers().skip(n0)).contains(x) <==> open.contains(x) && x
                    < lim by {
                if open.contains(x) {
                    assert(span(read_range).contains(x));
                }
            }
            assert(gaps_filled(self.readers().skip(n0), open, bs, cs, lim));
            if gaps.len() > 0 {
                let a = gaps@[0].start as int;
                assert(gaps@[0].start <= a < gaps@[0].end);
                assert(covered(gaps@).contains(a));
                assert(span(read_range).contains(a));
            }
        }
        while g < gaps.len() && !starved
            invariant
                open == covered(gaps@),
                bs == old(self).block_size(),
                cs == old(self).chunk_size(),
                usage0 == old(self).read_buffer_usage(),
                gaps_filled(self.readers().skip(n0), open, bs, cs, lim),
                self.read_buffer_usage() == usage_plus(usage0, total_len(self.readers().skip(n0))),
                total_len(self.readers().skip(n0)) >= 0,
                read_range.start <= lim,
                forall|j: int| 0 <= j < g ==> (#[trigger] gaps[j]).end <= lim,
                g < gaps.len() && !starved ==> lim <= gaps[g as int].start,
                starved ==> g < gaps.len() && lim < gaps[g as int].end,
                self.wf(),
                old(self).same_file(*self),
                self.last_seq() >= old(self).last_seq(),
                rs0 == old(self).readers(),
                n0 == rs0.len(),
                self.readers().len() >= n0,
                self.readers().take(n0) == rs0,
                g <= gaps.len(),
                read_range.start < read_range.end <= flen,
                canonical(gaps@),
                covered(gaps@) == span(read_range).difference(valid_cover(rs0)),
                starved ==> gaps.len() > 0,
                forall|i: int|
                    n0 <= i < self.readers().len() ==> {
                        let nr = #[trigger] self.readers()[i];
                        &&& nr.state() is New
                        &&& read_range.start <= nr.range().start < nr.range().end
                            <= read_range.end
                        &&& nr.bytes().len() == 0
                        &&& in_one_block(nr, old(self).block_size())
                    },
                !starved ==> forall|j: int, x: int|
                    0 <= j < g && (#[trigger] gaps[j]).start <= x < gaps[j].end
                        ==> #[trigger] valid_cover(self.readers()).contains(x),
            decreases gaps.len() - g + if starved {
                0int
            } else {
                1int
            },
        {
            let gap: Range<usize> = gaps[g].start..gaps[g].end;
            let ghost before = self.readers();
            proof {
                let a = gap.start as int;
                let b = gap.end - 1;
                assert(gaps@[g as int].start <= a < gaps@[g as int].end);
                assert(gaps@[g as int].start <= b < gaps@[g as int].end);
                assert(covered(gaps@).contains(a));
                assert(covered(gaps@).contains(b));
                assert(span(read_range).contains(a));
                assert(span(read_range).contains(b));
            }
            let complete = self.fill_gap(flen, gap, now);
            proof {
                let made0 = before.skip(n0);
                let more = self.readers().skip(before.len() as int);
                let made = self.readers().skip(n0);
                let reach = gap_reach(more, gap.start as int);
                assert(self.readers().take(before.len() as int) == before);
                assert(made =~= made0 + more) by {
                    assert forall|k: int| 0 <= k < made0.len() implies made[k] == made0[k] by {
                        assert(self.readers().take(before.len() as int)[n0 + k] == before[n0 + k]);
                    }
                }
                lemma_fill_step(made0, more, gaps@, g as int, bs, cs, lim, now);
                lim = reach;
                assert(self.readers().take(n0) =~= before.take(n0)) by {
                    assert(self.readers().take(before.len() as int) == before);
                    assert forall|i: int| 0 <= i < n0 implies self.readers().take(n0)[i]
                        == before.take(n0)[i] by {
                        assert(self.readers().take(before.len() as int)[i] == before[i]);
                    }
                }
                assert forall|i: int| n0 <= i < self.readers().len() implies {
                    let nr = #[trigger] self.readers()[i];
                    &&& nr.state() is New
                    &&& read_range.start <= nr.range().start < nr.range().end <= read_range.end
                    &&& nr.bytes().len() == 0
                    &&& in_one_block(nr, old(self).block_size())
                } by {
                    if i < before.len() {
                        assert(self.readers().take(before.len() as int)[i] == before[i]);
                    }
                }
                if complete {
                    lemma_extended_cover(before, self.readers());
                    assert forall|j: int, x: int|
                        0 <= j < g + 1 && (#[trigger] gaps[j]).start <= x
                            < gaps[j].end implies #[trigger] valid_cover(self.readers()).contains(
                        x,
                    ) by {
                        if j < g {
                            assert(valid_cover(before).contains(x));
                        }
                    }
                }
            }
            if complete {
                g = g + 1;
            } else {
                starved = true;
            }
        }
        let ghost mid = self.readers();
        let reqs = self.build_reqs(read_range.start..read_range.end, now);
        proof {
            let start = read_range.start as int;
            let reach = reach_of(reqs@, start);
            assert forall|i: int| 0 <= i < rs0.len() implies (#[trigger] self.readers()[i])
                == rs0[i].with_state(rs0[i].state(), self.readers()[i].last_access()) by {
                assert(mid.take(n0)[i] == rs0[i]);
            }
            assert forall|i: int| n0 <= i < self.readers().len() implies {
                let nr = #[trigger] self.readers()[i];
                &&& nr.state() is New
                &&& read_range.start <= nr.range().start < nr.range().end <= read_range.end
                &&& nr.bytes().len() == 0
                &&& in_one_block(nr, old(self).block_size())
            } by {
                assert(self.readers()[i] == mid[i].with_state(
                    mid[i].state(),
                    self.readers()[i].last_access(),
                ));
            }
            if !starved && reach < read_range.end {
                assert(!valid_cover(mid).contains(reach));
                lemma_extended_cover(rs0, mid);
                assert(span(read_range).contains(reach));
                assert(!valid_cover(rs0).contains(reach));
                assert(covered(gaps@).contains(reach));
                let j = choose|j: int|
                    0 <= j < gaps@.len() && #[trigger] gaps@[j].start <= reach < gaps@[j].end;
                assert(gaps[j].start <= reach < gaps[j].end);
                assert(valid_cover(mid).contains(reach));
            }
            if starved {
                let x = gaps@[0].start as int;
                assert(gaps@[0].start <= x < gaps@[0].end);
                assert(covered(gaps@).contains(x));
                assert(span(read_range).contains(x) && !valid_cover(rs0).contains(x));
            }
            let made0 = mid.skip(n0);
            let made = self.readers().skip(n0);
            assert(kept(made0, made)) by {
                assert forall|i: int| 0 <= i < made0.len() implies (#[trigger] made[i])
                    == made0[i].with_state(made0[i].state(), made[i].last_access()) by {
                    assert(self.readers()[n0 + i] == mid[n0 + i].with_state(
                        mid[n0 + i].state(),
                        self.readers()[n0 + i].last_access(),
                    ));
                }
            }
            assert forall|x: int| open.contains(x) implies span(read_range).contains(x) && (!starved
                ==> x < lim) by {
                let j = choose|j: int|
                    0 <= j < gaps@.len() && #[trigger] gaps@[j].start <= x < gaps@[j].end;
                if !starved {
                    assert(gaps[j].end <= lim);
                }
            }
            lemma_filled_kept(made0, made, open, bs, cs, lim, start, starved);
        }
        (reqs, starved)
    }

    /// Plans the read of `dst_len` bytes at `offset`.
    ///
    /// A reader that is closing refuses. A read behind the end of the
    /// file, or of no bytes, asks for nothing. Any other read covers the
    /// file from `offset` to the end of the read or of the file, makes the
    /// reader read ahead when it starts close to the end of the file, and
    /// is served by the requests of `make_requests`.
    pub fn read(&mut self, offset: usize, dst_len: usize, now: usize) -> (res: Result<
        ReadPlan,
        VFSError,
    >)
        requires
            old(self).wf(),
        ensures
            final(self).wf(),
            old(self).same_file(*final(self)),
            kept(old(self).readers(), final(self).readers()),
            res is Err <==> old(self).closing(),
            res is Err ==> res->Err_0 == (VFSError::ThisFileReaderIsClosing {
                ino: old(self).inode(),
                fh: old(self).fh(),
            }) && final(self).readers() == old(self).readers() && final(self).read_buffer_usage()
                == old(self).read_buffer_usage() && final(self).last_seq() == old(self).last_seq(),
            res matches Ok(plan) ==> {
                if offset >= old(self).length() || dst_len == 0 {
                    &&& plan.reqs.len() == 0
                    &&& plan.read_ahead is None
                    &&& !plan.starved
                    &&& plan.block == (offset..offset)
                    &&& final(self).readers() == old(self).readers()
                    &&& final(self).read_buffer_usage() == old(self).read_buffer_usage()
                    &&& final(self).last_seq() == old(self).last_seq()
                } else {
                    &&& made_for(
                        old(self).readers(),
                        final(self).readers(),
                        plan.block,
                        old(self).block_size(),
                        old(self).chunk_size(),
                        plan.starved,
                    )
                    &&& final(self).read_buffer_usage() == usage_plus(
                        old(self).read_buffer_usage(),
                        total_len(final(self).readers().skip(old(self).readers().len() as int)),
                    )
                    &&& plan.block.start == offset
                    &&& plan.block.end == if offset + dst_len > old(self).length() {
                        old(self).length() as int
                    } else {
                        offset + dst_len
                    }
                    &&& plan.read_ahead == read_ahead_of(offset, old(self).length())
                    &&& tiles(plan.reqs@, offset as int)
                    &&& offset <= reach_of(plan.reqs@, offset as int) <= plan.block.end
                    &&& forall|k: int|
                        0 <= k < plan.reqs.len() ==> served_by(
                            final(self).readers(),
                            #[trigger] plan.reqs[k],
                        )
                    &&& !plan.starved ==> reach_of(plan.reqs@, offset as int) == plan.block.end
                    &&& plan.starved ==> !span(plan.block).subset_of(
                        valid_cover(old(self).readers()),
                    )
                }
            },
    {
        proof {
            assert forall|i: int| 0 <= i < self.readers().len() implies (
            #[trigger] self.readers()[i]) == self.readers()[i].with_state(
                self.readers()[i].state(),
                self.readers()[i].last_access(),
            ) by {}
        }
        if self.closing {
            return Err(VFSError::ThisFileReaderIsClosing { ino: self.inode, fh: self.fh });
        }
        let flen: usize = self.length;
        if offset >= flen || dst_len == 0 {
            return Ok(
                ReadPlan { block: offset..offset, read_ahead: None, reqs: Vec::new(), starved: false },
            );
        }
        let block = make_range(offset, dst_len, flen);
        let read_ahead: Option<Range<usize>> = if LAST_BLOCK_SIZE > flen || block.start > flen
            - LAST_BLOCK_SIZE {
            if flen < LAST_BLOCK_SIZE {
                Some(0..flen)
            } else {
                Some((flen - LAST_BLOCK_SIZE)..flen)
            }
        } else {
            None
        };
        let (reqs, starved) = self.make_requests(flen, block.start..block.end, now);
        Ok(ReadPlan { block, read_ahead, reqs, starved })
    }

    /// Copies the bytes that the requests `reqs` ask for to the end of
    /// `dst`, request after request, up to the first request that cannot be
    /// answered yet. Returns the number of bytes copied.
    pub fn do_read(&self, reqs: &Vec<Req>, dst: &mut Vec<u8>) -> (n: usize)
        ensures
            final(dst)@ == old(dst)@ + answered(self.readers(), reqs@),
            n == answered(self.readers(), reqs@).len(),
    {
        let first: usize = dst.len();
        let mut k: usize = 0;
        let mut open: bool = true;
        proof {
            assert(reqs@.skip(0) =~= reqs@);
            assert(old(dst)@ + Seq::<u8>::empty() =~= old(dst)@);
        }
        let ghost mut acc: Seq<u8> = Seq::empty();
        while k < reqs.len() && open
            invariant
                k <= reqs.len(),
                dst@ == old(dst)@ + acc,
                first == old(dst)@.len(),
                open ==> answered(self.readers(), reqs@) == acc + answered(
                    self.readers(),
                    reqs@.skip(k as int),
                ),
                !open ==> answered(self.readers(), reqs@) == acc,
            decreases reqs.len() - k + if open {
                1int
            } else {
                0int
            },
        {
            let ghost rest = reqs@.skip(k as int);
            proof {
                assert(rest[0] == reqs@[k as int]);
                assert(rest.skip(1) =~= reqs@.skip(k + 1));
            }
            let copied: bool = match self.find_by_seq(reqs[k].slice_reader) {
                Some(i) => self.slice_readers[i].copy_out(
                    reqs[k].read_range.start,
                    reqs[k].read_range.end,
                    dst,
                ),
                None => false,
            };
            if copied {
                proof {
                    let b = answer(self.readers(), reqs@[k as int])->Some_0;
                    assert(acc + (b + answered(self.readers(), rest.skip(1))) =~= (acc + b)
                        + answered(self.readers(), rest.skip(1)));
                    assert(dst@ =~= old(dst)@ + (acc + b));
                    acc = acc + b;
                }
                k = k + 1;
            } else {
                proof {
                    assert(answer(self.readers(), reqs@[k as int]) is None);
                    assert(acc + Seq::<u8>::empty() =~= acc);
                }
                open = false;
            }
        }
        proof {
            if open {
                assert(reqs@.skip(k as int).len() == 0);
                assert(acc + Seq::<u8>::empty() =~= acc);
            }
        }
        dst.len() - first
    }

    /// Marks the reader as closing: it refuses reads from now on.
    pub fn close(&mut self)
        ensures
            final(self).closing(),
            final(self).inode() == old(self).inode(),
            final(self).fh() == old(self).fh(),
            final(self).block_size() == old(self).block_size(),
            final(self).chunk_size() == old(self).chunk_size(),
            final(self).length() == old(self).length(),
            final(self).readers() == old(self).readers(),
            final(self).read_count() == old(self).read_count(),
            final(self).read_buffer_usage() == old(self).read_buffer_usage(),
            final(self).last_seq() == old(self).last_seq(),
    {
        self.closing = true;
    }

    /// Starts the fetch of the slice reader `seq`, if that reader is new
    /// and this file reader is not closing, and says which part of the
    /// file to fetch. Without a fetch, the background task of the slice
    /// reader has nothing left but to clean up.
    pub fn begin_fetch(&mut self, seq: u64) -> (job: Option<Range<usize>>)
        requires
            old(self).wf(),
        ensures
            final(self).wf(),
            old(self).same_file(*final(self)),
            final(self).last_seq() == old(self).last_seq(),
            final(self).read_buffer_usage() == old(self).read_buffer_usage(),
            ({
                let i = reader_with_seq(old(self).readers(), seq, 0);
                let fetch = i >= 0 && old(self).readers()[i].state() is New && !old(self).closing();
                &&& job is Some <==> fetch
                &&& !fetch ==> final(self).readers() == old(self).readers()
                &&& fetch ==> job == Some(old(self).readers()[i].range()) && final(self).readers()
                    == old(self).readers().update(
                    i,
                    old(self).readers()[i].with_state(
                        SliceReaderState::Busy,
                        old(self).readers()[i].last_access(),
                    ),
                )
            }),
    {
        let ghost rs0 = self.readers();
        match self.find_by_seq(seq) {
            None => None,
            Some(i) => {
                let closing: bool = self.closing;
                let fetch = self.slice_readers[i].begin_fetch(closing);
                proof {
                    assert(rs0[i as int].wf());
                    assert(self.readers() =~= rs0.update(i as int, self.readers()[i as int]));
                    lemma_update_ok(rs0, i as int, self.readers()[i as int], self.last_seq());
                }
                if fetch {
                    Some(self.slice_readers[i].start()..self.slice_readers[i].end())
                } else {
                    proof {
                        assert(self.readers() =~= rs0);
                    }
                    None
                }
            },
        }
    }

    /// Hands the fetched bytes `data` to the slice reader `seq`. They
    /// count only if that reader's fetch was under way and `data` holds
    /// one byte for each offset of its piece: then the reader is ready.
    pub fn complete_fetch(&mut self, seq: u64, data: Vec<u8>) -> (counted: bool)
        requires
            old(self).wf(),
        ensures
            final(self).wf(),
            old(self).same_file(*final(self)),
            final(self).last_seq() == old(self).last_seq(),
            final(self).read_buffer_usage() == old(self).read_buffer_usage(),
            final(self).readers().len() == old(self).readers().len(),
            ({
                let i = reader_with_seq(old(self).readers(), seq, 0);
                let r = old(self).readers()[i];
                &&& counted == (i >= 0 && r.state() is Busy && data@.len() == r.range().end
                    - r.range().start)
                &&& !counted ==> final(self).readers() == old(self).readers()
                &&& counted ==> {
                    let f = final(self).readers()[i];
                    &&& final(self).readers() == old(self).readers().update(i, f)
                    &&& f.state() is Ready
                    &&& f.bytes() == data@
                    &&& f.seq() == r.seq()
                    &&& f.range() == r.range()
                    &&& f.chunk_idx() == r.chunk_idx()
                    &&& f.last_access() == r.last_access()
                }
            }),
    {
        let ghost rs0 = self.readers();
        match self.find_by_seq(seq) {
            None => false,
            Some(i) => {
                proof {
                    assert(rs0[i as int].wf());
                }
                let counted = self.slice_readers[i].complete_fetch(data);
                proof {
                    assert(self.readers() =~= rs0.update(i as int, self.readers()[i as int]));
                    lemma_update_ok(rs0, i as int, self.readers()[i as int], self.last_seq());
                    if !counted {
                        assert(self.readers() =~= rs0);
                    }
                }
                counted
            },
        }
    }

    /// Removes the slice reader `seq` and gives up the bytes set aside for
    /// its piece. Says whether there was such a reader.
    pub fn delete_slice_reader(&mut self, seq: u64) -> (deleted: bool)
        requires
            old(self).wf(),
        ensures
            final(self).wf(),
            old(self).same_file(*final(self)),
            final(self).last_seq() == old(self).last_seq(),
            ({
                let i = reader_with_seq(old(self).readers(), seq, 0);
                let r = old(self).readers()[i];
                &&& deleted == (i >= 0)
                &&& !deleted ==> final(self).readers() == old(self).readers()
                    && final(self).read_buffer_usage() == old(self).read_buffer_usage()
                &&& deleted ==> final(self).readers() == old(self).readers().remove(i)
                    && final(self).read_buffer_usage() == if old(self).read_buffer_usage() >= r.range().end
                    - r.range().start {
                    (old(self).read_buffer_usage() - (r.range().end - r.range().start)) as usize
                } else {
                    0usize
                }
            }),
    {
        let ghost rs0 = self.readers();
        match self.find_by_seq(seq) {
            None => false,
            Some(i) => {
                proof {
                    assert(rs0[i as int].wf());
                }
                let r = self.slice_readers.remove(i);
                let len: usize = r.end() - r.start();
                self.read_buffer_usage = if self.read_buffer_usage >= len {
                    self.read_buffer_usage - len
                } else {
                    0
                };
                proof {
                    let rs1 = self.readers();
                    assert(rs1 =~= rs0.remove(i as int));
                    assert forall|a: int| 0 <= a < rs1.len() implies (#[trigger] rs1[a]).wf()
                        && rs1[a].seq() <= self.last_seq() by {
                        if a < i {
                            assert(rs1[a] == rs0[a]);
                            assert(rs0[a].wf());
                        } else {
                            assert(rs1[a] == rs0[a + 1]);
                            assert(rs0[a + 1].wf());
                        }
                    }
                    assert forall|a: int, b: int| 0 <= a < b < rs1.len() implies (
                    #[trigger] rs1[a]).seq() < (#[trigger] rs1[b]).seq() by {
                        let a0 = if a < i {
                            a
                        } else {
                            a + 1
                        };
                        let b0 = if b < i {
                            b
                        } else {
                            b + 1
                        };
                        assert(rs1[a] == rs0[a0] && rs1[b] == rs0[b0]);
                        assert(rs0[a0].seq() < rs0[b0].seq());
                    }
                }
                true
            },
        }
    }

    /// Ends the background task of the slice reader `seq`: the reader
    /// moves to the state in which the task leaves it, and is removed if
    /// that state is `Invalid`. Says what is to be done next.
    pub fn cleanup_slice_reader(&mut self, seq: u64) -> (action: CleanupAction)
        requires
            old(self).wf(),
        ensures
            final(self).wf(),
            old(self).same_file(*final(self)),
            final(self).last_seq() == old(self).last_seq(),
            ({
                let i = reader_with_seq(old(self).readers(), seq, 0);
                let r = old(self).readers()[i];
                let next = crate::slice_reader::cleaned(r.state(), old(self).closing());
                &&& i < 0 ==> action == CleanupAction::Nothing
                    && final(self).readers() == old(self).readers()
                &&& i >= 0 ==> action == crate::slice_reader::action_for(next)
                &&& i >= 0 && !(next is Invalid)
                    ==> final(self).readers() == old(self).readers().update(i, r.with_state(next, r.last_access()))
                &&& i >= 0 && next is Invalid ==> final(self).readers() == old(self).readers().remove(i)
            }),
    {
        let ghost rs0 = self.readers();
        match self.find_by_seq(seq) {
            None => CleanupAction::Nothing,
            Some(i) => {
                proof {
                    assert(rs0[i as int].wf());
                }
                let closing: bool = self.closing;
                let action = self.slice_readers[i].cleanup(closing);
                proof {
                    let f = self.readers()[i as int];
                    assert(self.readers() =~= rs0.update(i as int, f));
                    lemma_update_ok(rs0, i as int, f, self.last_seq());
                }
                if matches!(action, CleanupAction::Delete) {
                    let ghost rs1 = self.readers();
                    proof {
                        lemma_first_after_update(rs0, i as int, rs1[i as int], seq);
                    }
                    self.delete_slice_reader(seq);
                    proof {
                        assert(rs1.remove(i as int) =~= rs0.remove(i as int));
                    }
                }
                action
            },
        }
    }
}

/// Where the search for a sequence number ends: at a reader that has it,
/// at or behind the place where the search began, or nowhere.
pub proof fn lemma_reader_with_seq_bounds(rs: Seq<SliceReader>, seq: u64, from: int)
    requires
        0 <= from,
    ensures
        reader_with_seq(rs, seq, from) == -1 || (from <= reader_with_seq(rs, seq, from) < rs.len()
            && rs[reader_with_seq(rs, seq, from)].seq() == seq),
    decreases rs.len() - from,
{
    if from < rs.len() && rs[from].seq() != seq {
        lemma_reader_with_seq_bounds(rs, seq, from + 1);
    }
}

/// Replacing a reader by one with the same sequence number leaves the
/// readers in order.
proof fn lemma_update_ok(rs: Seq<SliceReader>, i: int, f: SliceReader, last_seq: u64)
    requires
        readers_ok(rs, last_seq),
        0 <= i < rs.len(),
        f.wf(),
        f.seq() == rs[i].seq(),
    ensures
        readers_ok(rs.update(i, f), last_seq),
{
    let out = rs.update(i, f);
    assert forall|a: int| 0 <= a < out.len() implies (#[trigger] out[a]).wf() && out[a].seq()
        <= last_seq by {
        assert(rs[a].wf());
    }
    assert forall|a: int, b: int| 0 <= a < b < out.len() implies (#[trigger] out[a]).seq() < (
    #[trigger] out[b]).seq() by {
        assert(rs[a].seq() < rs[b].seq());
    }
}

/// Replacing a reader by one with the same sequence number leaves the
/// first reader of each sequence number where it is.
proof fn lemma_first_after_update(rs: Seq<SliceReader>, i: int, f: SliceReader, seq: u64)
    requires
        0 <= i < rs.len(),
        f.seq() == rs[i].seq(),
    ensures
        forall|from: int|
            0 <= from <= rs.len() ==> #[trigger] reader_with_seq(rs.update(i, f), seq, from)
                == reader_with_seq(rs, seq, from),
{
    assert forall|from: int| 0 <= from <= rs.len() implies #[trigger] reader_with_seq(
        rs.update(i, f),
        seq,
        from,
    ) == reader_with_seq(rs, seq, from) by {
        lemma_first_after_update_from(rs, i, f, seq, from);
    }
}

proof fn lemma_first_after_update_from(
    rs: Seq<SliceReader>,
    i: int,
    f: SliceReader,
    seq: u64,
    from: int,
)
    requires
        0 <= i < rs.len(),
        f.seq() == rs[i].seq(),
        0 <= from <= rs.len(),
    ensures
        reader_with_seq(rs.update(i, f), seq, from) == reader_with_seq(rs, seq, from),
    decreases rs.len() - from,
{
    if from < rs.len() {
        lemma_first_after_update_from(rs, i, f, seq, from + 1);
    }
}

/// Readers that are added leave what was covered covered.
pub proof fn lemma_extended_cover(before: Seq<SliceReader>, after: Seq<SliceReader>)
    requires
        before.len() <= after.len(),
        after.take(before.len() as int) == before,
    ensures
        forall|x: int| valid_cover(before).contains(x) ==> valid_cover(after).contains(x),
{
    assert forall|x: int| valid_cover(before).contains(x) implies valid_cover(after).contains(
        x,
    ) by {
        let i = choose|i: int|
            0 <= i < before.len() && (#[trigger] before[i]).is_valid() && before[i].range().start
                <= x < before[i].range().end;
        assert(after.take(before.len() as int)[i] == after[i]);
        assert(after[i].is_valid() && after[i].range().start <= x < after[i].range().end);
    }
}

/// Readers that are kept cover what they covered.
pub proof fn lemma_kept_cover(before: Seq<SliceReader>, after: Seq<SliceReader>)
    requires
        kept(before, after),
    ensures
        before.len() == after.len() ==> valid_cover(before) == valid_cover(after),
        forall|x: int| valid_cover(before).contains(x) ==> valid_cover(after).contains(x),
{
    assert forall|x: int| valid_cover(before).contains(x) implies valid_cover(after).contains(
        x,
    ) by {
        let i = choose|i: int|
            0 <= i < before.len() && (#[trigger] before[i]).is_valid() && before[i].range().start
                <= x < before[i].range().end;
        assert(after[i] == before[i].with_state(before[i].state(), after[i].last_access()));
        assert(after[i].is_valid() && after[i].range().start <= x < after[i].range().end);
    }
    if before.len() == after.len() {
        assert forall|x: int| valid_cover(after).contains(x) implies valid_cover(before).contains(
            x,
        ) by {
            let i = choose|i: int|
                0 <= i < after.len() && (#[trigger] after[i]).is_valid() && after[i].range().start
                    <= x < after[i].range().end;
            assert(after[i] == before[i].with_state(before[i].state(), after[i].last_access()));
            assert(before[i].is_valid() && before[i].range().start <= x < before[i].range().end);
        }
        assert(valid_cover(before) =~= valid_cover(after));
    }
}

/// Pieces hold no negative number of bytes.
pub proof fn lemma_total_len_pos(rs: Seq<SliceReader>)
    requires
        forall|k: int| 0 <= k < rs.len() ==> (#[trigger] rs[k]).range().start <= rs[k].range().end,
    ensures
        total_len(rs) >= 0,
    decreases rs.len(),
{
    if rs.len() > 0 {
        assert(rs[rs.len() - 1] == rs.last());
        assert forall|k: int| 0 <= k < rs.drop_last().len() implies (#[trigger] rs.drop_last()[k]).range().start
            <= rs.drop_last()[k].range().end by {
            assert(rs[k] == rs.drop_last()[k]);
        }
        lemma_total_len_pos(rs.drop_last());
    }
}

/// Pieces that follow each other without overlap rise: a later one ends
/// no earlier than an earlier one.
pub proof fn lemma_pieces_rise(rs: Seq<SliceReader>, i: int, j: int)
    requires
        0 <= i <= j < rs.len(),
        forall|k: int| 0 <= k < rs.len() ==> (#[trigger] rs[k]).range().start <= rs[k].range().end,
        forall|k: int|
            0 <= k < rs.len() - 1 ==> (#[trigger] rs[k]).range().end <= rs[k + 1].range().start,
    ensures
        rs[i].range().end <= rs[j].range().end,
    decreases j - i,
{
    if i < j {
        lemma_pieces_rise(rs, i + 1, j);
        assert(rs[i].range().end <= rs[i + 1].range().start);
    }
}

/// The readers of two lists cover what each list covers.
pub proof fn lemma_cover_concat(a: Seq<SliceReader>, b: Seq<SliceReader>)
    ensures
        valid_cover(a + b) == valid_cover(a).union(valid_cover(b)),
        total_len(a + b) == total_len(a) + total_len(b),
    decreases b.len(),
{
    let ab = a + b;
    assert forall|x: int| valid_cover(ab).contains(x) <==> valid_cover(a).contains(x)
        || valid_cover(b).contains(x) by {
        if valid_cover(ab).contains(x) {
            let i = choose|i: int|
                0 <= i < ab.len() && (#[trigger] ab[i]).is_valid() && ab[i].range().start <= x
                    < ab[i].range().end;
            if i < a.len() {
                assert(a[i].is_valid() && a[i].range().start <= x < a[i].range().end);
            } else {
                let j = i - a.len();
                assert(b[j].is_valid() && b[j].range().start <= x < b[j].range().end);
            }
        }
        if valid_cover(a).contains(x) {
            let i = choose|i: int|
                0 <= i < a.len() && (#[trigger] a[i]).is_valid() && a[i].range().start <= x
                    < a[i].range().end;
            assert(ab[i].is_valid() && ab[i].range().start <= x < ab[i].range().end);
        }
        if valid_cover(b).contains(x) {
            let j = choose|j: int|
                0 <= j < b.len() && (#[trigger] b[j]).is_valid() && b[j].range().start <= x
                    < b[j].range().end;
            let i = a.len() + j;
            assert(ab[i].is_valid() && ab[i].range().start <= x < ab[i].range().end);
        }
    }
    assert(valid_cover(ab) =~= valid_cover(a).union(valid_cover(b)));
    if b.len() == 0 {
        assert(ab =~= a);
    } else {
        lemma_cover_concat(a, b.drop_last());
        assert(ab.drop_last() =~= a + b.drop_last());
        assert(ab.last() == b.last());
    }
}

/// Readers with the same pieces hold as many bytes.
pub proof fn lemma_total_len_of_pieces(a: Seq<SliceReader>, b: Seq<SliceReader>)
    requires
        a.len() == b.len(),
        forall|k: int| 0 <= k < a.len() ==> (#[trigger] a[k]).range() == b[k].range(),
    ensures
        total_len(a) == total_len(b),
    decreases a.len(),
{
    if a.len() > 0 {
        assert(a.last().range() == b[b.len() - 1].range());
        assert forall|k: int| 0 <= k < a.drop_last().len() implies (#[trigger] a.drop_last()[k]).range()
            == b.drop_last()[k].range() by {
            assert(a[k].range() == b[k].range());
        }
        lemma_total_len_of_pieces(a.drop_last(), b.drop_last());
    }
}

/// The first piece of a gap ends behind its start, at a block boundary or
/// with the gap.
pub proof fn lemma_block_cut(block_size: usize, start: int, end: int)
    requires
        block_size > 0,
        0 <= start < end,
    ensures
        start < block_cut(block_size, start, end) <= end,
        block_cut(block_size, start, end) <= (start / (block_size as int) + 1) * block_size,
        block_cut(block_size, start, end) == end || block_cut(block_size, start, end) % (
        block_size as int) == 0,
{
    let bs = block_size as int;
    let q = start / bs;
    vstd::arithmetic::div_mod::lemma_fundamental_div_mod(start, bs);
    assert((q + 1) * bs == bs * q + bs) by (nonlinear_arith);
    vstd::arithmetic::div_mod::lemma_mod_multiples_basic(q + 1, bs);
}

/// What the pieces of a gap are together: they lie in the gap, each within
/// one block, each starting where the gap starts or at a block boundary and
/// ending where the gap ends or at a block boundary; and they cover the gap
/// from its start up to the end of the last of them.
pub proof fn lemma_pieces_of_gap(
    made: Seq<SliceReader>,
    block_size: usize,
    chunk_size: usize,
    start: int,
    end: int,
    now: usize,
)
    requires
        block_size > 0,
        0 <= start < end,
        pieces_of_gap(made, block_size, chunk_size, start, end, now),
    ensures
        start <= gap_reach(made, start) <= end,
        forall|k: int|
            0 <= k < made.len() ==> {
                let nr = #[trigger] made[k];
                &&& start <= nr.range().start < nr.range().end <= end
                &&& nr.range().end <= gap_reach(made, start)
                &&& in_one_block(nr, block_size)
                &&& nr.range().start == start || nr.range().start as int % block_size as int == 0
                &&& nr.range().end == end || nr.range().end as int % block_size as int == 0
            },
        forall|x: int| #[trigger] valid_cover(made).contains(x) <==> start <= x < gap_reach(made, start),
        total_len(made) == gap_reach(made, start) - start,
    decreases made.len(),
{
    if made.len() == 0 {
        assert forall|x: int| #[trigger] valid_cover(made).contains(x) <==> start <= x < gap_reach(
            made,
            start,
        ) by {}
    } else {
        let head = made.drop_last();
        let last = made.last();
        assert(made[made.len() - 1] == last);
        assert(pieces_of_gap(head, block_size, chunk_size, start, end, now)) by {
            assert forall|k: int| 0 <= k < head.len() implies {
                let nr = #[trigger] head[k];
                &&& nr.state() is New
                &&& nr.bytes().len() == 0
                &&& nr.last_access() == now
                &&& nr.chunk_idx() == nr.range().start / chunk_size
                &&& nr.range().start < end
                &&& nr.range().end == block_cut(block_size, nr.range().start as int, end)
            } by {
                assert(head[k] == made[k]);
            }
            assert forall|k: int| 0 <= k < head.len() - 1 implies (#[trigger] head[k]).range().end
                == head[k + 1].range().start by {
                assert(head[k] == made[k] && head[k + 1] == made[k + 1]);
            }
            if head.len() > 0 {
                assert(head[0] == made[0]);
            }
        }
        lemma_pieces_of_gap(head, block_size, chunk_size, start, end, now);
        let from = gap_reach(head, start);
        assert(last.range().start == from) by {
            if head.len() > 0 {
                assert(head.last() == made[made.len() - 2]);
                assert(made[made.len() - 2].range().end == made[made.len() - 2 + 1].range().start);
            }
        }
        lemma_block_cut(block_size, last.range().start as int, end);
        assert(from == start || from % (block_size as int) == 0) by {
            if head.len() > 0 {
                assert(head[head.len() - 1] == head.last());
                assert(head.last().range().end != end);
            }
        }
        assert forall|k: int| 0 <= k < made.len() implies {
            let nr = #[trigger] made[k];
            &&& start <= nr.range().start < nr.range().end <= end
            &&& nr.range().end <= gap_reach(made, start)
            &&& in_one_block(nr, block_size)
            &&& nr.range().start == start || nr.range().start as int % block_size as int == 0
            &&& nr.range().end == end || nr.range().end as int % block_size as int == 0
        } by {
            if k < head.len() {
                assert(made[k] == head[k]);
            }
        }
        assert(made =~= head + seq![last]);
        lemma_cover_concat(head, seq![last]);
        let one = seq![last];
        assert(one.drop_last().len() == 0);
        assert(total_len(one) == last.range().end - last.range().start) by {
            assert(total_len(one.drop_last()) == 0);
            assert(one.last() == last);
        }
        assert forall|x: int| #[trigger] valid_cover(made).contains(x) <==> start <= x < gap_reach(
            made,
            start,
        ) by {
            if valid_cover(one).contains(x) {
                let i = choose|i: int|
                    0 <= i < one.len() && (#[trigger] one[i]).is_valid() && one[i].range().start
                        <= x < one[i].range().end;
                assert(one[i] == last);
            }
            if last.range().start <= x < last.range().end {
                assert(one[0].is_valid() && one[0].range().start <= x < one[0].range().end);
            }
        }
    }
}

/// Filling the next gap keeps the readers the pieces of what was open.
pub proof fn lemma_fill_step(
    made0: Seq<SliceReader>,
    more: Seq<SliceReader>,
    gaps: Seq<Range<usize>>,
    g: int,
    block_size: usize,
    chunk_size: usize,
    lim: int,
    now: usize,
)
    requires
        block_size > 0,
        canonical(gaps),
        0 <= g < gaps.len(),
        gaps_filled(made0, covered(gaps), block_size, chunk_size, lim),
        forall|j: int| 0 <= j < g ==> (#[trigger] gaps[j]).end <= lim,
        lim <= gaps[g].start,
        pieces_of_gap(more, block_size, chunk_size, gaps[g].start as int, gaps[g].end as int, now),
    ensures
        gaps_filled(
            made0 + more,
            covered(gaps),
            block_size,
            chunk_size,
            gap_reach(more, gaps[g].start as int),
        ),
        total_len(made0 + more) == total_len(made0) + gap_reach(more, gaps[g].start as int)
            - gaps[g].start,
        total_len(made0) >= 0,
        gaps[g].start <= gap_reach(more, gaps[g].start as int) <= gaps[g].end,
        gap_reach(more, gaps[g].start as int) == gaps[g].end ==> {
            &&& forall|j: int| 0 <= j < g + 1 ==> (#[trigger] gaps[j]).end <= gaps[g].end
            &&& g + 1 < gaps.len() ==> gaps[g].end <= gaps[g + 1].start
        },
{
    let open = covered(gaps);
    let made = made0 + more;
    let start = gaps[g].start as int;
    let end = gaps[g].end as int;
    let reach = gap_reach(more, start);
    lemma_pieces_of_gap(more, block_size, chunk_size, start, end, now);
    lemma_cover_concat(made0, more);
    lemma_gap_edges(gaps, g);
    assert forall|k: int| 0 <= k < made.len() implies is_open_piece(
        #[trigger] made[k],
        open,
        block_size,
        chunk_size,
    ) by {
        if k < made0.len() {
            assert(made[k] == made0[k]);
        } else {
            let nr = more[k - made0.len()];
            assert(made[k] == nr);
            assert forall|x: int| nr.range().start <= x < nr.range().end implies #[trigger] open.contains(
                x,
            ) by {
                assert(gaps[g].start <= x < gaps[g].end);
            }
        }
    }
    assert forall|k: int| 0 <= k < made.len() - 1 implies (#[trigger] made[k]).range().end <= made[k
        + 1].range().start by {
        if k + 1 < made0.len() {
            assert(made[k] == made0[k] && made[k + 1] == made0[k + 1]);
        } else if k + 1 == made0.len() {
            assert(made[k] == made0.last());
            assert(made[k + 1] == more[0]);
        } else {
            assert(made[k] == more[k - made0.len()]);
            assert(made[k + 1] == more[k - made0.len() + 1]);
        }
    }
    assert forall|x: int| #[trigger] valid_cover(made).contains(x) <==> open.contains(x) && x
        < reach by {
        if open.contains(x) && x < reach && !(start <= x) {
            let j = choose|j: int| 0 <= j < gaps.len() && #[trigger] gaps[j].start <= x < gaps[j].end;
            if j < g {
                assert(gaps[j].end <= lim);
            } else if j > g {
                assert(gaps[g].end < gaps[j].start);
            }
            assert(valid_cover(made0).contains(x));
        }
        if valid_cover(made0).contains(x) {
            assert(open.contains(x) && x < lim);
        }
        if start <= x < reach {
            assert(gaps[g].start <= x < gaps[g].end);
            assert(valid_cover(more).contains(x));
        }
    }
    if made.len() > 0 {
        if more.len() > 0 {
            assert(made.last() == more.last());
            assert(more[more.len() - 1] == more.last());
        } else {
            assert(made =~= made0);
        }
    }
    lemma_total_len_pos(made0);
    if reach == end {
        if g + 1 < gaps.len() {
            assert(gaps[g].end < gaps[g + 1].start);
        }
        assert forall|j: int| 0 <= j < g + 1 implies (#[trigger] gaps[j]).end <= gaps[g].end by {
            if j < g {
                assert(gaps[j].end < gaps[g].start);
            }
        }
    }
}

/// Readers that are kept stay the pieces of what was open; and what they
/// cover before `lim` is what they cover before the end of the last of
/// them.
pub proof fn lemma_filled_kept(
    made0: Seq<SliceReader>,
    made: Seq<SliceReader>,
    open: Set<int>,
    block_size: usize,
    chunk_size: usize,
    lim: int,
    start: int,
    starved: bool,
)
    requires
        kept(made0, made),
        made0.len() == made.len(),
        gaps_filled(made0, open, block_size, chunk_size, lim),
        forall|x: int| open.contains(x) ==> start <= x && (!starved ==> x < lim),
    ensures
        forall|k: int|
            0 <= k < made.len() ==> is_open_piece(#[trigger] made[k], open, block_size, chunk_size),
        forall|k: int|
            0 <= k < made.len() - 1 ==> (#[trigger] made[k]).range().end <= made[k + 1].range().start,
        forall|x: int| #[trigger]
            valid_cover(made).contains(x) <==> open.contains(x) && (starved ==> x < gap_reach(
                made,
                start,
            )),
        total_len(made) == total_len(made0),
{
    lemma_kept_cover(made0, made);
    assert forall|k: int| 0 <= k < made.len() implies (#[trigger] made0[k]).range()
        == made[k].range() by {
        assert(made[k] == made0[k].with_state(made0[k].state(), made[k].last_access()));
    }
    lemma_total_len_of_pieces(made0, made);
    let stop = gap_reach(made, start);
    assert forall|k: int| 0 <= k < made.len() implies is_open_piece(
        #[trigger] made[k],
        open,
        block_size,
        chunk_size,
    ) by {
        assert(made[k] == made0[k].with_state(made0[k].state(), made[k].last_access()));
        assert(is_open_piece(made0[k], open, block_size, chunk_size));
    }
    assert forall|k: int| 0 <= k < made.len() - 1 implies (#[trigger] made[k]).range().end <= made[k
        + 1].range().start by {
        assert(made0[k].range().end <= made0[k + 1].range().start);
        assert(made0[k + 1].range() == made[k + 1].range());
    }
    if made.len() > 0 {
        assert(made0.last() == made0[made0.len() - 1]);
        assert(made.last() == made[made.len() - 1]);
    }
    assert forall|x: int| #[trigger]
        valid_cover(made).contains(x) <==> open.contains(x) && (starved ==> x < stop) by {
        if valid_cover(made).contains(x) {
            let i = choose|i: int|
                0 <= i < made.len() && (#[trigger] made[i]).is_valid() && made[i].range().start <= x
                    < made[i].range().end;
            assert forall|k: int| 0 <= k < made0.len() implies (#[trigger] made0[k]).range().start
                <= made0[k].range().end by {
                assert(is_open_piece(made0[k], open, block_size, chunk_size));
            }
            lemma_pieces_rise(made0, i, made0.len() - 1);
            assert(made0[i].range() == made[i].range());
        }
    }
}

/// Of the pieces of a set of offsets, none holds the offset right before
/// the start of one of them, nor the offset at the end of one.
pub proof fn lemma_gap_edges(gaps: Seq<Range<usize>>, g: int)
    requires
        canonical(gaps),
        0 <= g < gaps.len(),
    ensures
        !covered(gaps).contains(gaps[g].start - 1),
        !covered(gaps).contains(gaps[g].end as int),
        forall|x: int| gaps[g].start <= x < gaps[g].end ==> #[trigger] covered(gaps).contains(x),
{
    if covered(gaps).contains(gaps[g].start - 1) {
        let j = choose|j: int|
            0 <= j < gaps.len() && #[trigger] gaps[j].start <= gaps[g].start - 1 < gaps[j].end;
        if j < g {
            assert(gaps[j].end < gaps[g].start);
        } else if j > g {
            assert(gaps[g].end < gaps[j].start);
        }
    }
    if covered(gaps).contains(gaps[g].end as int) {
        let j = choose|j: int|
            0 <= j < gaps.len() && #[trigger] gaps[j].start <= gaps[g].end < gaps[j].end;
        if j < g {
            assert(gaps[j].end < gaps[g].start);
        } else if j > g {
            assert(gaps[g].end < gaps[j].start);
        }
    }
    assert forall|x: int| gaps[g].start <= x < gaps[g].end implies #[trigger] covered(
        gaps,
    ).contains(x) by {
        assert(gaps[g].start <= x < gaps[g].end);
    }
}

} // verus!
