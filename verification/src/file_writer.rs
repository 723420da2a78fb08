//! The writer of one file: it owns the slice writers of each chunk, picks
//! the slice writer for every piece of a write, and says which flushes the
//! background flusher should run.
use vstd::prelude::*;
use sonyflake::Sonyflake;
use crate::chunk_table::{
    chunk_table,
    table_count,
    table_is_empty,
    table_keys,
    table_new,
    table_put,
    table_take,
    ChunkTable,
    ChunkWriters,
};
use crate::common::{BLOCK_SIZE, CHUNK_SIZE};
use crate::err::StorageError;
use crate::locate::{locate_chunk, piece, piece_count, ChunkWriteCtx};
use crate::pattern::{pattern_step, WriterPattern};
use crate::pool::DiskPagePool;
use crate::seq_gen::next_seq;
use crate::slice_buffer::{BlockUpload, PageCopy, Written};
use crate::slice_writer::{group_slice_writer, FlushReq, SliceHandle, SliceWriter};

verus! {

broadcast use group_slice_writer;

/// Position of the newest writer of `ws` that takes a write at
/// `chunk_offset`, or -1 if none does.
pub open spec fn newest_taker(ws: Seq<SliceWriter>, chunk_offset: int) -> int
    decreases ws.len(),
{
    if ws.len() == 0 {
        -1
    } else if ws.last().takes(chunk_offset) {
        ws.len() - 1
    } else {
        newest_taker(ws.drop_last(), chunk_offset)
    }
}

/// Whether the search for a target passes over position `p` of `n` writers
/// and flushes it ahead of time: the position is newer than the target `t`,
/// at least three writers are newer than it, and the pool is mostly free.
pub open spec fn flushed_early(n: int, t: int, p: int, early_flush: bool) -> bool {
    early_flush && t < p < n && n - 1 - p >= 3
}

/// The full-flush requests that the search makes while it passes, newest
/// first, over the positions from `lo` on.
pub open spec fn early_reqs(ws: Seq<SliceWriter>, lo: int) -> Seq<FlushReq>
    decreases ws.len() - lo,
{
    if lo >= ws.len() || lo < 0 {
        Seq::<FlushReq>::empty()
    } else {
        early_reqs(ws, lo + 1) + if ws.len() - 1 - lo >= 3 && !ws[lo].frozen() {
            seq![FlushReq::FlushFull(ws[lo].handle())]
        } else {
            Seq::<FlushReq>::empty()
        }
    }
}

/// The writers of one chunk are in order: each is well formed and belongs
/// to chunk `chunk_idx`, and their sequence numbers rise and stay at or
/// below `last_seq`.
pub open spec fn chunk_ok(chunk_idx: usize, ws: Seq<SliceWriter>, last_seq: u64) -> bool {
    &&& forall|i: int|
        0 <= i < ws.len() ==> (#[trigger] ws[i]).wf() && ws[i].chunk_idx() == chunk_idx
            && ws[i].seq() <= last_seq
    &&& forall|i: int, j: int|
        0 <= i < j < ws.len() ==> (#[trigger] ws[i]).seq() < (#[trigger] ws[j]).seq()
}

/// Looks, newest first, for the writer of a chunk that takes a write at
/// `chunk_offset`. When the pool is mostly free (`early_flush`), every
/// writer that is passed over and has at least three newer writers is frozen
/// and gets a full-flush request appended to `reqs`.
pub fn find_slice_writer(
    ws: &mut ChunkWriters,
    chunk_offset: usize,
    early_flush: bool,
    reqs: &mut Vec<FlushReq>,
) -> (target: Option<usize>)
    requires
        forall|i: int| 0 <= i < old(ws).len() ==> (#[trigger] old(ws)[i]).wf(),
    ensures
        target == if newest_taker(old(ws)@, chunk_offset as int) >= 0 {
            Some(newest_taker(old(ws)@, chunk_offset as int) as usize)
        } else {
            None
        },
        -1 <= newest_taker(old(ws)@, chunk_offset as int) < old(ws).len(),
        target matches Some(t) ==> old(ws)[t as int].takes(chunk_offset as int),
        final(ws).len() == old(ws).len(),
        forall|p: int|
            0 <= p < old(ws).len() ==> #[trigger] final(ws)[p] == old(ws)[p].with_flags(
                old(ws)[p].frozen() || flushed_early(
                    old(ws).len() as int,
                    newest_taker(old(ws)@, chunk_offset as int),
                    p,
                    early_flush,
                ),
                old(ws)[p].done(),
            ),
        final(reqs)@ == old(reqs)@ + if early_flush {
            early_reqs(old(ws)@, newest_taker(old(ws)@, chunk_offset as int) + 1)
        } else {
            Seq::<FlushReq>::empty()
        },
{
    let n: usize = ws.len();
    let mut j: usize = n;
    let ghost off = chunk_offset as int;
    proof {
        assert(old(ws)@.take(n as int) =~= old(ws)@);
        assert(old(reqs)@ + Seq::<FlushReq>::empty() =~= old(reqs)@);
    }
    while j > 0
        invariant
            n == old(ws).len(),
            ws.len() == n,
            j <= n,
            off == chunk_offset as int,
            forall|i: int| 0 <= i < n ==> (#[trigger] old(ws)[i]).wf(),
            newest_taker(old(ws)@, off) == newest_taker(old(ws)@.take(j as int), off),
            forall|p: int| 0 <= p < j ==> #[trigger] ws[p] == old(ws)[p],
            forall|p: int|
                j <= p < n ==> #[trigger] ws[p] == old(ws)[p].with_flags(
                    old(ws)[p].frozen() || (early_flush && n - 1 - p >= 3),
                    old(ws)[p].done(),
                ),
            reqs@ == old(reqs)@ + if early_flush {
                early_reqs(old(ws)@, j as int)
            } else {
                Seq::<FlushReq>::empty()
            },
        decreases j,
    {
        let pos: usize = j - 1;
        let idx: usize = n - j;
        proof {
            let head = old(ws)@.take(j as int);
            assert(head.last() == old(ws)[pos as int]);
            assert(head.drop_last() =~= old(ws)@.take(pos as int));
            assert(ws[pos as int] == old(ws)[pos as int]);
            assert(old(ws)[pos as int].wf());
        }
        if ws[pos].can_take(chunk_offset) {
            proof {
                assert(old(ws)[pos as int].takes(off));
                assert(newest_taker(old(ws)@, off) == pos);
                assert forall|p: int| 0 <= p < n implies #[trigger] ws[p] == old(ws)[p].with_flags(
                    old(ws)[p].frozen() || flushed_early(n as int, pos as int, p, early_flush),
                    old(ws)[p].done(),
                ) by {
                    if p < j {
                        assert(ws[p] == old(ws)[p]);
                    }
                }
            }
            return Some(pos);
        }
        if idx >= 3 && early_flush {
            let ghost before = reqs@;
            match ws[pos].make_full_flush_in_advance() {
                Some(req) => {
                    reqs.push(req);
                },
                None => {},
            }
            proof {
                assert(reqs@ =~= old(reqs)@ + early_reqs(old(ws)@, pos as int));
            }
        } else {
            proof {
                if early_flush {
                    assert(early_reqs(old(ws)@, pos as int) =~= early_reqs(old(ws)@, j as int));
                }
            }
        }
        j = pos;
    }
    proof {
        assert(old(ws)@.take(0).len() == 0);
        assert(newest_taker(old(ws)@, off) == -1);
        assert forall|p: int| 0 <= p < n implies #[trigger] ws[p] == old(ws)[p].with_flags(
            old(ws)[p].frozen() || flushed_early(n as int, -1, p, early_flush),
            old(ws)[p].done(),
        ) by {}
    }
    None
}

/// Appends a writer for a new slice that starts at `chunk_offset` of chunk
/// `chunk_idx`, if `fresh` brings a sequence number above all that were
/// used before. Says at which position the new writer stands.
pub fn add_slice_writer(
    ws: &mut ChunkWriters,
    chunk_idx: usize,
    chunk_offset: usize,
    fresh: Option<u64>,
    last_seq: &mut u64,
) -> (target: Option<usize>)
    requires
        chunk_offset <= CHUNK_SIZE,
        chunk_ok(chunk_idx, old(ws)@, *old(last_seq)),
    ensures
        chunk_ok(chunk_idx, final(ws)@, *final(last_seq)),
        *final(last_seq) >= *old(last_seq),
        target is Some <==> fresh is Some && fresh->Some_0 > *old(last_seq),
        target is None ==> final(ws)@ == old(ws)@ && *final(last_seq) == *old(last_seq),
        target matches Some(t) ==> {
            let w = final(ws)[t as int];
            &&& t == old(ws).len()
            &&& *final(last_seq) == fresh->Some_0
            &&& final(ws)@ == old(ws)@.push(w)
            &&& w.seq() == fresh->Some_0
            &&& w.chunk_idx() == chunk_idx
            &&& w.offset_of_chunk() == chunk_offset
            &&& w.slice_id() == crate::slice::EMPTY_SLICE_ID
            &&& w.buffer()@.length == 0
            &&& w.buffer()@.flushed_length == 0
            &&& !w.frozen()
            &&& !w.done()
            &&& w.takes(chunk_offset as int)
        },
{
    match fresh {
        Some(seq) => {
            if seq > *last_seq {
                let w = SliceWriter::new(seq, chunk_idx, chunk_offset);
                ws.push(w);
                *last_seq = seq;
                Some(ws.len() - 1)
            } else {
                None
            }
        },
        None => None,
    }
}

/// The copies `copies`, each taking its bytes `shift` further on in the
/// caller's data.
pub open spec fn shifted(copies: Seq<PageCopy>, shift: int) -> Seq<PageCopy> {
    Seq::new(
        copies.len(),
        |k: int|
            PageCopy {
                block_index: copies[k].block_index,
                page_id: copies[k].page_id,
                file_offset: copies[k].file_offset,
                src_offset: (copies[k].src_offset + shift) as usize,
                len: copies[k].len,
            },
    )
}

/// Writes the piece `ctx` of a write to the writer at position `target` of
/// its chunk, and appends to `reqs` the flush request that the writer makes
/// afterwards, if any. The copies that come back take their bytes from the
/// caller's whole data.
pub fn write_to_chunk(
    ws: &mut ChunkWriters,
    pool: &mut DiskPagePool,
    ctx: ChunkWriteCtx,
    target: usize,
    reqs: &mut Vec<FlushReq>,
) -> (res: Result<Written, StorageError>)
    requires
        target < old(ws).len(),
        old(ws)[target as int].wf(),
        old(ws)[target as int].takes(ctx.chunk_offset as int),
        old(pool).wf(),
        ctx.buf_start_at + ctx.need_write_len <= usize::MAX,
    ensures
        final(pool).wf(),
        final(pool).page_size() == old(pool).page_size(),
        final(pool).capacity() == old(pool).capacity(),
        final(ws).len() == old(ws).len(),
        final(ws)[target as int].wf(),
        forall|p: int| 0 <= p < old(ws).len() && p != target ==> final(ws)[p] == old(ws)[p],
        res is Err <==> old(pool).page_size() < BLOCK_SIZE,
        final(pool).free().len() <= old(pool).free().len(),
        ctx.chunk_offset + ctx.need_write_len <= CHUNK_SIZE ==> final(pool).free().len() >= old(pool).free().len() - (ctx.need_write_len / BLOCK_SIZE + 2),
        res is Ok && ctx.chunk_offset + ctx.need_write_len <= CHUNK_SIZE && old(pool).free().len()
            >= ctx.need_write_len / BLOCK_SIZE + 2 ==> res->Ok_0.written == ctx.need_write_len,
        ({
            let before = old(ws)[target as int];
            let after = final(ws)[target as int];
            let boff = (ctx.chunk_offset - before.offset_of_chunk()) as usize;
            let wrote = before.with_buffer(after.buffer());
            &&& after == wrote.with_flags(
                wrote.frozen() || (wrote.flushable() && wrote.buffer()@.length == CHUNK_SIZE),
                wrote.done(),
            )
            &&& final(reqs)@ == old(reqs)@ + match wrote.background_req() {
                Some(req) => seq![req],
                None => Seq::<FlushReq>::empty(),
            }
            &&& exists|inner: Result<Written, StorageError>|
                {
                    &&& #[trigger] before.buffer().wrote(
                        *old(pool),
                        boff,
                        before.clipped(boff, ctx.need_write_len),
                        after.buffer(),
                        *final(pool),
                        inner,
                    )
                    &&& inner is Err ==> res == inner
                    &&& inner matches Ok(w) ==> res is Ok && res->Ok_0.written == w.written
                        && res->Ok_0.copies@ == shifted(w.copies@, ctx.buf_start_at as int)
                }
        }),
{
    let start: usize = ws[target].get_offset_of_chunk();
    let boff: usize = ctx.chunk_offset - start;
    let ghost before = ws[target as int];
    let inner = ws[target].write_at(pool, boff, ctx.need_write_len);
    let ghost wrote = ws[target as int];
    proof {
        if ctx.chunk_offset + ctx.need_write_len <= CHUNK_SIZE {
            assert(before.clipped(boff, ctx.need_write_len) == ctx.need_write_len);
            if inner is Ok {
                crate::slice_buffer::lemma_wrote_in_full(
                    before.buffer(),
                    *old(pool),
                    boff,
                    ctx.need_write_len,
                    wrote.buffer(),
                    *pool,
                    inner->Ok_0,
                );
            }
        }
    }
    match ws[target].make_background_flush_req() {
        Some(req) => {
            reqs.push(req);
        },
        None => {},
    }
    match inner {
        Err(e) => Err(e),
        Ok(w) => {
            let mut copies: Vec<PageCopy> = Vec::new();
            let mut k: usize = 0;
            while k < w.copies.len()
                invariant
                    k <= w.copies.len(),
                    copies.len() == k,
                    w.written <= ctx.need_write_len,
                    ctx.buf_start_at + ctx.need_write_len <= usize::MAX,
                    forall|i: int| 0 <= i < w.copies.len() ==> (#[trigger] w.copies[i]).src_offset
                        <= ctx.need_write_len,
                    forall|i: int|
                        0 <= i < k ==> #[trigger] copies[i] == shifted(
                            w.copies@,
                            ctx.buf_start_at as int,
                        )[i],
                decreases w.copies.len() - k,
            {
                let c: PageCopy = w.copies[k];
                copies.push(
                    PageCopy {
                        block_index: c.block_index,
                        page_id: c.page_id,
                        file_offset: c.file_offset,
                        src_offset: c.src_offset + ctx.buf_start_at,
                        len: c.len,
                    },
                );
                k = k + 1;
            }
            proof {
                assert(copies@ =~= shifted(w.copies@, ctx.buf_start_at as int));
            }
            Ok(Written { written: w.written, copies })
        },
    }
}

/// The writers of `ws` that are not done, in their order.
pub open spec fn not_done(ws: Seq<SliceWriter>) -> Seq<SliceWriter>
    decreases ws.len(),
{
    if ws.len() == 0 {
        Seq::<SliceWriter>::empty()
    } else if ws.last().done() {
        not_done(ws.drop_last())
    } else {
        not_done(ws.drop_last()).push(ws.last())
    }
}

/// Sweeping keeps writers as they are and in their order: every writer
/// that is left was there before, later than the ones left before it.
pub proof fn lemma_not_done_members(ws: Seq<SliceWriter>)
    ensures
        not_done(ws).len() <= ws.len(),
        forall|k: int|
            0 <= k < not_done(ws).len() ==> !(#[trigger] not_done(ws)[k]).done() && ws.contains(
                not_done(ws)[k],
            ),
        forall|i: int| 0 <= i < ws.len() && !ws[i].done() ==> not_done(ws).contains(#[trigger] ws[i]),
    decreases ws.len(),
{
    if ws.len() > 0 {
        let head = ws.drop_last();
        lemma_not_done_members(head);
        assert forall|k: int| 0 <= k < not_done(ws).len() implies !(#[trigger] not_done(
            ws,
        )[k]).done() && ws.contains(not_done(ws)[k]) by {
            if k < not_done(head).len() {
                let w = not_done(head)[k];
                assert(head.contains(w));
                let j = choose|j: int| 0 <= j < head.len() && head[j] == w;
                assert(ws[j] == w);
            } else {
                assert(ws[ws.len() - 1] == ws.last());
            }
        }
        assert forall|i: int| 0 <= i < ws.len() && !ws[i].done() implies not_done(ws).contains(
            #[trigger] ws[i],
        ) by {
            if i < head.len() {
                assert(head[i] == ws[i]);
                assert(not_done(head).contains(head[i]));
                let k = choose|k: int| 0 <= k < not_done(head).len() && not_done(head)[k] == head[i];
                assert(not_done(ws)[k] == ws[i]);
            } else {
                assert(not_done(ws)[not_done(ws).len() - 1] == ws[i]);
            }
        }
    }
}

/// Sweeping a chunk's writers leaves them well formed and in order.
pub proof fn lemma_not_done_ok(chunk_idx: usize, ws: Seq<SliceWriter>, last_seq: u64)
    requires
        chunk_ok(chunk_idx, ws, last_seq),
    ensures
        chunk_ok(chunk_idx, not_done(ws), last_seq),
    decreases ws.len(),
{
    if ws.len() > 0 {
        let head = ws.drop_last();
        assert(chunk_ok(chunk_idx, head, last_seq)) by {
            assert forall|i: int| 0 <= i < head.len() implies (#[trigger] head[i]).wf()
                && head[i].chunk_idx() == chunk_idx && head[i].seq() <= last_seq by {
                assert(head[i] == ws[i]);
            }
            assert forall|i: int, j: int| 0 <= i < j < head.len() implies (
            #[trigger] head[i]).seq() < (#[trigger] head[j]).seq() by {
                assert(head[i] == ws[i] && head[j] == ws[j]);
            }
        }
        lemma_not_done_ok(chunk_idx, head, last_seq);
        lemma_not_done_members(head);
        if !ws.last().done() {
            let kept = not_done(ws);
            assert forall|i: int, j: int| 0 <= i < j < kept.len() implies (
            #[trigger] kept[i]).seq() < (#[trigger] kept[j]).seq() by {
                if j == kept.len() - 1 {
                    let w = not_done(head)[i];
                    assert(head.contains(w));
                    let k = choose|k: int| 0 <= k < head.len() && head[k] == w;
                    assert(ws[k].seq() < ws[ws.len() - 1].seq());
                } else {
                    assert(kept[i] == not_done(head)[i] && kept[j] == not_done(head)[j]);
                }
            }
            assert forall|i: int| 0 <= i < kept.len() implies (#[trigger] kept[i]).wf()
                && kept[i].chunk_idx() == chunk_idx && kept[i].seq() <= last_seq by {
                if i < kept.len() - 1 {
                    assert(kept[i] == not_done(head)[i]);
                } else {
                    assert(kept[i] == ws[ws.len() - 1]);
                }
            }
        }
    }
}

/// Takes the writers that are done out of `ws` and hands their pages back
/// to the pool.
pub fn sweep_done(ws: Vec<SliceWriter>, pool: &mut DiskPagePool) -> (kept: Vec<SliceWriter>)
    requires
        forall|i: int| 0 <= i < ws.len() ==> (#[trigger] ws[i]).wf(),
        old(pool).wf(),
    ensures
        kept@ == not_done(ws@),
        final(pool).wf(),
        final(pool).page_size() == old(pool).page_size(),
        final(pool).capacity() == old(pool).capacity(),
        final(pool).outstanding() <= old(pool).outstanding(),
        forall|id: u64| final(pool).is_out(id) ==> old(pool).is_out(id),
{
    let mut rest = ws;
    let mut kept: Vec<SliceWriter> = Vec::new();
    let ghost all = ws@;
    let ghost mut k: int = 0;
    proof {
        assert(all.take(0) =~= Seq::<SliceWriter>::empty());
        assert(all.skip(0) =~= all);
    }
    while rest.len() > 0
        invariant
            0 <= k <= all.len(),
            rest@ == all.skip(k),
            kept@ == not_done(all.take(k)),
            forall|i: int| 0 <= i < all.len() ==> (#[trigger] all[i]).wf(),
            pool.wf(),
            pool.page_size() == old(pool).page_size(),
            pool.capacity() == old(pool).capacity(),
            pool.outstanding() <= old(pool).outstanding(),
            forall|id: u64| pool.is_out(id) ==> old(pool).is_out(id),
        decreases rest.len(),
    {
        let w = rest.remove(0);
        proof {
            assert(w == all[k]);
            assert(all.take(k + 1).drop_last() =~= all.take(k));
            assert(all.take(k + 1).last() == all[k]);
            assert(rest@ =~= all.skip(k + 1));
            k = k + 1;
        }
        if w.has_done() {
            w.discard(pool);
        } else {
            kept.push(w);
        }
    }
    proof {
        assert(all.take(k) =~= all);
    }
    kept
}

/// The writers `ws` as a manual flush leaves them.
pub open spec fn claimed_all(ws: Seq<SliceWriter>) -> Seq<SliceWriter> {
    Seq::new(ws.len(), |i: int| ws[i].claimed())
}

/// The handles of the writers of `ws` that a manual flush takes charge of,
/// in their order.
pub open spec fn flushable_handles(ws: Seq<SliceWriter>) -> Seq<SliceHandle>
    decreases ws.len(),
{
    if ws.len() == 0 {
        Seq::<SliceHandle>::empty()
    } else if ws.last().flushable() {
        flushable_handles(ws.drop_last()).push(ws.last().handle())
    } else {
        flushable_handles(ws.drop_last())
    }
}

/// The writers of the chunks `keys` of `table`, chunk after chunk, as a
/// manual flush leaves them.
pub open spec fn drained(table: Map<usize, ChunkWriters>, keys: Seq<usize>) -> Seq<SliceWriter>
    decreases keys.len(),
{
    if keys.len() == 0 {
        Seq::<SliceWriter>::empty()
    } else {
        drained(table, keys.drop_last()) + claimed_all(table[keys.last()]@)
    }
}

/// The handles of the writers of the chunks `keys` of `table`, chunk after
/// chunk, that a manual flush takes charge of.
pub open spec fn drained_handles(table: Map<usize, ChunkWriters>, keys: Seq<usize>) -> Seq<
    SliceHandle,
>
    decreases keys.len(),
{
    if keys.len() == 0 {
        Seq::<SliceHandle>::empty()
    } else {
        drained_handles(table, keys.drop_last()) + flushable_handles(table[keys.last()]@)
    }
}

/// `keys` names every chunk of `table`, each once.
pub open spec fn lists_chunks(table: Map<usize, ChunkWriters>, keys: Seq<usize>) -> bool {
    &&& keys.no_duplicates()
    &&& forall|c: usize| keys.contains(c) <==> table.contains_key(c)
}

/// Moves the writers of one chunk to the detached writers, claiming for a
/// manual flush each one that is neither frozen nor done.
fn drain_chunk(ws: ChunkWriters, detached: &mut Vec<SliceWriter>, sws: &mut Vec<SliceHandle>)
    ensures
        final(detached)@ == old(detached)@ + claimed_all(ws@),
        final(sws)@ == old(sws)@ + flushable_handles(ws@),
{
    let mut rest = ws;
    let ghost all = ws@;
    let ghost mut k: int = 0;
    proof {
        assert(all.skip(0) =~= all);
        assert(old(detached)@ + claimed_all(all.take(0)) =~= old(detached)@);
        assert(old(sws)@ + flushable_handles(all.take(0)) =~= old(sws)@);
    }
    while rest.len() > 0
        invariant
            0 <= k <= all.len(),
            rest@ == all.skip(k),
            detached@ == old(detached)@ + claimed_all(all.take(k)),
            sws@ == old(sws)@ + flushable_handles(all.take(k)),
        decreases rest.len(),
    {
        let mut w = rest.remove(0);
        proof {
            assert(w == all[k]);
            assert(all.take(k + 1).drop_last() =~= all.take(k));
            assert(all.take(k + 1).last() == all[k]);
            assert(rest@ =~= all.skip(k + 1));
        }
        if w.can_flush() {
            sws.push(w.get_handle());
        }
        detached.push(w);
        proof {
            assert(detached@ =~= old(detached)@ + claimed_all(all.take(k + 1)));
            assert(sws@ =~= old(sws)@ + flushable_handles(all.take(k + 1)));
            k = k + 1;
        }
    }
    proof {
        assert(all.take(k) =~= all);
    }
}

/// Position of the first writer of `ws`, from `from` on, that has the
/// sequence number `seq`, or -1 if there is none.
pub open spec fn first_with_seq(ws: Seq<SliceWriter>, seq: u64, from: int) -> int
    decreases ws.len() - from,
{
    if from < 0 || from >= ws.len() {
        -1
    } else if ws[from].seq() == seq {
        from
    } else {
        first_with_seq(ws, seq, from + 1)
    }
}

/// Looks for the first writer with the sequence number `seq`.
pub fn find_seq(ws: &Vec<SliceWriter>, seq: u64) -> (pos: Option<usize>)
    ensures
        pos is Some <==> first_with_seq(ws@, seq, 0) >= 0,
        pos matches Some(i) ==> i == first_with_seq(ws@, seq, 0) && i < ws.len() && ws[i as int].seq()
            == seq,
{
    let mut i: usize = 0;
    while i < ws.len()
        invariant
            i <= ws.len(),
            first_with_seq(ws@, seq, 0) == first_with_seq(ws@, seq, i as int),
        decreases ws.len() - i,
    {
        if ws[i].internal_seq() == seq {
            return Some(i);
        }
        i = i + 1;
    }
    None
}

/// Where a file writer keeps a slice writer.
#[derive(Debug, Clone, Copy, PartialEq, Eq, Structural)]
pub enum WriterPlace {
    /// In the table, at this position of its chunk.
    InTable(usize),
    /// Among the detached writers, at this position.
    Detached(usize),
    /// Nowhere.
    Missing,
}

/// Which flush a task of the background flusher runs.
#[derive(Debug, Clone, Copy, PartialEq, Eq, Structural)]
pub enum FlushKind {
    /// The complete blocks that end at or before `offset`.
    Bulk { offset: usize },
    /// Everything that is buffered.
    Full,
}

/// One step of a flush on one slice writer.
#[derive(Debug, Clone, Copy, PartialEq, Eq, Structural)]
pub enum SliceOp {
    /// Give the slice the id `candidate`, if one is offered and the slice
    /// has none, and plan the uploads of the flush `kind`.
    Plan { kind: FlushKind, candidate: Option<u64> },
    /// Record that block `block_index` was uploaded with `size` bytes.
    Uploaded { block_index: usize, size: usize },
    /// Mark the writer as done.
    MarkDone,
}

/// What a step of a flush found or did.
#[derive(Debug)]
pub enum OpResult {
    /// The slice has no id yet: fetch one and plan again.
    NeedsSliceId,
    /// The uploads to perform.
    Plan(Vec<BlockUpload>),
    /// Whether the upload was the next one due.
    Counted(bool),
    /// The writer is marked.
    Marked,
}

/// The slice id of `w` after `candidate` was offered.
pub open spec fn offered_id(w: SliceWriter, candidate: Option<u64>) -> u64 {
    if w.slice_id() == crate::slice::EMPTY_SLICE_ID && candidate is Some {
        candidate->Some_0
    } else {
        w.slice_id()
    }
}

/// Whether `plan` is what the flush `kind` of `w` asks to upload: one
/// upload for each block of the flush, in order.
pub open spec fn plan_of(w: SliceWriter, kind: FlushKind, plan: Seq<BlockUpload>) -> bool {
    match kind {
        FlushKind::Bulk { offset } => {
            &&& plan.len() == w.buffer()@.bulk_blocks(offset as int).len()
            &&& forall|k: int|
                0 <= k < plan.len() ==> #[trigger] plan[k] == w.buffer().upload_for(
                    w.slice_id(),
                    w.buffer()@.bulk_blocks(offset as int)[k],
                    BLOCK_SIZE as int,
                )
        },
        FlushKind::Full => {
            &&& plan.len() == w.buffer()@.pending_blocks().len()
            &&& forall|k: int|
                0 <= k < plan.len() ==> #[trigger] plan[k] == w.buffer().upload_for(
                    w.slice_id(),
                    w.buffer()@.pending_blocks()[k],
                    w.buffer()@.block_bytes(w.buffer()@.pending_blocks()[k]),
                )
        },
    }
}

/// How the step `op` relates the writer and the pool before it to both
/// after it, and to what the step returns.
pub open spec fn op_effect(
    before: SliceWriter,
    pool: DiskPagePool,
    op: SliceOp,
    after: SliceWriter,
    pool_after: DiskPagePool,
    res: OpResult,
) -> bool {
    match op {
        SliceOp::Plan { kind, candidate } => {
            &&& after == before.with_slice_id(offered_id(before, candidate))
            &&& pool_after == pool
            &&& if after.slice_id() == crate::slice::EMPTY_SLICE_ID {
                res is NeedsSliceId
            } else {
                res matches OpResult::Plan(plan) && plan_of(after, kind, plan@)
            }
        },
        SliceOp::Uploaded { block_index, size } => {
            &&& after == before.with_buffer(after.buffer())
            &&& res matches OpResult::Counted(counted) && before.buffer().uploaded(
                pool,
                block_index,
                size,
                after.buffer(),
                pool_after,
                counted,
            )
        },
        SliceOp::MarkDone => {
            &&& after == before.with_flags(before.frozen(), true)
            &&& pool_after == pool
            &&& res is Marked
        },
    }
}

/// Performs one step of a flush on one slice writer.
pub fn apply_op(w: &mut SliceWriter, pool: &mut DiskPagePool, op: SliceOp) -> (res: OpResult)
    requires
        old(w).wf(),
        old(pool).wf(),
    ensures
        final(w).wf(),
        final(pool).wf(),
        final(pool).page_size() == old(pool).page_size(),
        final(pool).capacity() == old(pool).capacity(),
        final(pool).outstanding() <= old(pool).outstanding(),
        final(w).seq() == old(w).seq(),
        final(w).chunk_idx() == old(w).chunk_idx(),
        op_effect(*old(w), *old(pool), op, *final(w), *final(pool), res),
{
    match op {
        SliceOp::Plan { kind, candidate } => {
            match candidate {
                Some(id) => {
                    w.prepare_slice_id(id);
                },
                None => {},
            }
            let plan = match kind {
                FlushKind::Bulk { offset } => w.flush_bulk(offset),
                FlushKind::Full => w.flush(),
            };
            match plan {
                Some(uploads) => OpResult::Plan(uploads),
                None => OpResult::NeedsSliceId,
            }
        },
        SliceOp::Uploaded { block_index, size } => {
            OpResult::Counted(w.complete_upload(pool, block_index, size))
        },
        SliceOp::MarkDone => {
            w.mark_done();
            OpResult::Marked
        },
    }
}

/// The writers of chunk `c` in `table`: none where the chunk has no entry.
pub open spec fn writers_of(table: Map<usize, ChunkWriters>, c: usize) -> Seq<SliceWriter> {
    if table.contains_key(c) {
        table[c]@
    } else {
        Seq::<SliceWriter>::empty()
    }
}

/// The writers `ws` as the search for the target of a write at
/// `chunk_offset` leaves them: those flushed ahead of time are frozen.
pub open spec fn searched(ws: Seq<SliceWriter>, chunk_offset: int, early: bool) -> Seq<
    SliceWriter,
> {
    Seq::new(
        ws.len(),
        |p: int|
            ws[p].with_flags(
                ws[p].frozen() || flushed_early(
                    ws.len() as int,
                    newest_taker(ws, chunk_offset),
                    p,
                    early,
                ),
                ws[p].done(),
            ),
    )
}

/// The flush requests that the search for the target of a write at
/// `chunk_offset` makes.
pub open spec fn search_reqs(ws: Seq<SliceWriter>, chunk_offset: int, early: bool) -> Seq<
    FlushReq,
> {
    if early {
        early_reqs(ws, newest_taker(ws, chunk_offset) + 1)
    } else {
        Seq::<FlushReq>::empty()
    }
}

/// Whether `w` is a writer as they are made: for a slice numbered `seq`
/// that starts at `chunk_offset` of chunk `chunk_idx`, empty, without slice
/// id, neither frozen nor done.
pub open spec fn is_new_writer(w: SliceWriter, seq: u64, chunk_idx: usize, chunk_offset: usize) -> bool {
    &&& w.wf()
    &&& w.seq() == seq
    &&& w.chunk_idx() == chunk_idx
    &&& w.offset_of_chunk() == chunk_offset
    &&& w.slice_id() == crate::slice::EMPTY_SLICE_ID
    &&& w.buffer()@.length == 0
    &&& w.buffer()@.flushed_length == 0
    &&& !w.frozen()
    &&& !w.done()
}

/// The flush request that the writer `before` makes once it was written to
/// and holds the buffer of `after`.
pub open spec fn target_req(before: SliceWriter, after: SliceWriter) -> Seq<FlushReq> {
    match before.with_buffer(after.buffer()).background_req() {
        Some(req) => seq![req],
        None => Seq::<FlushReq>::empty(),
    }
}

/// How the writer `before` takes the piece `ctx` of a write: `after` is the
/// writer with what its buffer took, frozen if that fills the chunk;
/// `took` bytes went into pages of the pool by the copies `copies`, which
/// take their bytes from the caller's whole data.
pub open spec fn target_took(
    before: SliceWriter,
    pool: DiskPagePool,
    ctx: ChunkWriteCtx,
    after: SliceWriter,
    pool_after: DiskPagePool,
    took: usize,
    copies: Seq<PageCopy>,
) -> bool {
    let boff = (ctx.chunk_offset - before.offset_of_chunk()) as usize;
    let wrote = before.with_buffer(after.buffer());
    &&& after == wrote.with_flags(
        wrote.frozen() || (wrote.flushable() && wrote.buffer()@.length == CHUNK_SIZE),
        wrote.done(),
    )
    &&& exists|w: Written| #[trigger]
        before.buffer().wrote(
            pool,
            boff,
            before.clipped(boff, ctx.need_write_len),
            after.buffer(),
            pool_after,
            Ok(w),
        ) && took == w.written && copies == shifted(w.copies@, ctx.buf_start_at as int)
}

/// How the piece `ctx` of a write changes the writers `ws` of its chunk.
///
/// The search for a target leaves its flags and its requests. Then the
/// newest writer that takes the piece is written to; or, where none takes
/// it and a new sequence number was to be had (`last_seq` rose), a new
/// writer is appended and written to; or, where neither holds, nothing is
/// written. The writer that was written to may ask for a flush.
pub open spec fn chunk_wrote(
    ws: Seq<SliceWriter>,
    last_seq: u64,
    pool: DiskPagePool,
    ctx: ChunkWriteCtx,
    ws_after: Seq<SliceWriter>,
    last_seq_after: u64,
    pool_after: DiskPagePool,
    took: usize,
    copies: Seq<PageCopy>,
    reqs: Seq<FlushReq>,
) -> bool {
    let off = ctx.chunk_offset as int;
    let early = pool.free().len() * 10 > pool.total() * 7;
    let t = newest_taker(ws, off);
    let found = searched(ws, off, early);
    let n = ws.len() as int;
    if t >= 0 {
        &&& last_seq_after == last_seq
        &&& ws_after.len() == n
        &&& forall|p: int| 0 <= p < n && p != t ==> #[trigger] ws_after[p] == found[p]
        &&& target_took(found[t], pool, ctx, ws_after[t], pool_after, took, copies)
        &&& reqs == search_reqs(ws, off, early) + target_req(found[t], ws_after[t])
    } else if last_seq_after > last_seq {
        &&& ws_after.len() == n + 1
        &&& forall|p: int| 0 <= p < n ==> #[trigger] ws_after[p] == found[p]
        &&& exists|fresh: SliceWriter|
            {
                &&& #[trigger] is_new_writer(fresh, last_seq_after, ctx.chunk_idx, ctx.chunk_offset)
                &&& target_took(fresh, pool, ctx, ws_after[n], pool_after, took, copies)
                &&& reqs == search_reqs(ws, off, early) + target_req(fresh, ws_after[n])
            }
    } else {
        &&& last_seq_after == last_seq
        &&& ws_after == found
        &&& pool_after == pool
        &&& took == 0
        &&& copies.len() == 0
        &&& reqs == search_reqs(ws, off, early)
    }
}

/// How the piece `ctx` of a write changes the table of a file writer: the
/// writers of the piece's chunk as `chunk_wrote` says, the other chunks not
/// at all.
pub open spec fn piece_wrote(
    table: Map<usize, ChunkWriters>,
    last_seq: u64,
    pool: DiskPagePool,
    ctx: ChunkWriteCtx,
    table_after: Map<usize, ChunkWriters>,
    last_seq_after: u64,
    pool_after: DiskPagePool,
    took: usize,
    copies: Seq<PageCopy>,
    reqs: Seq<FlushReq>,
) -> bool {
    &&& forall|c: usize|
        c != ctx.chunk_idx ==> table_after.contains_key(c) == #[trigger] table.contains_key(c) && (
        table.contains_key(c) ==> table_after[c] == table[c])
    &&& table_after.contains_key(ctx.chunk_idx) <==> writers_of(table_after, ctx.chunk_idx).len()
        > 0
    &&& chunk_wrote(
        writers_of(table, ctx.chunk_idx),
        last_seq,
        pool,
        ctx,
        writers_of(table_after, ctx.chunk_idx),
        last_seq_after,
        pool_after,
        took,
        copies,
        reqs,
    )
}

/// The sum of the numbers `took`.
pub open spec fn total_took(took: Seq<usize>) -> int
    decreases took.len(),
{
    if took.len() == 0 {
        0
    } else {
        total_took(took.drop_last()) + took.last()
    }
}

/// The sequences `parts`, one behind the other.
pub open spec fn joined<A>(parts: Seq<Seq<A>>) -> Seq<A>
    decreases parts.len(),
{
    if parts.len() == 0 {
        Seq::<A>::empty()
    } else {
        joined(parts.drop_last()) + parts.last()
    }
}

/// The course of a write of `len` bytes at `offset`, piece by piece: what
/// the table, the highest sequence number and the pool are before each
/// piece and after the last, and what each piece took, copied and asked to
/// flush.
pub open spec fn write_steps(
    offset: usize,
    len: usize,
    tables: Seq<Map<usize, ChunkWriters>>,
    seqs: Seq<u64>,
    pools: Seq<DiskPagePool>,
    took: Seq<usize>,
    copies: Seq<Seq<PageCopy>>,
    reqs: Seq<Seq<FlushReq>>,
) -> bool {
    let n = piece_count(CHUNK_SIZE as int, offset as int, len as int);
    &&& tables.len() == n + 1
    &&& seqs.len() == n + 1
    &&& pools.len() == n + 1
    &&& took.len() == n
    &&& copies.len() == n
    &&& reqs.len() == n
    &&& forall|i: int|
        0 <= i < n ==> piece_wrote(
            tables[i],
            seqs[i],
            pools[i],
            piece(CHUNK_SIZE as int, offset as int, len as int, i),
            tables[i + 1],
            seqs[i + 1],
            pools[i + 1],
            #[trigger] took[i],
            copies[i],
            reqs[i],
        )
}

/// A number of pages that is enough for a write of `len` bytes at `offset`:
/// one for every whole block of the write, and two more for every chunk
/// that the write touches.
pub open spec fn pages_for(offset: usize, len: usize) -> int {
    len / BLOCK_SIZE + 2 * piece_count(CHUNK_SIZE as int, offset as int, len as int)
}

/// Appends the copies `more` to `copies`.
fn append_copies(copies: &mut Vec<PageCopy>, more: &Vec<PageCopy>)
    ensures
        final(copies)@ == old(copies)@ + more@,
{
    let mut k: usize = 0;
    proof {
        assert(old(copies)@ + more@.take(0) =~= old(copies)@);
    }
    while k < more.len()
        invariant
            k <= more.len(),
            copies@ == old(copies)@ + more@.take(k as int),
        decreases more.len() - k,
    {
        copies.push(more[k]);
        k = k + 1;
        proof {
            assert(copies@ =~= old(copies)@ + more@.take(k as int));
        }
    }
    proof {
        assert(more@.take(more.len() as int) =~= more@);
    }
}

/// What a write to a file did: the bytes it took, the copies that put them
/// into pages, and the flush requests to hand to the background flusher.
#[derive(Debug)]
pub struct WriteOutcome {
    pub written: usize,
    pub copies: Vec<PageCopy>,
    pub flush_reqs: Vec<FlushReq>,
}

/// The writer of one file.
pub struct FileWriter {
    inode: u64,
    length: usize,
    slice_writers: ChunkTable,
    detached: Vec<SliceWriter>,
    manually_flush: bool,
    flush_error: Option<StorageError>,
    seq_generate: Sonyflake,
    last_seq: u64,
    pattern: WriterPattern,
}

impl FileWriter {
    /// The inode of the file.
    pub closed spec fn inode(&self) -> u64 {
        self.inode
    }

    /// The length of the file as this writer knows it.
    pub closed spec fn length(&self) -> int {
        self.length as int
    }

    /// The slice writers that take writes, chunk by chunk.
    pub closed spec fn table(&self) -> Map<usize, ChunkWriters> {
        chunk_table(self.slice_writers)
    }

    /// The slice writers that a manual flush took out of the table and
    /// that are not done yet.
    pub closed spec fn detached(&self) -> Seq<SliceWriter> {
        self.detached@
    }

    /// Whether a manual flush is under way.
    pub closed spec fn manually_flushing(&self) -> bool {
        self.manually_flush
    }

    /// The first failure that was reported of the manual flush under way,
    /// if any was.
    pub closed spec fn flush_failure(&self) -> Option<StorageError> {
        self.flush_error
    }

    /// The highest sequence number given to a slice writer so far.
    pub closed spec fn last_seq(&self) -> u64 {
        self.last_seq
    }

    /// The state of the sequential-or-random estimator.
    pub closed spec fn pattern(&self) -> crate::pattern::PatternView {
        self.pattern@
    }

    /// The file writer's invariant: the estimator is within its limits, no
    /// chunk of the table is without writers, and every writer is well
    /// formed, in order, and numbered at or below `last_seq`.
    pub open spec fn wf(&self) -> bool {
        &&& crate::pattern::pattern_in_bounds(self.pattern())
        &&& forall|c: usize| #[trigger]
            self.table().contains_key(c) ==> self.table()[c]@.len() > 0 && chunk_ok(
                c,
                self.table()[c]@,
                self.last_seq(),
            )
        &&& forall|j: int|
            0 <= j < self.detached().len() ==> (#[trigger] self.detached()[j]).wf()
                && self.detached()[j].seq() <= self.last_seq()
    }

    /// A writer for the file `inode` of `len` bytes, with no slice writer
    /// yet; `seq_generate` numbers its slice writers.
    pub fn new(inode: u64, len: usize, seq_generate: Sonyflake) -> (fw: FileWriter)
        ensures
            fw.wf(),
            fw.inode() == inode,
            fw.length() == len,
            fw.table() == Map::<usize, ChunkWriters>::empty(),
            fw.detached().len() == 0,
            !fw.manually_flushing(),
            fw.flush_failure() is None,
            fw.last_seq() == 0,
            fw.pattern() == (crate::pattern::PatternView { count: 0, last_stop: 0 }),
    {
        FileWriter {
            inode,
            length: len,
            slice_writers: table_new(),
            detached: Vec::new(),
            manually_flush: false,
            flush_error: None,
            seq_generate,
            last_seq: 0,
            pattern: WriterPattern::new(),
        }
    }

    /// The length of the file as this writer knows it.
    pub fn get_length(&self) -> (len: usize)
        ensures
            len == self.length(),
    {
        self.length
    }

    /// The inode of the file.
    pub fn get_inode(&self) -> (inode: u64)
        ensures
            inode == self.inode(),
    {
        self.inode
    }

    /// Whether a manual flush is under way.
    pub fn is_manually_flushing(&self) -> (b: bool)
        ensures
            b == self.manually_flushing(),
    {
        self.manually_flush
    }

    /// Number of slice writers that take writes to the chunk `chunk_idx`.
    pub fn slice_writer_cnt(&self, chunk_idx: usize) -> (n: usize)
        ensures
            n == if self.table().contains_key(chunk_idx) {
                self.table()[chunk_idx]@.len()
            } else {
                0
            },
    {
        match table_count(&self.slice_writers, chunk_idx) {
            Some(n) => n,
            None => 0,
        }
    }

    /// Number of chunks that have a slice writer.
    pub fn chunk_cnt(&self) -> (n: usize)
        ensures
            n == self.table().dom().len(),
    {
        let keys = table_keys(&self.slice_writers);
        proof {
            assert(keys@.to_set() =~= self.table().dom());
            keys@.unique_seq_to_set();
        }
        keys.len()
    }

    /// Number of slice writers that a manual flush took out of the table
    /// and that are not swept yet.
    pub fn detached_cnt(&self) -> (n: usize)
        ensures
            n == self.detached().len(),
    {
        self.detached.len()
    }

    /// Whether the recent writes look sequential.
    pub fn is_seq(&self) -> (seq: bool)
        ensures
            seq == (self.pattern().count >= 0),
    {
        self.pattern.is_seq()
    }

    /// Whether chunk `c` has exactly one slice writer, which starts at the
    /// chunk's start, holds `length` bytes, takes a write at their end and
    /// is not done.
    pub open spec fn appending(&self, c: usize, length: int) -> bool {
        let ws = writers_of(self.table(), c);
        &&& ws.len() == 1
        &&& ws[0].offset_of_chunk() == 0
        &&& ws[0].buffer()@.length == length
        &&& ws[0].takes(length)
        &&& !ws[0].done()
    }

    /// Whether a slice writer of this file takes the piece `ctx` of a
    /// write.
    pub open spec fn has_taker(&self, ctx: ChunkWriteCtx) -> bool {
        self.table().contains_key(ctx.chunk_idx) && newest_taker(
            self.table()[ctx.chunk_idx]@,
            ctx.chunk_offset as int,
        ) >= 0
    }

    /// Whether every piece of the write of `len` bytes at `offset` has a
    /// slice writer of this file that takes it.
    pub open spec fn takes_all(&self, offset: usize, len: usize) -> bool {
        forall|i: int|
            0 <= i < piece_count(CHUNK_SIZE as int, offset as int, len as int)
                ==> #[trigger] self.has_taker(piece(CHUNK_SIZE as int, offset as int, len as int, i))
    }

    /// How a write of `len` bytes at `offset` relates the file writer
    /// `self` and the pool before it to both after it, and to what the
    /// write returns. The write goes piece by piece, one piece per chunk:
    /// `write_steps` says what each piece does to the writers of its chunk
    /// and to the pool; the count that comes back is the sum of what the
    /// pieces took, and the copies and the flush requests are those of the
    /// pieces, one piece behind the other.
    pub open spec fn wrote(
        &self,
        pool: DiskPagePool,
        offset: usize,
        len: usize,
        after: FileWriter,
        pool_after: DiskPagePool,
        res: Result<WriteOutcome, StorageError>,
    ) -> bool {
        &&& pool_after.page_size() == pool.page_size()
        &&& pool_after.capacity() == pool.capacity()
        &&& res is Err <==> len > 0 && pool.page_size() < BLOCK_SIZE
        &&& res is Err ==> res->Err_0 == StorageError::Bounds && after == *self
            && pool_after == pool
        &&& len == 0 ==> after == *self && pool_after == pool
        &&& after.inode() == self.inode()
        &&& after.length() >= self.length()
        &&& after.manually_flushing() == self.manually_flushing()
        &&& after.flush_failure() == self.flush_failure()
        &&& after.detached() == self.detached()
        &&& after.last_seq() >= self.last_seq()
        &&& res matches Ok(o) ==> {
            &&& o.written <= len
            &&& len == 0 ==> o.copies.len() == 0 && o.flush_reqs.len() == 0
            &&& after.length() == if len == 0 || self.length() >= offset
                + o.written {
                self.length()
            } else {
                offset + o.written
            }
            &&& after.pattern() == if len > 0 {
                pattern_step(self.pattern(), offset as int, len as int)
            } else {
                self.pattern()
            }
            &&& forall|k: int|
                0 <= k < o.copies.len() ==> (#[trigger] o.copies[k]).src_offset
                    + o.copies[k].len <= len
            &&& self.takes_all(offset, len) && pool.free().len() >= pages_for(offset, len)
                ==> o.written == len
            &&& forall|k: int|
                0 <= k < o.flush_reqs.len() ==> !((#[trigger] o.flush_reqs[k]) is ManualFlush)
            &&& forall|c: usize|
                len > 0 && (c < offset / CHUNK_SIZE || c > (offset + len - 1) / (
                CHUNK_SIZE as int))
                    ==> after.table().contains_key(c) == #[trigger] self.table().contains_key(
                    c,
                ) && (self.table().contains_key(c) ==> after.table()[c] == self.table()[c])
            &&& len > 0 ==> exists|
                tables: Seq<Map<usize, ChunkWriters>>,
                seqs: Seq<u64>,
                pools: Seq<DiskPagePool>,
                took: Seq<usize>,
                copies: Seq<Seq<PageCopy>>,
                reqs: Seq<Seq<FlushReq>>,
            |
                {
                    &&& #[trigger] write_steps(offset, len, tables, seqs, pools, took, copies, reqs)
                    &&& tables[0] == self.table()
                    &&& seqs[0] == self.last_seq()
                    &&& pools[0] == pool
                    &&& tables.last() == after.table()
                    &&& seqs.last() == after.last_seq()
                    &&& pools.last() == pool_after
                    &&& o.written == total_took(took)
                    &&& o.copies@ == joined(copies)
                    &&& o.flush_reqs@ == joined(reqs)
                }
        }
    }

    /// Writes `len` bytes at `offset` of the file.
    ///
    /// The estimator records the write; the write is cut into one piece
    /// per chunk; each piece goes to the newest slice writer of its chunk
    /// that takes it, or to a new one; every writer that was written to may
    /// ask for a flush; and the file grows to the end of what was taken.
    /// The caller performs the copies and forwards the flush requests.
    ///
    /// A write of no bytes does nothing. A write is refused when the
    /// pool's pages are smaller than a block. It comes out short when the
    /// pool runs out of pages, or when a chunk needs a new slice writer and
    /// no new sequence number is to be had.
    pub fn write(&mut self, pool: &mut DiskPagePool, offset: usize, len: usize) -> (res: Result<
        WriteOutcome,
        StorageError,
    >)
        requires
            old(self).wf(),
            old(pool).wf(),
            offset + len <= usize::MAX,
        ensures
            final(self).wf(),
            final(pool).wf(),
            old(self).wrote(*old(pool), offset, len, *final(self), *final(pool), res),
    {
        let mut copies: Vec<PageCopy> = Vec::new();
        let mut flush_reqs: Vec<FlushReq> = Vec::new();
        let ghost table0 = self.table();
        if len == 0 {
            return Ok(WriteOutcome { written: 0, copies, flush_reqs });
        }
        if pool.page_bytes() < BLOCK_SIZE {
            return Err(StorageError::Bounds);
        }
        self.pattern.monitor_write_at(offset, len);
        assert(self.table() == table0);
        assert(self.detached() == old(self).detached());
        let pieces = locate_chunk(CHUNK_SIZE, offset, len);
        let ghost cs = CHUNK_SIZE as int;
        let ghost bs = BLOCK_SIZE as int;
        let ghost off = offset as int;
        let ghost n = len as int;
        let ghost full = old(self).takes_all(offset, len) && old(pool).free().len() >= pages_for(
            offset,
            len,
        );
        let mut written: usize = 0;
        let mut i: usize = 0;
        let ghost mut tables: Seq<Map<usize, ChunkWriters>> = seq![self.table()];
        let ghost mut seqs: Seq<u64> = seq![self.last_seq()];
        let ghost mut pools: Seq<DiskPagePool> = seq![*pool];
        let ghost mut took: Seq<usize> = Seq::empty();
        let ghost mut parts: Seq<Seq<PageCopy>> = Seq::empty();
        let ghost mut asked: Seq<Seq<FlushReq>> = Seq::empty();
        proof {
            if pieces.len() > 0 {
                assert(pieces[0] == piece(cs, off, n, 0));
            }
            assert(self.table() == old(self).table());
            assert(copies@ =~= joined(parts));
            assert(flush_reqs@ =~= joined(asked));
        }
        while i < pieces.len()
            invariant
                cs == CHUNK_SIZE,
                off == offset,
                n == len,
                n > 0,
                off + n <= usize::MAX,
                self.wf(),
                pool.wf(),
                pool.page_size() == old(pool).page_size(),
                pool.capacity() == old(pool).capacity(),
                pool.page_size() >= BLOCK_SIZE,
                self.inode() == old(self).inode(),
                self.length() == old(self).length(),
                self.manually_flushing() == old(self).manually_flushing(),
                self.flush_failure() == old(self).flush_failure(),
                self.detached() == old(self).detached(),
                self.last_seq() >= old(self).last_seq(),
                self.pattern() == pattern_step(old(self).pattern(), off, n),
                pieces.len() == piece_count(cs, off, n),
                forall|k: int| 0 <= k < pieces.len() ==> #[trigger] pieces[k] == piece(cs, off, n, k),
                i <= pieces.len(),
                i < pieces.len() ==> written <= pieces[i as int].buf_start_at,
                written <= n,
                forall|k: int|
                    0 <= k < copies.len() ==> (#[trigger] copies[k]).src_offset + copies[k].len
                        <= n,
                forall|k: int|
                    0 <= k < flush_reqs.len() ==> !((#[trigger] flush_reqs[k]) is ManualFlush),
                table0 == old(self).table(),
                bs == BLOCK_SIZE,
                full == (old(self).takes_all(offset, len) && old(pool).free().len() >= pages_for(
                    offset,
                    len,
                )),
                full && i < pieces.len() ==> written == pieces[i as int].buf_start_at
                    && pool.free().len() >= (n - written) / bs + 2 * (pieces.len() - i),
                full && i == pieces.len() ==> written == n,
                forall|c: usize|
                    (c < off / cs || c >= off / cs + i) ==> self.table().contains_key(c)
                        == #[trigger] table0.contains_key(c) && (table0.contains_key(c)
                        ==> self.table()[c] == table0[c]),
                tables.len() == i + 1,
                seqs.len() == i + 1,
                pools.len() == i + 1,
                took.len() == i,
                parts.len() == i,
                asked.len() == i,
                tables[0] == old(self).table(),
                seqs[0] == old(self).last_seq(),
                pools[0] == *old(pool),
                tables[i as int] == self.table(),
                seqs[i as int] == self.last_seq(),
                pools[i as int] == *pool,
                written == total_took(took),
                copies@ == joined(parts),
                flush_reqs@ == joined(asked),
                forall|k: int|
                    0 <= k < i ==> piece_wrote(
                        tables[k],
                        seqs[k],
                        pools[k],
                        piece(cs, off, n, k),
                        tables[k + 1],
                        seqs[k + 1],
                        pools[k + 1],
                        #[trigger] took[k],
                        parts[k],
                        asked[k],
                    ),
            decreases pieces.len() - i,
        {
            let ctx: ChunkWriteCtx = pieces[i];
            let ghost before = self.table();
            let ghost reqs_before = flush_reqs@;
            let ghost copies_before = copies@;
            proof {
                if full {
                    assert(old(self).has_taker(piece(cs, off, n, i as int)));
                    assert(self.has_taker(ctx));
                    assert(n - written >= ctx.need_write_len);
                }
            }
            proof {
                crate::locate::lemma_pieces_partition(cs, off, n, i as int);
                crate::locate::lemma_piece_within_chunk(cs, off, n, i as int);
                assert(ctx == piece(cs, off, n, i as int));
                if i + 1 < pieces.len() {
                    assert(pieces[i + 1] == piece(cs, off, n, i + 1));
                }
            }
            let took_now: usize = self.write_piece(pool, ctx, &mut copies, &mut flush_reqs);
            proof {
                let more_copies = copies@.skip(copies_before.len() as int);
                let more_reqs = flush_reqs@.skip(reqs_before.len() as int);
                assert(copies@ =~= copies_before + more_copies) by {
                    assert(copies@.take(copies_before.len() as int) == copies_before);
                    assert(copies@ =~= copies@.take(copies_before.len() as int) + more_copies);
                }
                assert(flush_reqs@ =~= reqs_before + more_reqs) by {
                    assert(flush_reqs@.take(reqs_before.len() as int) == reqs_before);
                    assert(flush_reqs@ =~= flush_reqs@.take(reqs_before.len() as int) + more_reqs);
                }
                assert forall|k: int| 0 <= k < copies.len() implies (#[trigger] copies[k]).src_offset
                    + copies[k].len <= n by {
                    if k < copies_before.len() {
                        assert(copies[k] == copies_before[k]);
                    }
                }
                assert forall|k: int| 0 <= k < flush_reqs.len() implies !((
                #[trigger] flush_reqs[k]) is ManualFlush) by {
                    if k < reqs_before.len() {
                        assert(flush_reqs[k] == reqs_before[k]);
                    }
                }
                assert forall|c: usize| (c < off / cs || c >= off / cs + i + 1) implies self.table().contains_key(
                    c,
                ) == #[trigger] table0.contains_key(c) && (table0.contains_key(c)
                    ==> self.table()[c] == table0[c]) by {
                    assert(c != ctx.chunk_idx);
                    assert(self.table().contains_key(c) == before.contains_key(c));
                }
                let tables0 = tables;
                let seqs0 = seqs;
                let pools0 = pools;
                let took0 = took;
                let parts0 = parts;
                let asked0 = asked;
                tables = tables.push(self.table());
                seqs = seqs.push(self.last_seq());
                pools = pools.push(*pool);
                took = took.push(took_now);
                parts = parts.push(more_copies);
                asked = asked.push(more_reqs);
                assert(took.drop_last() =~= took0);
                assert(parts.drop_last() =~= parts0);
                assert(asked.drop_last() =~= asked0);
                assert forall|k: int| 0 <= k < i + 1 implies piece_wrote(
                    tables[k],
                    seqs[k],
                    pools[k],
                    piece(cs, off, n, k),
                    tables[k + 1],
                    seqs[k + 1],
                    pools[k + 1],
                    #[trigger] took[k],
                    parts[k],
                    asked[k],
                ) by {
                    if k < i {
                        assert(tables[k] == tables0[k] && tables[k + 1] == tables0[k + 1]);
                        assert(seqs[k] == seqs0[k] && seqs[k + 1] == seqs0[k + 1]);
                        assert(pools[k] == pools0[k] && pools[k + 1] == pools0[k + 1]);
                        assert(took[k] == took0[k]);
                        assert(parts[k] == parts0[k] && asked[k] == asked0[k]);
                    }
                }
            }
            written = written + took_now;
            i = i + 1;
        }
        let may_new_len: usize = offset + written;
        let ghost table1 = self.table();
        if may_new_len > self.length {
            self.length = may_new_len;
        }
        proof {
            assert(self.table() == table1);
            assert(write_steps(offset, len, tables, seqs, pools, took, parts, asked));
        }
        Ok(WriteOutcome { written, copies, flush_reqs })
    }

    /// `after` is this file writer without the slice writers that are
    /// done, and without the chunks that only held such.
    pub open spec fn swept(&self, after: FileWriter) -> bool {
        &&& forall|c: usize|
            after.table().contains_key(c) <==> #[trigger] self.table().contains_key(c) && not_done(
                self.table()[c]@,
            ).len() > 0
        &&& forall|c: usize| #[trigger]
            after.table().contains_key(c) ==> after.table()[c]@ == not_done(self.table()[c]@)
        &&& after.detached() == not_done(self.detached())
        &&& after.inode() == self.inode()
        &&& after.length() == self.length()
        &&& after.pattern() == self.pattern()
        &&& after.last_seq() == self.last_seq()
    }

    /// Sweeps the writers that are done out of the table and out of the
    /// detached writers, hands their pages back to the pool, and drops the
    /// chunks that are left without writers.
    pub fn remove_done_slice_writer(&mut self, pool: &mut DiskPagePool)
        requires
            old(self).wf(),
            old(pool).wf(),
        ensures
            final(self).wf(),
            final(pool).wf(),
            final(pool).page_size() == old(pool).page_size(),
            final(pool).capacity() == old(pool).capacity(),
            final(pool).outstanding() <= old(pool).outstanding(),
            old(self).swept(*final(self)),
            final(self).manually_flushing() == old(self).manually_flushing(),
            final(self).flush_failure() == old(self).flush_failure(),
    {
        let ghost table0 = self.table();
        let ghost detached0 = self.detached();
        let keys = table_keys(&self.slice_writers);
        let mut i: usize = 0;
        while i < keys.len()
            invariant
                i <= keys.len(),
                keys@.no_duplicates(),
                forall|c: usize| keys@.contains(c) <==> table0.contains_key(c),
                table0 == old(self).table(),
                old(self).wf(),
                pool.wf(),
                pool.page_size() == old(pool).page_size(),
                pool.capacity() == old(pool).capacity(),
                pool.outstanding() <= old(pool).outstanding(),
                self.detached() == old(self).detached(),
                self.inode() == old(self).inode(),
                self.length() == old(self).length(),
                self.pattern() == old(self).pattern(),
                self.manually_flushing() == old(self).manually_flushing(),
                self.flush_failure() == old(self).flush_failure(),
                self.last_seq() == old(self).last_seq(),
                forall|c: usize| #[trigger]
                    self.table().contains_key(c) ==> table0.contains_key(c) && if keys@.subrange(
                        0,
                        i as int,
                    ).contains(c) {
                        self.table()[c]@ == not_done(table0[c]@) && not_done(table0[c]@).len() > 0
                    } else {
                        self.table()[c] == table0[c]
                    },
                forall|c: usize| #[trigger]
                    table0.contains_key(c) ==> (self.table().contains_key(c) <==> !keys@.subrange(
                        0,
                        i as int,
                    ).contains(c) || not_done(table0[c]@).len() > 0),
            decreases keys.len() - i,
        {
            let c: usize = keys[i];
            let ghost before = self.table();
            proof {
                assert(keys@.contains(c));
                assert(table0.contains_key(c));
                assert(!keys@.subrange(0, i as int).contains(c)) by {
                    if keys@.subrange(0, i as int).contains(c) {
                        let j = choose|j: int|
                            0 <= j < i && keys@.subrange(0, i as int)[j] == c;
                        assert(keys@[j] == keys@[i as int]);
                    }
                }
                assert(chunk_ok(c, table0[c]@, old(self).last_seq()));
            }
            match table_take(&mut self.slice_writers, c) {
                Some(ws) => {
                    let kept = sweep_done(ws, pool);
                    if kept.len() > 0 {
                        table_put(&mut self.slice_writers, c, kept);
                    }
                },
                None => {},
            }
            proof {
                let done = keys@.subrange(0, i as int);
                let next = keys@.subrange(0, i + 1);
                assert forall|c2: usize| next.contains(c2) <==> done.contains(c2) || c2 == c by {
                    if next.contains(c2) {
                        let j = choose|j: int| 0 <= j < next.len() && next[j] == c2;
                        if j < i {
                            assert(done[j] == c2);
                        }
                    }
                    if done.contains(c2) {
                        let j = choose|j: int| 0 <= j < done.len() && done[j] == c2;
                        assert(next[j] == c2);
                    }
                    if c2 == c {
                        assert(next[i as int] == c);
                    }
                }
                assert forall|c2: usize| #[trigger] self.table().contains_key(c2) implies table0.contains_key(
                    c2,
                ) && if next.contains(c2) {
                    self.table()[c2]@ == not_done(table0[c2]@) && not_done(table0[c2]@).len() > 0
                } else {
                    self.table()[c2] == table0[c2]
                } by {
                    if c2 != c {
                        assert(before.contains_key(c2));
                    }
                }
                assert forall|c2: usize| #[trigger] table0.contains_key(c2) implies (
                self.table().contains_key(c2) <==> !next.contains(c2) || not_done(
                    table0[c2]@,
                ).len() > 0) by {
                    if c2 != c {
                        assert(self.table().contains_key(c2) == before.contains_key(c2));
                    }
                }
            }
            i = i + 1;
        }
        let mut detached: Vec<SliceWriter> = Vec::new();
        let ghost table1 = self.table();
        core::mem::swap(&mut self.detached, &mut detached);
        let kept = sweep_done(detached, pool);
        self.detached = kept;
        proof {
            assert(self.table() == table1);
            assert(keys@.subrange(0, keys.len() as int) =~= keys@);
            lemma_not_done_members(detached0);
            assert forall|c: usize| #[trigger] self.table().contains_key(c) implies self.table()[c]@.len()
                > 0 && chunk_ok(c, self.table()[c]@, self.last_seq()) by {
                assert(keys@.contains(c) || !keys@.contains(c));
                if keys@.contains(c) {
                    assert(old(self).table().contains_key(c));
                    lemma_not_done_ok(c, table0[c]@, old(self).last_seq());
                } else {
                    assert(table0.contains_key(c));
                }
            }
            assert forall|j: int| 0 <= j < self.detached().len() implies (
            #[trigger] self.detached()[j]).wf() && self.detached()[j].seq()
                <= self.last_seq() by {
                let w = self.detached()[j];
                assert(detached0.contains(w));
                let k = choose|k: int| 0 <= k < detached0.len() && detached0[k] == w;
                assert(old(self).detached()[k].wf());
            }
            assert forall|c: usize|
                self.table().contains_key(c) <==> #[trigger] old(self).table().contains_key(c)
                    && not_done(old(self).table()[c]@).len() > 0 by {
                assert(keys@.contains(c) <==> table0.contains_key(c));
            }
        }
    }

    /// Whether a manual flush has nothing to start: one is under way
    /// already, or the table is empty.
    pub open spec fn flush_idle(&self) -> bool {
        self.manually_flushing() || forall|c: usize| !self.table().contains_key(c)
    }

    /// How the start of a manual flush relates the writer `self` before it
    /// to the writer `after` it and to the request that it hands out.
    ///
    /// A flush that has nothing to start changes nothing. Otherwise the
    /// table is emptied: all its writers, chunk after chunk in some order
    /// of the chunks, join the detached writers, and those that were
    /// neither frozen nor done are frozen and listed in the request. The
    /// flush is under way as long as the request lists a writer, and
    /// starts without a failure on record.
    pub open spec fn flushed_manually(&self, after: FileWriter, req: Option<FlushReq>) -> bool {
        if self.flush_idle() {
            req is None && after == *self
        } else {
            &&& forall|c: usize| !after.table().contains_key(c)
            &&& after.inode() == self.inode()
            &&& after.length() == self.length()
            &&& after.pattern() == self.pattern()
            &&& after.last_seq() == self.last_seq()
            &&& after.flush_failure() is None
            &&& exists|keys: Seq<usize>|
                {
                    &&& lists_chunks(self.table(), keys)
                    &&& after.detached() == self.detached() + #[trigger] drained(
                        self.table(),
                        keys,
                    )
                    &&& after.manually_flushing() == (drained_handles(self.table(), keys).len()
                        > 0)
                    &&& if drained_handles(self.table(), keys).len() > 0 {
                        req matches Some(FlushReq::ManualFlush { sws }) && sws@
                            == drained_handles(self.table(), keys)
                    } else {
                        req is None
                    }
                }
        }
    }

    /// Starts a manual flush of everything that is buffered.
    ///
    /// Hands out the request for the background flusher, if there is
    /// anything to flush. The flush stays under way until
    /// `finish_manual_flush` is told that the request was served.
    pub fn flush(&mut self) -> (req: Option<FlushReq>)
        requires
            old(self).wf(),
        ensures
            final(self).wf(),
            old(self).flushed_manually(*final(self), req),
    {
        if self.manually_flush || table_is_empty(&self.slice_writers) {
            return None;
        }
        self.manually_flush = true;
        self.flush_error = None;
        let ghost table0 = self.table();
        let ghost detached0 = self.detached();
        assert(table0 == old(self).table());
        let keys = table_keys(&self.slice_writers);
        let mut sws: Vec<SliceHandle> = Vec::new();
        let mut i: usize = 0;
        proof {
            assert(detached0 + drained(table0, keys@.subrange(0, 0)) =~= detached0);
            assert forall|j: int| 0 <= j < self.detached().len() implies (
            #[trigger] self.detached()[j]).wf() && self.detached()[j].seq()
                <= self.last_seq() by {
                assert(old(self).detached()[j].wf());
            }
        }
        while i < keys.len()
            invariant
                i <= keys.len(),
                lists_chunks(table0, keys@),
                table0 == old(self).table(),
                detached0 == old(self).detached(),
                old(self).wf(),
                self.inode() == old(self).inode(),
                self.length() == old(self).length(),
                self.pattern() == old(self).pattern(),
                self.last_seq() == old(self).last_seq(),
                self.manually_flushing(),
                self.flush_failure() is None,
                forall|c: usize| #[trigger]
                    self.table().contains_key(c) ==> table0.contains_key(c) && !keys@.subrange(
                        0,
                        i as int,
                    ).contains(c) && self.table()[c] == table0[c],
                forall|c: usize| #[trigger]
                    table0.contains_key(c) ==> (self.table().contains_key(c) <==> !keys@.subrange(
                        0,
                        i as int,
                    ).contains(c)),
                self.detached() == detached0 + drained(table0, keys@.subrange(0, i as int)),
                sws@ == drained_handles(table0, keys@.subrange(0, i as int)),
                forall|j: int|
                    0 <= j < self.detached().len() ==> (#[trigger] self.detached()[j]).wf()
                        && self.detached()[j].seq() <= self.last_seq(),
            decreases keys.len() - i,
        {
            let c: usize = keys[i];
            let ghost before = self.table();
            let ghost det_before = self.detached();
            proof {
                assert(keys@.contains(c));
                assert(table0.contains_key(c));
                assert(!keys@.subrange(0, i as int).contains(c)) by {
                    if keys@.subrange(0, i as int).contains(c) {
                        let j = choose|j: int|
                            0 <= j < i && keys@.subrange(0, i as int)[j] == c;
                        assert(keys@[j] == keys@[i as int]);
                    }
                }
                assert(before.contains_key(c));
                assert(chunk_ok(c, table0[c]@, old(self).last_seq()));
            }
            match table_take(&mut self.slice_writers, c) {
                Some(ws) => {
                    drain_chunk(ws, &mut self.detached, &mut sws);
                },
                None => {},
            }
            proof {
                let done = keys@.subrange(0, i as int);
                let next = keys@.subrange(0, i + 1);
                assert(next.drop_last() =~= done);
                assert(next.last() == c);
                assert forall|c2: usize| next.contains(c2) <==> done.contains(c2) || c2 == c by {
                    if next.contains(c2) {
                        let j = choose|j: int| 0 <= j < next.len() && next[j] == c2;
                        if j < i {
                            assert(done[j] == c2);
                        }
                    }
                    if done.contains(c2) {
                        let j = choose|j: int| 0 <= j < done.len() && done[j] == c2;
                        assert(next[j] == c2);
                    }
                    if c2 == c {
                        assert(next[i as int] == c);
                    }
                }
                assert(self.detached() =~= detached0 + drained(table0, next));
                assert forall|c2: usize| #[trigger] self.table().contains_key(c2) implies table0.contains_key(
                    c2,
                ) && !next.contains(c2) && self.table()[c2] == table0[c2] by {
                    assert(before.contains_key(c2));
                }
                assert forall|c2: usize| #[trigger] table0.contains_key(c2) implies (
                self.table().contains_key(c2) <==> !next.contains(c2)) by {
                    if c2 != c {
                        assert(self.table().contains_key(c2) == before.contains_key(c2));
                    }
                }
                assert forall|j: int| 0 <= j < self.detached().len() implies (
                #[trigger] self.detached()[j]).wf() && self.detached()[j].seq()
                    <= self.last_seq() by {
                    if j < det_before.len() {
                        assert(self.detached()[j] == det_before[j]);
                    } else {
                        let k = j - det_before.len();
                        assert(self.detached()[j] == claimed_all(table0[c]@)[k]);
                        assert(table0[c]@[k].wf());
                    }
                }
            }
            i = i + 1;
        }
        proof {
            assert(keys@.subrange(0, keys.len() as int) =~= keys@);
            assert forall|c: usize| !self.table().contains_key(c) by {
                if self.table().contains_key(c) {
                    assert(table0.contains_key(c));
                    assert(keys@.contains(c));
                }
            }
            assert(!old(self).flush_idle()) by {
                if forall|c: usize| !old(self).table().contains_key(c) {
                }
            }
        }
        if sws.len() == 0 {
            let ghost table1 = self.table();
            self.manually_flush = false;
            proof {
                assert(self.table() == table1);
                assert(self.detached() == detached0 + drained(table0, keys@));
            }
            None
        } else {
            Some(FlushReq::ManualFlush { sws })
        }
    }

    /// `after` is this file writer once it was told that an upload of a
    /// flush of the kind `kind` failed with `error`: only the record of the
    /// failure may have changed, and it holds `error` now if the flush was
    /// a full one, a manual flush is under way, and no failure was on
    /// record.
    pub open spec fn reported(&self, after: FileWriter, kind: FlushKind, error: StorageError) -> bool {
        &&& after.inode() == self.inode()
        &&& after.length() == self.length()
        &&& after.pattern() == self.pattern()
        &&& after.last_seq() == self.last_seq()
        &&& after.manually_flushing() == self.manually_flushing()
        &&& after.table() == self.table()
        &&& after.detached() == self.detached()
        &&& after.flush_failure() == if kind is Full && self.manually_flushing()
            && self.flush_failure() is None {
            Some(error)
        } else {
            self.flush_failure()
        }
    }

    /// `after` is this file writer once its manual flush was served, and
    /// `res` what the flush came to: the writers that are done are swept,
    /// no manual flush is under way, no failure is on record, and the
    /// failure that was on record is handed out.
    pub open spec fn finished(&self, after: FileWriter, res: Result<(), StorageError>) -> bool {
        &&& self.swept(after)
        &&& !after.manually_flushing()
        &&& after.flush_failure() is None
        &&& res == match self.flush_failure() {
            Some(e) => Err::<(), StorageError>(e),
            None => Ok::<(), StorageError>(()),
        }
    }

    /// Records that an upload of a flush of the kind `kind` failed with
    /// `error`, and says whether the failure is to reach the caller.
    ///
    /// The failure of a bulk flush is absorbed: the slice stays writable
    /// and its blocks are due again with the next flush. The failure of a
    /// full flush reaches the caller; while a manual flush is under way the
    /// first such failure is kept on record for `finish_manual_flush`.
    pub fn report_flush_error(&mut self, kind: FlushKind, error: StorageError) -> (bubbles: bool)
        ensures
            bubbles == (kind is Full),
            old(self).reported(*final(self), kind, error),
    {
        let ghost table0 = self.table();
        match kind {
            FlushKind::Bulk { .. } => false,
            FlushKind::Full => {
                if self.manually_flush && self.flush_error.is_none() {
                    self.flush_error = Some(error);
                }
                proof {
                    assert(self.table() == table0);
                }
                true
            },
        }
    }

    /// Records that the request of a manual flush was served: the flush is
    /// no longer under way, so that a later one can run, and the writers
    /// that are done are swept. Returns the first failure that was
    /// reported while the flush was under way, if any was, and forgets it.
    pub fn finish_manual_flush(&mut self, pool: &mut DiskPagePool) -> (res: Result<
        (),
        StorageError,
    >)
        requires
            old(self).wf(),
            old(pool).wf(),
        ensures
            final(self).wf(),
            final(pool).wf(),
            final(pool).page_size() == old(pool).page_size(),
            final(pool).capacity() == old(pool).capacity(),
            final(pool).outstanding() <= old(pool).outstanding(),
            old(self).finished(*final(self), res),
    {
        let ghost table0 = self.table();
        let ghost detached0 = self.detached();
        let failure = self.flush_error;
        self.manually_flush = false;
        self.flush_error = None;
        proof {
            assert(self.table() == table0);
            assert(self.detached() == detached0);
        }
        self.remove_done_slice_writer(pool);
        match failure {
            Some(e) => Err(e),
            None => Ok(()),
        }
    }

    /// Where the writer keeps the slice writer that `h` names: in the table
    /// if the chunk of `h` holds a writer with that sequence number, else
    /// among the detached writers, the first with that number.
    pub open spec fn place_of(&self, h: SliceHandle) -> WriterPlace {
        if self.table().contains_key(h.chunk_idx) && first_with_seq(
            self.table()[h.chunk_idx]@,
            h.seq,
            0,
        ) >= 0 {
            WriterPlace::InTable(first_with_seq(self.table()[h.chunk_idx]@, h.seq, 0) as usize)
        } else if first_with_seq(self.detached(), h.seq, 0) >= 0 {
            WriterPlace::Detached(first_with_seq(self.detached(), h.seq, 0) as usize)
        } else {
            WriterPlace::Missing
        }
    }

    /// The slice writer at `place`, for a place in chunk `chunk_idx`.
    pub open spec fn at_place(&self, place: WriterPlace, chunk_idx: usize) -> SliceWriter {
        match place {
            WriterPlace::InTable(i) => self.table()[chunk_idx]@[i as int],
            WriterPlace::Detached(j) => self.detached()[j as int],
            WriterPlace::Missing => arbitrary(),
        }
    }

    /// `after` is this file writer but for its slice writers.
    pub open spec fn same_file(&self, after: FileWriter) -> bool {
        &&& after.inode() == self.inode()
        &&& after.length() == self.length()
        &&& after.pattern() == self.pattern()
        &&& after.manually_flushing() == self.manually_flushing()
        &&& after.flush_failure() == self.flush_failure()
        &&& after.last_seq() == self.last_seq()
    }

    /// `after` is this file writer with the same slice writers in the same
    /// places.
    pub open spec fn unchanged(&self, after: FileWriter) -> bool {
        &&& self.same_file(after)
        &&& after.table() == self.table()
        &&& after.detached() == self.detached()
    }

    /// `after` is this file writer with `w` at `place` of chunk `chunk_idx`
    /// and everything else as it is.
    pub open spec fn replaced(
        &self,
        after: FileWriter,
        place: WriterPlace,
        chunk_idx: usize,
        w: SliceWriter,
    ) -> bool {
        &&& self.same_file(after)
        &&& match place {
            WriterPlace::InTable(i) => {
                &&& after.detached() == self.detached()
                &&& forall|c: usize|
                    after.table().contains_key(c) == #[trigger] self.table().contains_key(c)
                &&& after.table()[chunk_idx]@ == self.table()[chunk_idx]@.update(i as int, w)
                &&& forall|c: usize|
                    c != chunk_idx && #[trigger] self.table().contains_key(c) ==> after.table()[c]
                        == self.table()[c]
            },
            WriterPlace::Detached(j) => {
                &&& after.table() == self.table()
                &&& after.detached() == self.detached().update(j as int, w)
            },
            WriterPlace::Missing => after.table() == self.table() && after.detached()
                == self.detached(),
        }
    }

    /// How one step `op` of a flush on the slice writer that `h` names
    /// relates the file writer `self` and the pool before it to both after
    /// it, and to what the step returns: nothing happens without such a
    /// slice writer; else the step has its effect on that slice writer and
    /// on the pool, and everything else stays as it is.
    pub open spec fn stepped(
        &self,
        pool: DiskPagePool,
        h: SliceHandle,
        op: SliceOp,
        after: FileWriter,
        pool_after: DiskPagePool,
        res: Option<OpResult>,
    ) -> bool {
        &&& res is None <==> self.place_of(h) is Missing
        &&& res is None ==> self.unchanged(after) && pool_after == pool
        &&& res matches Some(r) ==> {
            let place = self.place_of(h);
            let w = after.at_place(place, h.chunk_idx);
            &&& self.replaced(after, place, h.chunk_idx, w)
            &&& op_effect(self.at_place(place, h.chunk_idx), pool, op, w, pool_after, r)
        }
    }

    /// Performs one step of a flush on the slice writer that `h` names.
    /// Does nothing, and says so, if there is no such writer.
    pub fn flush_step(&mut self, pool: &mut DiskPagePool, h: SliceHandle, op: SliceOp) -> (res:
        Option<OpResult>)
        requires
            old(self).wf(),
            old(pool).wf(),
        ensures
            final(self).wf(),
            final(pool).wf(),
            final(pool).page_size() == old(pool).page_size(),
            final(pool).capacity() == old(pool).capacity(),
            final(pool).outstanding() <= old(pool).outstanding(),
            old(self).stepped(*old(pool), h, op, *final(self), *final(pool), res),
    {
        let ghost table0 = self.table();
        let ghost detached0 = self.detached();
        let c: usize = h.chunk_idx;
        match table_take(&mut self.slice_writers, c) {
            Some(ws) => {
                let mut ws = ws;
                let ghost ws0 = ws@;
                proof {
                    assert(table0.contains_key(c));
                    assert(chunk_ok(c, ws0, old(self).last_seq()));
                }
                match find_seq(&ws, h.seq) {
                    Some(i) => {
                        proof {
                            assert(ws0[i as int].wf());
                        }
                        let r = apply_op(&mut ws[i], pool, op);
                        proof {
                            assert(ws@ =~= ws0.update(i as int, ws[i as int]));
                            assert forall|a: int| 0 <= a < ws.len() implies (#[trigger] ws[a]).wf()
                                && ws[a].chunk_idx() == c && ws[a].seq()
                                <= old(self).last_seq() by {
                                assert(ws0[a].wf());
                            }
                            assert forall|a: int, b: int| 0 <= a < b < ws.len() implies (
                            #[trigger] ws[a]).seq() < (#[trigger] ws[b]).seq() by {
                                assert(ws0[a].seq() < ws0[b].seq());
                            }
                        }
                        table_put(&mut self.slice_writers, c, ws);
                        proof {
                            assert forall|c2: usize| #[trigger]
                                self.table().contains_key(c2) implies self.table()[c2]@.len() > 0
                                && chunk_ok(c2, self.table()[c2]@, self.last_seq()) by {
                                if c2 != c {
                                    assert(table0.contains_key(c2));
                                }
                            }
                            assert forall|j: int| 0 <= j < self.detached().len() implies (
                            #[trigger] self.detached()[j]).wf() && self.detached()[j].seq()
                                <= self.last_seq() by {
                                assert(detached0[j].wf());
                            }
                            assert forall|c2: usize|
                                self.table().contains_key(c2) == #[trigger] table0.contains_key(
                                    c2,
                                ) by {}
                        }
                        return Some(r);
                    },
                    None => {
                        table_put(&mut self.slice_writers, c, ws);
                        proof {
                            assert(self.table() =~= table0);
                        }
                    },
                }
            },
            None => {
                proof {
                    assert(self.table() =~= table0);
                }
            },
        }
        let ghost table1 = self.table();
        match find_seq(&self.detached, h.seq) {
            Some(j) => {
                proof {
                    assert(detached0[j as int].wf());
                }
                let r = apply_op(&mut self.detached[j], pool, op);
                proof {
                    assert(self.table() == table1);
                    assert(self.detached() =~= detached0.update(j as int, self.detached()[j as int]));
                    assert forall|c2: usize| #[trigger]
                        self.table().contains_key(c2) implies self.table()[c2]@.len() > 0
                        && chunk_ok(c2, self.table()[c2]@, self.last_seq()) by {
                        assert(table0.contains_key(c2));
                    }
                    assert forall|k: int| 0 <= k < self.detached().len() implies (
                    #[trigger] self.detached()[k]).wf() && self.detached()[k].seq()
                        <= self.last_seq() by {
                        assert(detached0[k].wf());
                    }
                }
                Some(r)
            },
            None => None,
        }
    }

    /// Writes one piece of a write: takes the writers of the piece's chunk
    /// out of the table, lets them take the piece, and puts them back.
    /// Returns the number of bytes taken, which is zero when no writer
    /// takes the piece and no new sequence number is to be had.
    fn write_piece(
        &mut self,
        pool: &mut DiskPagePool,
        ctx: ChunkWriteCtx,
        copies: &mut Vec<PageCopy>,
        reqs: &mut Vec<FlushReq>,
    ) -> (written: usize)
        requires
            old(self).wf(),
            old(pool).wf(),
            old(pool).page_size() >= BLOCK_SIZE,
            ctx.chunk_offset + ctx.need_write_len <= CHUNK_SIZE,
            ctx.buf_start_at + ctx.need_write_len <= usize::MAX,
        ensures
            final(self).wf(),
            final(pool).wf(),
            final(pool).page_size() == old(pool).page_size(),
            final(pool).capacity() == old(pool).capacity(),
            written <= ctx.need_write_len,
            final(self).inode() == old(self).inode(),
            final(self).length() == old(self).length(),
            final(self).pattern() == old(self).pattern(),
            final(self).manually_flushing() == old(self).manually_flushing(),
            final(self).flush_failure() == old(self).flush_failure(),
            final(self).detached() == old(self).detached(),
            final(self).last_seq() >= old(self).last_seq(),
            final(copies).len() >= old(copies).len(),
            final(copies)@.take(old(copies).len() as int) == old(copies)@,
            forall|k: int|
                old(copies).len() <= k < final(copies).len() ==> (#[trigger] final(copies)[k]).src_offset + final(copies)[k].len <= ctx.buf_start_at + ctx.need_write_len,
            final(reqs).len() >= old(reqs).len(),
            final(reqs)@.take(old(reqs).len() as int) == old(reqs)@,
            forall|k: int|
                old(reqs).len() <= k < final(reqs).len()
                    ==> !((#[trigger] final(reqs)[k]) is ManualFlush),
            final(pool).free().len() <= old(pool).free().len(),
            final(pool).free().len() >= old(pool).free().len() - (ctx.need_write_len / BLOCK_SIZE
                + 2),
            old(self).has_taker(ctx) && old(pool).free().len() >= ctx.need_write_len / BLOCK_SIZE
                + 2 ==> written == ctx.need_write_len,
            piece_wrote(
                old(self).table(),
                old(self).last_seq(),
                *old(pool),
                ctx,
                final(self).table(),
                final(self).last_seq(),
                *final(pool),
                written,
                final(copies)@.skip(old(copies).len() as int),
                final(reqs)@.skip(old(reqs).len() as int),
            ),
    {
        let ghost table0 = self.table();
        let mut ws: ChunkWriters = match table_take(&mut self.slice_writers, ctx.chunk_idx) {
            Some(ws) => ws,
            None => Vec::new(),
        };
        proof {
            if table0.contains_key(ctx.chunk_idx) {
                assert(chunk_ok(ctx.chunk_idx, ws@, self.last_seq()));
            }
            assert(ws@ == writers_of(table0, ctx.chunk_idx));
        }
        let written = write_in_chunk(
            &mut ws,
            &mut self.last_seq,
            &self.seq_generate,
            pool,
            ctx,
            copies,
            reqs,
        );
        let ghost ws2 = ws@;
        if ws.len() > 0 {
            table_put(&mut self.slice_writers, ctx.chunk_idx, ws);
        }
        proof {
            assert(writers_of(self.table(), ctx.chunk_idx) == ws2);
            assert forall|c: usize| #[trigger]
                self.table().contains_key(c) implies self.table()[c]@.len() > 0 && chunk_ok(
                c,
                self.table()[c]@,
                self.last_seq(),
            ) by {
                if c != ctx.chunk_idx {
                    assert(table0.contains_key(c));
                    assert(self.table()[c] == table0[c]);
                    assert(chunk_ok(c, table0[c]@, old(self).last_seq()));
                }
            }
            assert forall|j: int| 0 <= j < self.detached().len() implies (
            #[trigger] self.detached()[j]).wf() && self.detached()[j].seq()
                <= self.last_seq() by {
                assert(old(self).detached()[j].wf());
            }
        }
        written
    }
}

/// Writes the piece `ctx` of a write to the writers `ws` of its chunk:
/// finds the piece's slice writer or, with a new number from `generator`,
/// makes one, lets it take the piece, and collects the copies and the flush
/// requests. Returns the number of bytes taken.
#[verifier::rlimit(60)]
fn write_in_chunk(
    ws: &mut ChunkWriters,
    last_seq: &mut u64,
    generator: &Sonyflake,
    pool: &mut DiskPagePool,
    ctx: ChunkWriteCtx,
    copies: &mut Vec<PageCopy>,
    reqs: &mut Vec<FlushReq>,
) -> (written: usize)
    requires
        chunk_ok(ctx.chunk_idx, old(ws)@, *old(last_seq)),
        old(pool).wf(),
        old(pool).page_size() >= BLOCK_SIZE,
        ctx.chunk_offset + ctx.need_write_len <= CHUNK_SIZE,
        ctx.buf_start_at + ctx.need_write_len <= usize::MAX,
    ensures
        chunk_ok(ctx.chunk_idx, final(ws)@, *final(last_seq)),
        *final(last_seq) >= *old(last_seq),
        final(pool).wf(),
        final(pool).page_size() == old(pool).page_size(),
        final(pool).capacity() == old(pool).capacity(),
        written <= ctx.need_write_len,
        final(copies).len() >= old(copies).len(),
        final(copies)@.take(old(copies).len() as int) == old(copies)@,
        forall|k: int|
            old(copies).len() <= k < final(copies).len() ==> (#[trigger] final(copies)[k]).src_offset
                + final(copies)[k].len <= ctx.buf_start_at + ctx.need_write_len,
        final(reqs).len() >= old(reqs).len(),
        final(reqs)@.take(old(reqs).len() as int) == old(reqs)@,
        forall|k: int|
            old(reqs).len() <= k < final(reqs).len() ==> !((#[trigger] final(reqs)[k]) is ManualFlush),
        final(pool).free().len() <= old(pool).free().len(),
        final(pool).free().len() >= old(pool).free().len() - (ctx.need_write_len / BLOCK_SIZE + 2),
        newest_taker(old(ws)@, ctx.chunk_offset as int) >= 0 && old(pool).free().len()
            >= ctx.need_write_len / BLOCK_SIZE + 2 ==> written == ctx.need_write_len,
        chunk_wrote(
            old(ws)@,
            *old(last_seq),
            *old(pool),
            ctx,
            final(ws)@,
            *final(last_seq),
            *final(pool),
            written,
            final(copies)@.skip(old(copies).len() as int),
            final(reqs)@.skip(old(reqs).len() as int),
        ),
{
    let ghost ws0 = ws@;
    let ghost off = ctx.chunk_offset as int;
    let early: bool = pool.mostly_free();
    let found = find_slice_writer(ws, ctx.chunk_offset, early, reqs);
    let ghost reqs1 = reqs@;
    let ghost ws1 = ws@;
    proof {
        lemma_early_reqs_full(ws0, newest_taker(ws0, off) + 1);
        assert(ws1 =~= searched(ws0, off, early));
        assert(reqs1 == old(reqs)@ + search_reqs(ws0, off, early));
        assert(reqs1.take(old(reqs).len() as int) =~= old(reqs)@);
        assert(reqs1.skip(old(reqs).len() as int) =~= search_reqs(ws0, off, early));
        assert forall|i: int| 0 <= i < ws1.len() implies (#[trigger] ws1[i]).wf()
            && ws1[i].chunk_idx() == ctx.chunk_idx && ws1[i].seq() <= *last_seq by {
            assert(ws0[i].wf());
        }
        assert forall|i: int, j: int| 0 <= i < j < ws1.len() implies (#[trigger] ws1[i]).seq() < (
        #[trigger] ws1[j]).seq() by {
            assert(ws0[i].seq() < ws0[j].seq());
        }
        assert(chunk_ok(ctx.chunk_idx, ws1, *last_seq));
        assert(copies@.take(old(copies).len() as int) =~= old(copies)@);
        assert(copies@.skip(old(copies).len() as int).len() == 0);
    }
    let target: Option<usize> = match found {
        Some(t) => Some(t),
        None => {
            let fresh = next_seq(generator);
            add_slice_writer(ws, ctx.chunk_idx, ctx.chunk_offset, fresh, last_seq)
        },
    };
    let ghost ws2 = ws@;
    match target {
        Some(t) => {
            proof {
                assert(ws2[t as int].takes(off));
                assert(ws2.len() == ws1.len() + if found is Some { 0int } else { 1int });
                assert forall|p: int| 0 <= p < ws1.len() implies ws2[p] == ws1[p] by {
                    if found is None {
                        assert(ws2 == ws1.push(ws2[t as int]));
                    }
                }
            }
            let res = write_to_chunk(ws, pool, ctx, t, reqs);
            proof {
                assert forall|i: int| 0 <= i < ws.len() implies (#[trigger] ws[i]).wf()
                    && ws[i].chunk_idx() == ctx.chunk_idx && ws[i].seq() <= *last_seq by {
                    assert(ws2[i].wf());
                }
                assert forall|i: int, j: int| 0 <= i < j < ws.len() implies (#[trigger] ws[i]).seq()
                    < (#[trigger] ws[j]).seq() by {
                    assert(ws2[i].seq() < ws2[j].seq());
                }
                assert(reqs@ == reqs1 + target_req(ws2[t as int], ws[t as int]));
                assert(reqs@.take(old(reqs).len() as int) =~= old(reqs)@);
                assert(reqs@.skip(old(reqs).len() as int) =~= search_reqs(ws0, off, early)
                    + target_req(ws2[t as int], ws[t as int]));
                assert forall|k: int| old(reqs).len() <= k < reqs.len() implies !((
                #[trigger] reqs[k]) is ManualFlush) by {
                    if k < reqs1.len() {
                        assert(reqs[k] == reqs1[k]);
                        if early {
                            assert(reqs1[k] == early_reqs(ws0, newest_taker(ws0, off) + 1)[k - old(reqs).len()]);
                        }
                    }
                }
            }
            match res {
                Ok(w) => {
                    proof {
                        lemma_written_bounds(ws2[t as int], *old(pool), ctx, ws[t as int], *pool, w);
                        lemma_target_took(ws2[t as int], *old(pool), ctx, ws[t as int], *pool, w);
                    }
                    append_copies(copies, &w.copies);
                    proof {
                        assert(copies@.take(old(copies).len() as int) =~= old(copies)@);
                        assert(copies@.skip(old(copies).len() as int) =~= w.copies@);
                        if found is None {
                            assert(is_new_writer(
                                ws2[t as int],
                                *last_seq,
                                ctx.chunk_idx,
                                ctx.chunk_offset,
                            ));
                        }
                    }
                    w.written
                },
                Err(_) => 0,
            }
        },
        None => {
            proof {
                assert forall|k: int| old(reqs).len() <= k < reqs.len() implies !((
                #[trigger] reqs[k]) is ManualFlush) by {
                    if early {
                        assert(reqs1[k] == early_reqs(ws0, newest_taker(ws0, off) + 1)[k - old(reqs).len()]);
                    }
                }
            }
            0
        },
    }
}

/// What `write_to_chunk` says of a piece that was taken is what
/// `target_took` says.
proof fn lemma_target_took(
    before: SliceWriter,
    pool: DiskPagePool,
    ctx: ChunkWriteCtx,
    after: SliceWriter,
    pool_after: DiskPagePool,
    w: Written,
)
    requires
        ({
            let wrote = before.with_buffer(after.buffer());
            after == wrote.with_flags(
                wrote.frozen() || (wrote.flushable() && wrote.buffer()@.length == CHUNK_SIZE),
                wrote.done(),
            )
        }),
        exists|inner: Result<Written, StorageError>|
            {
                &&& #[trigger] before.buffer().wrote(
                    pool,
                    (ctx.chunk_offset - before.offset_of_chunk()) as usize,
                    before.clipped(
                        (ctx.chunk_offset - before.offset_of_chunk()) as usize,
                        ctx.need_write_len,
                    ),
                    after.buffer(),
                    pool_after,
                    inner,
                )
                &&& inner matches Ok(iw) && w.written == iw.written && w.copies@ == shifted(
                    iw.copies@,
                    ctx.buf_start_at as int,
                )
            },
    ensures
        target_took(before, pool, ctx, after, pool_after, w.written, w.copies@),
{
    let boff = (ctx.chunk_offset - before.offset_of_chunk()) as usize;
    let want = before.clipped(boff, ctx.need_write_len);
    let inner = choose|inner: Result<Written, StorageError>|
        {
            &&& #[trigger] before.buffer().wrote(pool, boff, want, after.buffer(), pool_after, inner)
            &&& inner matches Ok(iw) && w.written == iw.written && w.copies@ == shifted(
                iw.copies@,
                ctx.buf_start_at as int,
            )
        };
    let iw = inner->Ok_0;
    assert(inner == Result::<Written, StorageError>::Ok(iw));
    assert(before.buffer().wrote(pool, boff, want, after.buffer(), pool_after, Ok(iw)));
}

/// The requests that the search for a target makes are full flushes.
pub proof fn lemma_early_reqs_full(ws: Seq<SliceWriter>, lo: int)
    ensures
        forall|k: int|
            0 <= k < early_reqs(ws, lo).len() ==> (#[trigger] early_reqs(ws, lo)[k]) is FlushFull,
    decreases ws.len() - lo,
{
    if 0 <= lo < ws.len() {
        lemma_early_reqs_full(ws, lo + 1);
    }
}

/// What a slice writer takes of a piece stays within the piece, and so
/// does every copy it asks for.
pub proof fn lemma_written_bounds(
    before: SliceWriter,
    pool: DiskPagePool,
    ctx: ChunkWriteCtx,
    after: SliceWriter,
    pool_after: DiskPagePool,
    w: Written,
)
    requires
        before.wf(),
        before.takes(ctx.chunk_offset as int),
        ctx.chunk_offset + ctx.need_write_len <= CHUNK_SIZE,
        ctx.buf_start_at + ctx.need_write_len <= usize::MAX,
        exists|inner: Result<Written, StorageError>|
            {
                &&& #[trigger] before.buffer().wrote(
                    pool,
                    (ctx.chunk_offset - before.offset_of_chunk()) as usize,
                    before.clipped(
                        (ctx.chunk_offset - before.offset_of_chunk()) as usize,
                        ctx.need_write_len,
                    ),
                    after.buffer(),
                    pool_after,
                    inner,
                )
                &&& inner matches Ok(iw) && w.written == iw.written && w.copies@ == shifted(
                    iw.copies@,
                    ctx.buf_start_at as int,
                )
            },
    ensures
        w.written <= ctx.need_write_len,
        forall|i: int|
            0 <= i < w.copies.len() ==> (#[trigger] w.copies[i]).src_offset + w.copies[i].len
                <= ctx.buf_start_at + ctx.need_write_len,
{
    let boff = (ctx.chunk_offset - before.offset_of_chunk()) as usize;
    let want = before.clipped(boff, ctx.need_write_len);
    let inner = choose|inner: Result<Written, StorageError>|
        {
            &&& #[trigger] before.buffer().wrote(pool, boff, want, after.buffer(), pool_after, inner)
            &&& inner matches Ok(iw) && w.written == iw.written && w.copies@ == shifted(
                iw.copies@,
                ctx.buf_start_at as int,
            )
        };
    let iw = inner->Ok_0;
    let bs = BLOCK_SIZE as int;
    let m = iw.copies.len() as int;
    assert(want <= ctx.need_write_len);
    if m > 0 {
        crate::locate::lemma_pieces_partition(bs, boff as int, want as int, m - 1);
    }
    assert forall|i: int| 0 <= i < w.copies.len() implies (#[trigger] w.copies[i]).src_offset
        + w.copies[i].len <= ctx.buf_start_at + ctx.need_write_len by {
        crate::locate::lemma_pieces_partition(bs, boff as int, want as int, i);
        crate::locate::lemma_piece_within_chunk(bs, boff as int, want as int, i);
        assert(iw.copies[i] == after.buffer().copy_for(piece(bs, boff as int, want as int, i)));
        assert(w.copies[i] == shifted(iw.copies@, ctx.buf_start_at as int)[i]);
    }
}

/// A write that stays within one chunk is one piece: what it returns and
/// what it leaves are what `piece_wrote` says of that piece.
pub proof fn lemma_write_one_piece(
    before: FileWriter,
    pool: DiskPagePool,
    offset: usize,
    len: usize,
    after: FileWriter,
    pool_after: DiskPagePool,
    res: Result<WriteOutcome, StorageError>,
)
    requires
        before.wrote(pool, offset, len, after, pool_after, res),
        res is Ok,
        piece_count(CHUNK_SIZE as int, offset as int, len as int) == 1,
    ensures
        piece_wrote(
            before.table(),
            before.last_seq(),
            pool,
            piece(CHUNK_SIZE as int, offset as int, len as int, 0),
            after.table(),
            after.last_seq(),
            pool_after,
            res->Ok_0.written,
            res->Ok_0.copies@,
            res->Ok_0.flush_reqs@,
        ),
{
    let o = res->Ok_0;
    let (tables, seqs, pools, took, copies, reqs) = choose|
        tables: Seq<Map<usize, ChunkWriters>>,
        seqs: Seq<u64>,
        pools: Seq<DiskPagePool>,
        took: Seq<usize>,
        copies: Seq<Seq<PageCopy>>,
        reqs: Seq<Seq<FlushReq>>,
    |
        {
            &&& #[trigger] write_steps(offset, len, tables, seqs, pools, took, copies, reqs)
            &&& tables[0] == before.table()
            &&& seqs[0] == before.last_seq()
            &&& pools[0] == pool
            &&& tables.last() == after.table()
            &&& seqs.last() == after.last_seq()
            &&& pools.last() == pool_after
            &&& o.written == total_took(took)
            &&& o.copies@ == joined(copies)
            &&& o.flush_reqs@ == joined(reqs)
        };
    assert(took.drop_last().len() == 0);
    assert(total_took(took.drop_last()) == 0);
    assert(total_took(took) == took[0]);
    assert(joined(copies.drop_last()).len() == 0);
    assert(joined(copies) =~= copies[0]);
    assert(joined(reqs.drop_last()).len() == 0);
    assert(joined(reqs) =~= reqs[0]);
}

/// Appending to the one slice writer of a chunk keeps it the one.
///
/// Where a chunk has one slice writer, which starts at the chunk's start,
/// takes a write at its end and is not done, and the pool has the pages, a
/// write that
/// starts at the writer's end and stays within the chunk is taken in full
/// by that writer; no writer is added. While the slice stays short of the
/// chunk's end the writer goes on taking writes at its new end. When the
/// slice fills the chunk the writer is frozen, and the write asks for one
/// full flush of it and for no other flush.
pub proof fn lemma_sequential_write(
    before: FileWriter,
    pool: DiskPagePool,
    offset: usize,
    len: usize,
    after: FileWriter,
    pool_after: DiskPagePool,
    res: Result<WriteOutcome, StorageError>,
)
    requires
        before.wf(),
        pool.wf(),
        before.wrote(pool, offset, len, after, pool_after, res),
        len > 0,
        pool.page_size() >= BLOCK_SIZE,
        offset % CHUNK_SIZE + len <= CHUNK_SIZE,
        before.appending((offset / CHUNK_SIZE) as usize, (offset % CHUNK_SIZE) as int),
        pool.free().len() >= len / BLOCK_SIZE + 2,
    ensures
        res is Ok,
        res->Ok_0.written == len,
        after.length() == if before.length() >= offset + len {
            before.length()
        } else {
            offset + len
        },
        after.last_seq() == before.last_seq(),
        ({
            let c = (offset / CHUNK_SIZE) as usize;
            let w = writers_of(before.table(), c)[0];
            let w2 = writers_of(after.table(), c)[0];
            let end = offset % CHUNK_SIZE + len;
            &&& writers_of(after.table(), c).len() == 1
            &&& w2.seq() == w.seq()
            &&& w2.offset_of_chunk() == 0
            &&& w2.buffer()@.length == end
            &&& w2.buffer()@.flushed_length == w.buffer()@.flushed_length
            &&& w2.frozen() == (end == CHUNK_SIZE)
            &&& end < CHUNK_SIZE ==> after.appending(c, end)
            &&& res->Ok_0.flush_reqs@ == if end == CHUNK_SIZE {
                seq![FlushReq::FlushFull(w.handle())]
            } else if end - w.buffer()@.flushed_length > BLOCK_SIZE {
                seq![FlushReq::FlushBulk { sw: w.handle(), offset: end as usize }]
            } else {
                Seq::<FlushReq>::empty()
            }
        }),
{
    let cs = CHUNK_SIZE as int;
    let c = (offset / CHUNK_SIZE) as usize;
    let ctx = piece(cs, offset as int, len as int, 0);
    let ws = writers_of(before.table(), c);
    let w = ws[0];
    crate::locate::lemma_pieces_partition(cs, offset as int, len as int, 0);
    crate::locate::lemma_piece_within_chunk(cs, offset as int, len as int, 0);
    assert(piece_count(cs, offset as int, len as int) == 1) by {
        lemma_one_chunk(offset as int, len as int);
    }
    assert(ctx.chunk_idx == c);
    assert(ctx.chunk_offset == offset % CHUNK_SIZE) by {
        lemma_one_chunk(offset as int, len as int);
    }
    assert(ctx.need_write_len == len);
    assert(newest_taker(ws, ctx.chunk_offset as int) == 0) by {
        assert(ws.last() == ws[0]);
    }
    assert(before.has_taker(ctx));
    assert(before.takes_all(offset, len));
    lemma_write_one_piece(before, pool, offset, len, after, pool_after, res);
    let o = res->Ok_0;
    let ws2 = writers_of(after.table(), c);
    let early = pool.free().len() * 10 > pool.total() * 7;
    let found = searched(ws, ctx.chunk_offset as int, early);
    assert(!flushed_early(1, 0, 0, early));
    assert(before.table().contains_key(c));
    assert(w.wf());
    assert(found[0] == w.with_flags(w.frozen(), w.done()));
    assert(search_reqs(ws, ctx.chunk_offset as int, early).len() == 0) by {
        assert(early_reqs(ws, 1).len() == 0);
    }
    let w2 = ws2[0];
    assert(target_took(found[0], pool, ctx, w2, pool_after, o.written, o.copies@));
    assert(o.flush_reqs@ =~= target_req(found[0], w2));
}

/// Whether the `i`-th of a run of writes of `size` bytes each, the first at
/// `start`, leads from the file writer `fws[i]` to `fws[i + 1]` and returns
/// `res[i]`, with a pool that has the pages for it.
pub open spec fn run_step(
    fws: Seq<FileWriter>,
    pools: Seq<DiskPagePool>,
    pools_after: Seq<DiskPagePool>,
    res: Seq<Result<WriteOutcome, StorageError>>,
    start: usize,
    size: usize,
    i: int,
) -> bool {
    &&& fws[i].wf()
    &&& pools[i].wf()
    &&& pools[i].page_size() >= BLOCK_SIZE
    &&& pools[i].free().len() >= size / BLOCK_SIZE + 2
    &&& fws[i].wrote(
        pools[i],
        (start + i * size) as usize,
        size,
        fws[i + 1],
        pools_after[i],
        res[i],
    )
}

/// A run of writes to one chunk, each of `size` bytes and each starting
/// where the one before ended, with nothing else done to the file writer in
/// between, goes to one slice writer throughout.
///
/// Where the chunk has one slice writer before the run, which starts at the
/// chunk's start and takes a write at its end, and the pool has the pages
/// at every write: every write of the run takes all its bytes, and after
/// every one of them the chunk still has that one writer, now as long as
/// what was written.
pub proof fn lemma_sequential_run(
    fws: Seq<FileWriter>,
    pools: Seq<DiskPagePool>,
    pools_after: Seq<DiskPagePool>,
    res: Seq<Result<WriteOutcome, StorageError>>,
    start: usize,
    size: usize,
    k: int,
)
    requires
        size > 0,
        fws.len() == res.len() + 1,
        pools.len() == res.len(),
        pools_after.len() == res.len(),
        start % CHUNK_SIZE + res.len() * size <= CHUNK_SIZE,
        start + res.len() * size <= usize::MAX,
        fws[0].appending((start / CHUNK_SIZE) as usize, (start % CHUNK_SIZE) as int),
        forall|i: int|
            0 <= i < res.len() ==> #[trigger] run_step(fws, pools, pools_after, res, start, size, i),
        0 <= k < res.len(),
    ensures
        res[k] is Ok,
        res[k]->Ok_0.written == size,
        fws[k + 1].last_seq() == fws[0].last_seq(),
        ({
            let c = (start / CHUNK_SIZE) as usize;
            let ws = writers_of(fws[k + 1].table(), c);
            &&& ws.len() == 1
            &&& ws[0].seq() == writers_of(fws[0].table(), c)[0].seq()
            &&& ws[0].offset_of_chunk() == 0
            &&& ws[0].buffer()@.length == start % CHUNK_SIZE + (k + 1) * size
            &&& start % CHUNK_SIZE + (k + 1) * size < CHUNK_SIZE ==> fws[k + 1].appending(
                c,
                start % CHUNK_SIZE + (k + 1) * size,
            )
        }),
    decreases k,
{
    let cs = CHUNK_SIZE as int;
    let c = (start / CHUNK_SIZE) as usize;
    let base = (start % CHUNK_SIZE) as int;
    let n = res.len() as int;
    let sz = size as int;
    assert((k + 1) * sz <= n * sz && k * sz + sz == (k + 1) * sz && k * sz >= 0) by (nonlinear_arith)
        requires
            0 <= k < n,
            sz > 0,
    ;
    let offset = (start + k * sz) as usize;
    assert(run_step(fws, pools, pools_after, res, start, size, k));
    assert(start == c * cs + base) by {
        vstd::arithmetic::div_mod::lemma_fundamental_div_mod(start as int, cs);
        assert(c * cs == cs * c) by (nonlinear_arith);
    }
    vstd::arithmetic::div_mod::lemma_fundamental_div_mod_converse(
        offset as int,
        cs,
        c as int,
        base + k * sz,
    );
    assert(offset / CHUNK_SIZE == c);
    assert(offset % CHUNK_SIZE == base + k * sz);
    if k > 0 {
        lemma_sequential_run(fws, pools, pools_after, res, start, size, k - 1);
        assert((k - 1) * sz + sz == k * sz) by (nonlinear_arith);
        assert(fws[k].appending(c, base + k * sz));
    } else {
        assert(k * sz == 0) by (nonlinear_arith)
            requires
                k == 0,
        ;
    }
    assert(fws[k].appending(c, base + k * sz));
    lemma_sequential_write(fws[k], pools[k], offset, size, fws[k + 1], pools_after[k], res[k]);
}

/// A write that ends within the chunk in which it starts is one piece,
/// which starts at the write's place in the chunk.
proof fn lemma_one_chunk(offset: int, len: int)
    requires
        offset >= 0,
        len > 0,
        offset % (CHUNK_SIZE as int) + len <= CHUNK_SIZE,
    ensures
        piece_count(CHUNK_SIZE as int, offset, len) == 1,
        offset - (offset / (CHUNK_SIZE as int)) * CHUNK_SIZE == offset % (CHUNK_SIZE as int),
{
    let cs = CHUNK_SIZE as int;
    assert(offset == (offset / cs) * cs + offset % cs) by (nonlinear_arith)
        requires
            cs > 0,
    ;
    assert((offset + len - 1) / cs == offset / cs) by (nonlinear_arith)
        requires
            cs > 0,
            offset >= 0,
            len > 0,
            offset % cs + len <= cs,
            offset == (offset / cs) * cs + offset % cs,
    ;
}

/// The failure of a manual flush reaches the caller: where a manual flush
/// starts, an upload of one of its full flushes is then reported to have
/// failed with `error`, and no other failure was reported before, the end
/// of the manual flush hands out `error`; and no manual flush is under way
/// afterwards, so that the next one can start.
pub proof fn lemma_manual_flush_failure_bubbles(
    a: FileWriter,
    b: FileWriter,
    c: FileWriter,
    d: FileWriter,
    req: Option<FlushReq>,
    error: StorageError,
    res: Result<(), StorageError>,
)
    requires
        a.flushed_manually(b, req),
        req is Some,
        b.reported(c, FlushKind::Full, error),
        c.finished(d, res),
    ensures
        res == Err::<(), StorageError>(error),
        !d.manually_flushing(),
        d.flush_failure() is None,
{
}

/// A manual flush that starts leaves no writer in the table: every slice
/// writer that the table held when the flush began is out of it when the
/// call returns. (A call that finds a manual flush under way starts none.)
pub proof fn lemma_manual_flush_empties_table(
    before: FileWriter,
    after: FileWriter,
    req: Option<FlushReq>,
)
    requires
        before.flushed_manually(after, req),
        !before.manually_flushing(),
    ensures
        forall|c: usize| !after.table().contains_key(c),
{
    if before.flush_idle() {
        assert(after == before);
    }
}

/// Flushing twice is flushing once: a second manual flush right after the
/// first changes nothing and asks for no upload.
pub proof fn lemma_manual_flush_idempotent(
    a: FileWriter,
    b: FileWriter,
    c: FileWriter,
    first: Option<FlushReq>,
    second: Option<FlushReq>,
)
    requires
        a.flushed_manually(b, first),
        b.flushed_manually(c, second),
    ensures
        second is None,
        c == b,
{
    if a.flush_idle() {
        assert(b == a);
    }
    assert(b.flush_idle());
}

} // verus!
