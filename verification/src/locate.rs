//! Cutting a write into the pieces that fall into each chunk.
use vstd::prelude::*;
use vstd::arithmetic::div_mod::lemma_fundamental_div_mod;
use vstd::arithmetic::div_mod::lemma_fundamental_div_mod_converse;

verus! {

/// The part of one write that lands in one chunk.
#[derive(Debug, Eq, PartialEq, Clone, Copy, Structural)]
pub struct ChunkWriteCtx {
    /// Where in the file this part starts.
    pub file_offset: usize,
    /// The chunk it lands in.
    pub chunk_idx: usize,
    /// Where in that chunk it starts.
    pub chunk_offset: usize,
    /// How many bytes it holds.
    pub need_write_len: usize,
    /// Where in the caller's buffer its bytes start.
    pub buf_start_at: usize,
}

/// Number of chunks that the bytes `[off, off + n)` touch.
pub open spec fn piece_count(cs: int, off: int, n: int) -> int {
    if n <= 0 {
        0
    } else {
        (off + n - 1) / cs - off / cs + 1
    }
}

/// File offset at which the `i`-th piece of a write at `off` starts.
pub open spec fn piece_start(cs: int, off: int, i: int) -> int {
    if i == 0 {
        off
    } else {
        (off / cs + i) * cs
    }
}

/// File offset at which the `i`-th piece of the write `[off, off + n)` ends.
pub open spec fn piece_end(cs: int, off: int, n: int, i: int) -> int {
    if off + n <= (off / cs + i + 1) * cs {
        off + n
    } else {
        (off / cs + i + 1) * cs
    }
}

/// The `i`-th piece of the write `[off, off + n)` over chunks of `cs` bytes.
pub open spec fn piece(cs: int, off: int, n: int, i: int) -> ChunkWriteCtx {
    ChunkWriteCtx {
        file_offset: piece_start(cs, off, i) as usize,
        chunk_idx: (off / cs + i) as usize,
        chunk_offset: (piece_start(cs, off, i) - (off / cs + i) * cs) as usize,
        need_write_len: (piece_end(cs, off, n, i) - piece_start(cs, off, i)) as usize,
        buf_start_at: (piece_start(cs, off, i) - off) as usize,
    }
}

proof fn lemma_mul_step(q: int, cs: int)
    ensures
        (q + 1) * cs == q * cs + cs,
{
    assert((q + 1) * cs == q * cs + cs) by (nonlinear_arith);
}

proof fn lemma_div_of_multiple(q: int, cs: int)
    requires
        cs > 0,
    ensures
        (q * cs) / cs == q,
        (q * cs) % cs == 0,
{
    lemma_fundamental_div_mod_converse(q * cs, cs, q, 0);
}

proof fn lemma_floor_bounds(x: int, cs: int)
    requires
        cs > 0,
    ensures
        (x / cs) * cs <= x < (x / cs + 1) * cs,
        x % cs == x - (x / cs) * cs,
{
    lemma_fundamental_div_mod(x, cs);
    lemma_mul_step(x / cs, cs);
    assert(cs * (x / cs) == (x / cs) * cs) by (nonlinear_arith);
}

proof fn lemma_div_inside(x: int, q: int, cs: int)
    requires
        cs > 0,
        q * cs <= x < (q + 1) * cs,
    ensures
        x / cs == q,
        x % cs == x - q * cs,
{
    lemma_mul_step(q, cs);
    assert(cs * q == q * cs) by (nonlinear_arith);
    lemma_fundamental_div_mod_converse(x, cs, q, x - q * cs);
}

proof fn lemma_mul_mono(a: int, b: int, cs: int)
    requires
        cs > 0,
        a <= b,
    ensures
        a * cs <= b * cs,
{
    assert(a * cs <= b * cs) by (nonlinear_arith)
        requires
            cs > 0,
            a <= b,
    ;
}

/// Cuts the write of `expect_write_len` bytes at `offset` into one piece per
/// chunk it touches, in file order.
pub fn locate_chunk(chunk_size: usize, offset: usize, expect_write_len: usize) -> (pieces: Vec<
    ChunkWriteCtx,
>)
    requires
        chunk_size > 0,
        offset + expect_write_len <= usize::MAX,
    ensures
        pieces.len() == piece_count(chunk_size as int, offset as int, expect_write_len as int),
        forall|i: int|
            0 <= i < pieces.len() ==> #[trigger] pieces[i] == piece(
                chunk_size as int,
                offset as int,
                expect_write_len as int,
                i,
            ),
{
    let mut pieces: Vec<ChunkWriteCtx> = Vec::new();
    let mut file_pos: usize = offset;
    let mut left: usize = expect_write_len;
    let ghost cs = chunk_size as int;
    let ghost off = offset as int;
    let ghost n = expect_write_len as int;
    let ghost q = off / cs;
    while left > 0
        invariant
            cs == chunk_size as int,
            off == offset as int,
            n == expect_write_len as int,
            q == off / cs,
            cs > 0,
            off + n <= usize::MAX,
            file_pos + left == off + n,
            left <= n,
            left > 0 ==> file_pos == piece_start(cs, off, pieces.len() as int),
            left == 0 && n > 0 ==> pieces.len() > 0 && (q + pieces.len() - 1) * cs <= off + n - 1
                < (q + pieces.len()) * cs,
            n == 0 ==> pieces.len() == 0,
            forall|i: int| 0 <= i < pieces.len() ==> #[trigger] pieces[i] == piece(cs, off, n, i),
        decreases left,
    {
        let ghost i = pieces.len() as int;
        proof {
            lemma_floor_bounds(off, cs);
            lemma_mul_mono(q, q + i, cs);
            lemma_mul_step(q + i, cs);
            if i == 0 {
                lemma_div_inside(file_pos as int, q, cs);
            } else {
                lemma_div_of_multiple(q + i, cs);
            }
        }
        let chunk_idx: usize = file_pos / chunk_size;
        let chunk_pos: usize = file_pos % chunk_size;
        let room: usize = chunk_size - chunk_pos;
        let max_can_write: usize = if room < left {
            room
        } else {
            left
        };
        let ctx = ChunkWriteCtx {
            file_offset: file_pos,
            chunk_idx,
            chunk_offset: chunk_pos,
            need_write_len: max_can_write,
            buf_start_at: file_pos - offset,
        };
        proof {
            assert(chunk_idx == q + i);
            assert(chunk_pos == file_pos - (q + i) * cs);
            assert(file_pos + max_can_write == piece_end(cs, off, n, i));
            assert(ctx == piece(cs, off, n, i));
        }
        pieces.push(ctx);
        file_pos = file_pos + max_can_write;
        left = left - max_can_write;
    }
    proof {
        if n > 0 {
            lemma_div_inside(off + n - 1, q + pieces.len() - 1, cs);
        }
    }
    pieces
}

/// The pieces of a write tile it: the first starts at the write's offset,
/// each next one starts where the one before ends, the last ends where the
/// write ends, and none is empty.
pub proof fn lemma_pieces_partition(cs: int, off: int, n: int, i: int)
    requires
        cs > 0,
        off >= 0,
        n > 0,
        0 <= i < piece_count(cs, off, n),
    ensures
        piece_start(cs, off, 0) == off,
        piece_start(cs, off, i) < piece_end(cs, off, n, i),
        i + 1 < piece_count(cs, off, n) ==> piece_end(cs, off, n, i) == piece_start(
            cs,
            off,
            i + 1,
        ),
        i + 1 == piece_count(cs, off, n) ==> piece_end(cs, off, n, i) == off + n,
{
    let q = off / cs;
    let last = (off + n - 1) / cs;
    lemma_floor_bounds(off, cs);
    lemma_floor_bounds(off + n - 1, cs);
    lemma_mul_step(q + i, cs);
    lemma_mul_step(last, cs);
    lemma_mul_mono(q, q + i, cs);
    lemma_mul_mono(q + i, last, cs);
    if i + 1 < piece_count(cs, off, n) {
        lemma_mul_mono(q + i + 1, last, cs);
    }
}

/// Every piece of a write lies within one chunk: the chunk that holds the
/// piece's first byte, at the position that byte has in the chunk.
pub proof fn lemma_piece_within_chunk(cs: int, off: int, n: int, i: int)
    requires
        cs > 0,
        off >= 0,
        n > 0,
        0 <= i < piece_count(cs, off, n),
    ensures
        off / cs + i == piece_start(cs, off, i) / cs,
        piece_start(cs, off, i) - (off / cs + i) * cs == piece_start(cs, off, i) % cs,
        piece_start(cs, off, i) % cs + (piece_end(cs, off, n, i) - piece_start(cs, off, i))
            <= cs,
{
    let q = off / cs;
    lemma_floor_bounds(off, cs);
    lemma_mul_step(q + i, cs);
    if i == 0 {
        lemma_div_inside(off, q, cs);
    } else {
        lemma_div_of_multiple(q + i, cs);
    }
}

/// A write of `n > 1` bytes whose first byte is the last byte of a chunk is
/// cut in two: one byte in that chunk, the other `n - 1` in the next.
pub proof fn lemma_write_at_chunk_edge(cs: int, k: int, n: int)
    requires
        cs > 0,
        k >= 0,
        1 < n <= cs + 1,
    ensures
        piece_count(cs, (k + 1) * cs - 1, n) == 2,
        piece_end(cs, (k + 1) * cs - 1, n, 0) - piece_start(cs, (k + 1) * cs - 1, 0) == 1,
        piece_end(cs, (k + 1) * cs - 1, n, 1) - piece_start(cs, (k + 1) * cs - 1, 1) == n - 1,
{
    let off = (k + 1) * cs - 1;
    lemma_mul_step(k, cs);
    lemma_mul_step(k + 1, cs);
    lemma_mul_step(k + 2, cs);
    lemma_div_inside(off, k, cs);
    lemma_div_inside(off + n - 1, k + 1, cs);
}

} // verus!
