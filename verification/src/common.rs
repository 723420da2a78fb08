//! Sizes and limits shared by the whole data path.
use vstd::prelude::*;

verus! {

/// Size of a block, the unit of object upload: 4 MiB.
pub const BLOCK_SIZE: usize = 4194304;

/// Size of a chunk, the unit a file is cut into: 64 MiB.
pub const CHUNK_SIZE: usize = 67108864;

/// Number of blocks in one chunk.
pub const BLOCKS_PER_CHUNK: usize = 16;

/// Files end before this offset: `CHUNK_SIZE << 31`.
pub const MAX_FILE_SIZE: u64 = 144115188075855872;

/// Longest name of a directory entry, in bytes.
pub const MAX_NAME_LENGTH: usize = 255;

/// Permission bit asking for read access.
pub const MODE_MASK_R: u8 = 4;

/// Permission bit asking for write access.
pub const MODE_MASK_W: u8 = 2;

/// Permission bit asking for execute (or search) access.
pub const MODE_MASK_X: u8 = 1;

/// Index of the chunk that holds byte `offset` of a file.
pub open spec fn spec_chunk_idx(offset: int, chunk_size: int) -> int {
    offset / chunk_size
}

/// Position of byte `offset` of a file inside its chunk.
pub open spec fn spec_chunk_offset(offset: int, chunk_size: int) -> int {
    offset % chunk_size
}

/// Index of the chunk that holds byte `offset` of a file.
pub fn cal_chunk_idx(offset: usize, chunk_size: usize) -> (idx: usize)
    requires
        chunk_size > 0,
    ensures
        idx == spec_chunk_idx(offset as int, chunk_size as int),
{
    offset / chunk_size
}

/// Position of byte `offset` of a file inside its chunk.
pub fn cal_chunk_offset(offset: usize, chunk_size: usize) -> (pos: usize)
    requires
        chunk_size > 0,
    ensures
        pos == spec_chunk_offset(offset as int, chunk_size as int),
        pos < chunk_size,
{
    offset % chunk_size
}

/// A chunk is cut into whole blocks.
pub proof fn lemma_block_layout()
    ensures
        BLOCKS_PER_CHUNK * BLOCK_SIZE == CHUNK_SIZE,
        CHUNK_SIZE % BLOCK_SIZE == 0,
{
}

} // verus!
