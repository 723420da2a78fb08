//! The table of a file writer: for each chunk, its slice writers in the
//! order of their sequence numbers.
use vstd::prelude::*;
use dashmap::DashMap;
use crate::slice_writer::SliceWriter;

verus! {

#[verifier::external_type_specification]
#[verifier::external_body]
#[verifier::reject_recursive_types(K)]
#[verifier::reject_recursive_types(V)]
#[verifier::reject_recursive_types(S)]
pub struct ExDashMap<K, V, S>(DashMap<K, V, S>);

/// The slice writers of one chunk, lowest sequence number first.
pub type ChunkWriters = Vec<SliceWriter>;

/// The table from chunk index to the chunk's slice writers.
pub type ChunkTable = DashMap<usize, ChunkWriters>;

/// What a table holds: the slice writers of each chunk that has any.
pub uninterp spec fn chunk_table(m: ChunkTable) -> Map<usize, ChunkWriters>;

/// `DashMap::new`: a table without entries.
#[verifier::external_body]
pub(crate) fn table_new() -> (table: ChunkTable)
    ensures
        chunk_table(table) == (Map::<usize, ChunkWriters>::empty()),
{
    DashMap::new()
}

/// `DashMap::remove`: takes the entry of `chunk_idx` out of the table and
/// hands its value over, or nothing if the table has no such entry.
#[verifier::external_body]
pub(crate) fn table_take(m: &mut ChunkTable, chunk_idx: usize) -> (taken:
    Option<ChunkWriters>)
    ensures
        chunk_table(*final(m)) == chunk_table(*old(m)).remove(chunk_idx),
        taken == if chunk_table(*old(m)).contains_key(chunk_idx) {
            Some(chunk_table(*old(m))[chunk_idx])
        } else {
            None
        },
{
    m.remove(&chunk_idx).map(|entry| entry.1)
}

/// `DashMap::insert`: sets the entry of `chunk_idx` to `writers` and hands
/// over the value that the entry had before, if there was one.
#[verifier::external_body]
pub(crate) fn table_put(
    m: &mut ChunkTable,
    chunk_idx: usize,
    writers: ChunkWriters,
) -> (before: Option<ChunkWriters>)
    ensures
        chunk_table(*final(m)) == chunk_table(*old(m)).insert(chunk_idx, writers),
        before == if chunk_table(*old(m)).contains_key(chunk_idx) {
            Some(chunk_table(*old(m))[chunk_idx])
        } else {
            None
        },
{
    m.insert(chunk_idx, writers)
}

/// `DashMap::iter`: the keys of all entries, each once, in no particular
/// order.
#[verifier::external_body]
pub(crate) fn table_keys(m: &ChunkTable) -> (keys: Vec<usize>)
    ensures
        keys@.no_duplicates(),
        forall|c: usize| keys@.contains(c) <==> chunk_table(*m).contains_key(c),
{
    m.iter().map(|entry| *entry.key()).collect()
}

/// `DashMap::get`: the number of writers in the entry of `chunk_idx`, or
/// nothing if the table has no such entry.
#[verifier::external_body]
pub(crate) fn table_count(m: &ChunkTable, chunk_idx: usize) -> (n: Option<usize>)
    ensures
        n is Some <==> chunk_table(*m).contains_key(chunk_idx),
        n matches Some(len) ==> len == chunk_table(*m)[chunk_idx]@.len(),
{
    m.get(&chunk_idx).map(|entry| entry.len())
}

/// `DashMap::is_empty`: whether the table has no entry.
#[verifier::external_body]
pub(crate) fn table_is_empty(m: &ChunkTable) -> (empty: bool)
    ensures
        empty == (forall|c: usize| !chunk_table(*m).contains_key(c)),
{
    m.is_empty()
}

} // verus!
