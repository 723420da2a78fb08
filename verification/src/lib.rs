//! The data path of a POSIX-style filesystem client whose file contents are
//! cut into chunks, slices and blocks and kept in an object store.
//!
//! Every decision of that data path is a function from plain values to plain
//! values: the caller owns the mapped page file, the object store and the
//! metadata service, performs the transfers the library asks for, and reports
//! back what happened.
//!
//! From the leaves up: `pool` hands out pages of the pool file;
//! `slice_buffer` buffers the blocks of one slice in such pages;
//! `slice_writer` binds a buffer to its place in a chunk; `file_writer`
//! picks the slice writer for every piece of a write and starts the
//! flushes that `flusher` turns into tasks; `data_manager` keeps the file
//! writers and the file readers. On the reading side, `slice_reader` holds the bytes fetched for
//! one piece of a file and `reader` turns reads into requests to slice
//! readers. `vfs` holds what the filesystem interface decides, with `attr`,
//! `ino`, `internal_nodes`, `meta` and `stat` for the metadata it works on.
pub mod attr;
pub mod chunk_table;
pub mod common;
pub mod data_manager;
pub mod data_writer;
pub mod err;
pub mod errno;
pub mod file_writer;
pub mod flusher;
pub mod ino;
pub mod internal_nodes;
pub mod locate;
pub mod meta;
pub mod pattern;
pub mod pool;
pub mod ranges;
pub mod reader;
pub mod seq_gen;
pub mod slice;
pub mod slice_buffer;
pub mod slice_reader;
pub mod slice_writer;
pub mod stat;
pub mod sys;
pub mod vfs;
