//! The writer side of the data engine as the filesystem interface sees it
//! before any file is open for writing.
use vstd::prelude::*;
use crate::ino::Ino;

verus! {

/// A data writer that holds no file.
#[derive(Debug, Default)]
pub struct DataWriter {}

impl DataWriter {
    /// The length that the writer of `ino` has reached: zero, as no file is
    /// open for writing.
    pub fn get_length(&self, ino: Ino) -> (len: u64)
        ensures
            len == 0,
    {
        0
    }
}

} // verus!
