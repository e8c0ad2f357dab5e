//! What can go wrong when stored bytes are read back or a table is cut.

use vstd::prelude::*;

verus! {

/// The ways in which an operation of this crate fails.
#[derive(Clone, Copy, Debug, PartialEq, Eq)]
pub enum StorageError {
    /// The bytes handed to the block decoder are shorter than the entry count
    /// and offset index that they declare.
    MalformedBlock,
    /// A byte range was asked of a table file that does not hold it.
    ReadOutOfRange,
    /// The blocks of a table take more bytes than its 32-bit offsets can
    /// address.
    TableTooLarge,
}

} // verus!
