//! What every iterator over stored entries offers, whatever it walks.

use crate::error::StorageError;
use vstd::prelude::*;

verus! {

/// An iterator over key-value entries in key order.
///
/// The entries still to come stand for the iterator's state: it is valid
/// while there are any, its key and value are those of the first, and
/// advancing drops the first.
pub trait StorageIterator {
    /// The iterator is consistent with what it walks.
    spec fn well_formed(&self) -> bool;

    /// The entries still to come, the current one first.
    spec fn remaining(&self) -> Seq<(Seq<u8>, Seq<u8>)>;

    /// Get the current value.
    fn value(&self) -> (v: &[u8])
        requires
            self.well_formed(),
            self.remaining().len() > 0,
        ensures
            v@ == self.remaining()[0].1,
    ;

    /// Get the current key.
    fn key(&self) -> (k: &[u8])
        requires
            self.well_formed(),
            self.remaining().len() > 0,
        ensures
            k@ == self.remaining()[0].0,
    ;

    /// Check if the current iterator is valid.
    fn is_valid(&self) -> (b: bool)
        requires
            self.well_formed(),
        ensures
            b == (self.remaining().len() > 0),
    ;

    /// Move to the next position. An iterator with nothing to come stays so.
    fn next(&mut self) -> (r: Result<(), StorageError>)
        requires
            old(self).well_formed(),
        ensures
            final(self).well_formed(),
            r is Ok && old(self).remaining().len() > 0 ==> final(self).remaining() == old(
                self,
            ).remaining().skip(1),
            r is Ok && old(self).remaining().len() == 0 ==> final(self).remaining().len() == 0,
    ;
}

} // verus!
