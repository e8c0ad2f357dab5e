use super::{
    entry_end_at, entry_fits_at, key_at, key_end_at, key_len_at, value_at, value_len_at, Block,
    BlockView, SIZEOF_U16,
};
use crate::key::{
    compare_keys, is_lower_bound, key_lt, lemma_key_lt_asymmetric, lemma_key_lt_transitive,
    strictly_ascending, KeyOrder,
};
use crate::wire::{get_u16, put};
use std::sync::Arc;
use vstd::prelude::*;
use vstd::slice::slice_subrange;

verus! {

/// Iterates on a block.
///
/// The iterator stands at a position between 0 and the number of entries. At
/// a position below that number it is valid and holds a copy of the entry's
/// key and value; at that number it is exhausted and holds neither.
pub struct BlockIterator {
    block: Arc<Block>,
    key: Vec<u8>,
    value: Vec<u8>,
    idx: usize,
}

impl BlockIterator {
    /// The block that is iterated on.
    pub closed spec fn block(&self) -> BlockView {
        self.block@
    }

    /// Where the iterator stands.
    pub closed spec fn position(&self) -> nat {
        self.idx as nat
    }

    /// The iterator stands at an entry.
    pub open spec fn valid(&self) -> bool {
        self.position() < self.block().len()
    }

    /// The block can be walked, the position is at most the number of
    /// entries, and the key and value held are those at the position, or
    /// empty where the iterator is exhausted.
    pub closed spec fn wf(&self) -> bool {
        &&& self.block@.wf()
        &&& self.idx <= self.block@.len()
        &&& self.idx < self.block@.len() ==> {
            &&& self.key@ == self.block@.key(self.idx as int)
            &&& self.value@ == self.block@.value(self.idx as int)
        }
        &&& self.idx == self.block@.len() ==> self.key@.len() == 0 && self.value@.len() == 0
    }

    /// What a well-formed iterator knows of its block and position.
    pub proof fn lemma_wf(&self)
        requires
            self.wf(),
        ensures
            self.block().wf(),
            self.position() <= self.block().len(),
    {
    }

    /// An iterator over `block` that has not been placed yet.
    fn new(block: Arc<Block>) -> (it: Self)
        ensures
            it.block() == block@,
    {
        Self { block, key: Vec::new(), value: Vec::new(), idx: 0 }
    }

    /// Moves to the entry at `idx`, or past the last entry if there is none.
    fn seek_to(&mut self, idx: usize)
        requires
            old(self).block().wf(),
        ensures
            final(self).wf(),
            final(self).block() == old(self).block(),
            final(self).position() == if idx < old(self).block().len() {
                idx as nat
            } else {
                old(self).block().len()
            },
    {
        let count = self.block.offsets().len();
        if idx >= count {
            self.key.clear();
            self.value.clear();
            self.idx = count;
            return ;
        }
        let offset = self.block.offsets()[idx] as usize;
        assert(self.block@.entry_fits(idx as int));
        self.seek_to_offset(offset);
        self.idx = idx;
    }

    /// Reads the entry that starts at `offset` into the key and value held.
    fn seek_to_offset(&mut self, offset: usize)
        requires
            entry_fits_at(old(self).block().data, offset as int),
        ensures
            final(self).block == old(self).block,
            final(self).idx == old(self).idx,
            final(self).key@ == key_at(old(self).block().data, offset as int),
            final(self).value@ == value_at(old(self).block().data, offset as int),
    {
        let data = self.block.data();
        let key_len = get_u16(slice_subrange(data, offset, data.len())) as usize;
        let key_begin = offset + SIZEOF_U16;
        let key_end = key_begin + key_len;
        let value_len = get_u16(slice_subrange(data, key_end, data.len())) as usize;
        let value_begin = key_end + SIZEOF_U16;
        let value_end = value_begin + value_len;
        assert(key_len == key_len_at(data@, offset as int));
        assert(key_end == key_end_at(data@, offset as int));
        assert(value_len == value_len_at(data@, offset as int));
        assert(value_end == entry_end_at(data@, offset as int));
        self.key.clear();
        self.value.clear();
        put(&mut self.key, slice_subrange(data, key_begin, key_end));
        put(&mut self.value, slice_subrange(data, value_begin, value_end));
    }

    /// Creates a block iterator and seek to the first entry.
    pub fn create_and_seek_to_first(block: Arc<Block>) -> (it: Self)
        requires
            block@.wf(),
        ensures
            it.wf(),
            it.block() == block@,
            it.position() == 0,
    {
        let mut iter = Self::new(block);
        iter.seek_to_first();
        iter
    }

    /// Creates a block iterator and seek to the first key that >= `key`.
    pub fn create_and_seek_to_key(block: Arc<Block>, key: &[u8]) -> (it: Self)
        requires
            block@.wf(),
        ensures
            it.wf(),
            it.block() == block@,
            it.valid() ==> !key_lt(block@.key(it.position() as int), key@),
            strictly_ascending(block@.keys()) ==> is_lower_bound(
                block@.keys(),
                key@,
                it.position() as int,
            ),
    {
        let mut iter = Self::new(block);
        iter.seek_to_key(key);
        iter
    }

    /// Returns the key of the current entry.
    pub fn key(&self) -> (k: &[u8])
        requires
            self.wf(),
            self.valid(),
        ensures
            k@ == self.block().key(self.position() as int),
            k@.len() > 0,
    {
        proof {
            assert(self.block@.entry_fits(self.idx as int));
        }
        self.key.as_slice()
    }

    /// Returns the value of the current entry.
    pub fn value(&self) -> (v: &[u8])
        requires
            self.wf(),
            self.valid(),
        ensures
            v@ == self.block().value(self.position() as int),
    {
        self.value.as_slice()
    }

    /// Returns true if the iterator is valid.
    pub fn is_valid(&self) -> (r: bool)
        requires
            self.wf(),
        ensures
            r == self.valid(),
    {
        proof {
            if self.idx < self.block@.len() {
                assert(self.block@.entry_fits(self.idx as int));
            }
        }
        !self.key.is_empty()
    }

    /// Seeks to the first key in the block.
    pub fn seek_to_first(&mut self)
        requires
            old(self).block().wf(),
        ensures
            final(self).wf(),
            final(self).block() == old(self).block(),
            final(self).position() == 0,
    {
        self.seek_to(0);
    }

    /// Move to the next key in the block. An exhausted iterator stays
    /// exhausted.
    pub fn next(&mut self)
        requires
            old(self).wf(),
        ensures
            final(self).wf(),
            final(self).block() == old(self).block(),
            final(self).position() == if old(self).valid() {
                old(self).position() + 1
            } else {
                old(self).position()
            },
    {
        let idx = self.idx;
        self.seek_to(idx + 1);
    }

    /// Seek to the first key that >= `key`, by binary search. In a block whose
    /// keys ascend, the iterator ends at the first entry whose key does not
    /// sort before `key`, and is exhausted if there is none. In any block, it
    /// does not end at a key that sorts before `key`.
    pub fn seek_to_key(&mut self, key: &[u8])
        requires
            old(self).block().wf(),
        ensures
            final(self).wf(),
            final(self).block() == old(self).block(),
            final(self).valid() ==> !key_lt(
                old(self).block().key(final(self).position() as int),
                key@,
            ),
            strictly_ascending(old(self).block().keys()) ==> is_lower_bound(
                old(self).block().keys(),
                key@,
                final(self).position() as int,
            ),
    {
        let ghost keys = self.block().keys();
        let mut low: usize = 0;
        let mut high: usize = self.block.offsets().len();
        while low < high
            invariant
                self.block() == old(self).block(),
                self.block().wf(),
                keys == self.block().keys(),
                low <= high <= keys.len(),
                high < keys.len() ==> !key_lt(keys[high as int], key@),
                strictly_ascending(keys) ==> {
                    &&& forall|i: int| 0 <= i < low ==> key_lt(#[trigger] keys[i], key@)
                    &&& forall|i: int| high <= i < keys.len() ==> !key_lt(#[trigger] keys[i], key@)
                },
            decreases high - low,
        {
            let mid = low + (high - low) / 2;
            self.seek_to(mid);
            match compare_keys(self.key(), key) {
                KeyOrder::Less => {
                    proof {
                        if strictly_ascending(keys) {
                            assert forall|i: int| 0 <= i < mid + 1 implies key_lt(
                                #[trigger] keys[i],
                                key@,
                            ) by {
                                if i < mid {
                                    lemma_key_lt_transitive(keys[i], keys[mid as int], key@);
                                }
                            }
                        }
                    }
                    low = mid + 1;
                },
                KeyOrder::Greater => {
                    proof {
                        lemma_key_lt_asymmetric(key@, keys[mid as int]);
                        if strictly_ascending(keys) {
                            assert forall|i: int| mid <= i < keys.len() implies !key_lt(
                                #[trigger] keys[i],
                                key@,
                            ) by {
                                if key_lt(keys[i], key@) {
                                    lemma_key_lt_transitive(keys[i], key@, keys[mid as int]);
                                    if i > mid {
                                        lemma_key_lt_asymmetric(keys[mid as int], keys[i]);
                                    } else {
                                        lemma_key_lt_asymmetric(keys[i], keys[i]);
                                    }
                                }
                            }
                        }
                    }
                    high = mid;
                },
                KeyOrder::Equal => {
                    proof {
                        if key_lt(key@, key@) {
                            lemma_key_lt_asymmetric(key@, key@);
                        }
                        if strictly_ascending(keys) {
                            assert(keys[mid as int] == key@);
                            assert forall|i: int| 0 <= i < mid implies key_lt(
                                #[trigger] keys[i],
                                key@,
                            ) by {
                                assert(key_lt(keys[i], keys[mid as int]));
                            }
                            assert forall|i: int| mid <= i < keys.len() implies !key_lt(
                                #[trigger] keys[i],
                                key@,
                            ) by {
                                if key_lt(keys[i], key@) {
                                    if i > mid {
                                        lemma_key_lt_asymmetric(keys[mid as int], keys[i]);
                                    } else {
                                        lemma_key_lt_asymmetric(keys[i], keys[i]);
                                    }
                                }
                            }
                        }
                    }
                    return ;
                },
            }
        }
        self.seek_to(low);
    }
}

} // verus!
