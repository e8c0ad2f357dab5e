use super::{
    block_in_place, lemma_block_sorted, lemma_blocks_ascend, lemma_flat_index, lemma_start_of,
    lemma_two_level_search, start_of, SsTable,
};
use crate::block::{Block, BlockIterator};
use crate::error::StorageError;
use crate::iterators::StorageIterator;
use crate::key::{
    compare_keys, is_lower_bound, key_lt, lemma_key_lt_asymmetric, lemma_key_lt_transitive,
    KeyOrder,
};
use std::sync::Arc;
use vstd::prelude::*;

verus! {

/// An iterator over the contents of an SSTable.
///
/// One block is loaded at a time. The iterator is valid while it stands at an
/// entry of the loaded block and has not been sent past the last block.
pub struct SsTableIterator {
    table: Arc<SsTable>,
    block_iter: BlockIterator,
    idx: usize,
    is_valid: bool,
}

impl SsTableIterator {
    /// The table that is iterated on.
    pub closed spec fn table(&self) -> SsTable {
        *self.table
    }

    /// The iterator over the loaded block.
    pub closed spec fn block_iter(&self) -> BlockIterator {
        self.block_iter
    }

    /// Which block is loaded.
    pub closed spec fn block_index(&self) -> nat {
        self.idx as nat
    }

    /// False once the iterator has been sent past the last block.
    pub closed spec fn within_table(&self) -> bool {
        self.is_valid
    }

    /// The iterator stands at an entry.
    pub open spec fn valid(&self) -> bool {
        self.within_table() && self.block_iter().valid()
    }

    /// Where the iterator stands among all entries of the table; their number
    /// where it is not valid.
    pub open spec fn position(&self) -> nat {
        if self.valid() {
            (start_of(self.table().blocks(), self.block_index() as int)
                + self.block_iter().position()) as nat
        } else {
            self.table().entries().len()
        }
    }

    /// The table is sound and the block iterator walks the block that is said
    /// to be loaded; over a table without blocks it walks an empty block.
    pub open spec fn wf(&self) -> bool {
        &&& self.table().wf()
        &&& self.block_iter().wf()
        &&& if self.table().blocks().len() == 0 {
            self.block_index() == 0 && self.block_iter().block().len() == 0
        } else {
            &&& self.block_index() < self.table().blocks().len()
            &&& self.block_iter().block() == self.table().blocks()[self.block_index() as int]
        }
    }

    /// A valid iterator stands at an entry of the table: the one at which the
    /// block iterator stands in the loaded block.
    pub proof fn lemma_position(&self)
        requires
            self.wf(),
        ensures
            self.position() <= self.table().entries().len(),
            self.valid() <==> self.position() < self.table().entries().len(),
            self.valid() ==> self.table().entries()[self.position() as int] == (
                self.block_iter().block().key(self.block_iter().position() as int),
                self.block_iter().block().value(self.block_iter().position() as int),
            ),
    {
        if self.valid() {
            lemma_flat_index(
                self.table().blocks(),
                self.block_index() as int,
                self.block_iter().position() as int,
            );
        }
    }

    /// An iterator over `table` with the given block iterator, which walks
    /// the first block.
    pub fn new(table: Arc<SsTable>, block_iter: BlockIterator) -> (it: Self)
        requires
            table.wf(),
            block_iter.wf(),
            if table.blocks().len() == 0 {
                block_iter.block().len() == 0
            } else {
                block_iter.block() == table.blocks()[0]
            },
        ensures
            it.wf(),
            it.table() == *table,
            it.block_iter() == block_iter,
            it.block_index() == 0,
            it.within_table(),
    {
        Self { table, block_iter, idx: 0, is_valid: true }
    }

    /// The block iterator to start from: over the first block, or over an
    /// empty block where the table has none.
    fn initial_block_iter(table: &Arc<SsTable>) -> (r: Result<BlockIterator, StorageError>)
        requires
            table.wf(),
        ensures
            r matches Ok(it) && it.wf() && it.position() == 0 && if table.blocks().len() == 0 {
                it.block().len() == 0
            } else {
                it.block() == table.blocks()[0]
            },
    {
        if table.num_of_blocks() > 0 {
            Self::seek_block_iter(0, table)
        } else {
            let empty = Block::from_parts(Vec::new(), Vec::new());
            Ok(BlockIterator::create_and_seek_to_first(Arc::new(empty)))
        }
    }

    /// Create a new iterator and seek to the first key-value pair.
    pub fn create_and_seek_to_first(table: Arc<SsTable>) -> (r: Result<Self, StorageError>)
        requires
            table.wf(),
        ensures
            r matches Ok(it) && it.wf() && it.table() == *table && it.position() == 0,
    {
        let block_iter = Self::initial_block_iter(&table)?;
        let mut iter = SsTableIterator::new(table, block_iter);
        iter.seek_to_first()?;
        Ok(iter)
    }

    /// Seek to the first key-value pair.
    pub fn seek_to_first(&mut self) -> (r: Result<(), StorageError>)
        requires
            old(self).wf(),
        ensures
            r is Ok,
            final(self).wf(),
            final(self).table() == old(self).table(),
            final(self).position() == 0,
    {
        self.seek_to_block(0)?;
        proof {
            self.block_iter().lemma_wf();
        }
        self.block_iter.seek_to_first();
        proof {
            let blocks = self.table().blocks();
            if blocks.len() > 0 {
                assert(block_in_place(self.table().file_bytes(), self.table().metas(), 0));
                lemma_start_of(blocks, 0);
            }
        }
        Ok(())
    }

    /// Create a new iterator and seek to the first key-value pair which >= `key`.
    pub fn create_and_seek_to_key(table: Arc<SsTable>, key: &[u8]) -> (r: Result<
        Self,
        StorageError,
    >)
        requires
            table.wf(),
        ensures
            r matches Ok(it) && it.wf() && it.table() == *table && (it.valid() ==> !key_lt(
                table.keys()[it.position() as int],
                key@,
            )) && (table.sorted() ==> is_lower_bound(table.keys(), key@, it.position() as int)),
    {
        let block_iter = Self::initial_block_iter(&table)?;
        let mut iter = SsTableIterator::new(table, block_iter);
        iter.seek_to_key(key)?;
        Ok(iter)
    }

    /// Seek to the first key-value pair which >= `key`.
    ///
    /// A binary search over the first keys finds the last block that starts
    /// at or below `key`, the first block if none does. A search within that
    /// block follows, and where it runs off the block's end, the next block
    /// is taken from its first entry. In a table whose keys ascend, the
    /// iterator ends where `key` lands among all entries. In any table, it does
    /// not end at a key that sorts before `key`.
    pub fn seek_to_key(&mut self, key: &[u8]) -> (r: Result<(), StorageError>)
        requires
            old(self).wf(),
        ensures
            r is Ok,
            final(self).wf(),
            final(self).table() == old(self).table(),
            final(self).valid() ==> !key_lt(
                old(self).table().keys()[final(self).position() as int],
                key@,
            ),
            old(self).table().sorted() ==> is_lower_bound(
                old(self).table().keys(),
                key@,
                final(self).position() as int,
            ),
    {
        let ghost blocks = self.table().blocks();
        let ghost sorted = self.table().sorted();
        proof {
            assert forall|b: int| 0 <= b < blocks.len() implies (#[trigger] blocks[b]).len()
                >= 1 by {
                assert(block_in_place(self.table().file_bytes(), self.table().metas(), b));
            }
        }
        let count = self.table.num_of_blocks();
        if count == 0 {
            self.is_valid = false;
            return Ok(());
        }
        let mut low: usize = 0;
        let mut high: usize = count;
        while low < high - 1
            invariant
                self.wf(),
                *self == *old(self),
                blocks == self.table().blocks(),
                sorted == self.table().sorted(),
                forall|b: int| 0 <= b < blocks.len() ==> (#[trigger] blocks[b]).len() >= 1,
                count == self.table().metas().len(),
                low < high <= count,
                low > 0 ==> key_lt(self.table().metas()[low as int].first_key@, key@),
                high < count ==> key_lt(key@, self.table().metas()[high as int].first_key@),
            decreases high - low,
        {
            let mid = low + (high - low) / 2;
            let first_key = self.table.block_metas()[mid].first_key.as_slice();
            match compare_keys(first_key, key) {
                KeyOrder::Less => {
                    low = mid;
                },
                KeyOrder::Greater => {
                    high = mid;
                },
                KeyOrder::Equal => {
                    self.seek_to_block(mid)?;
                    proof {
                        self.block_iter().lemma_wf();
                    }
                    self.block_iter.seek_to_key(key);
                    proof {
                        if sorted {
                            let block = blocks[mid as int];
                            let p = self.block_iter().position() as int;
                            assert(block_in_place(
                                self.table().file_bytes(),
                                self.table().metas(),
                                mid as int,
                            ));
                            lemma_block_sorted(blocks, mid as int);
                            assert(block.keys()[0] == key@);
                            if p > 0 {
                                assert(key_lt(block.keys()[0], key@));
                                lemma_key_lt_asymmetric(key@, key@);
                            }
                            if mid > 0 {
                                lemma_blocks_ascend(
                                    blocks,
                                    mid - 1,
                                    blocks[mid - 1].len() - 1,
                                    mid as int,
                                    0,
                                );
                            }
                            lemma_two_level_search(blocks, key@, mid as int, 0);
                        }
                        self.lemma_position();
                    }
                    return Ok(());
                },
            }
        }
        self.seek_to_block(low)?;
        proof {
            self.block_iter().lemma_wf();
        }
        self.block_iter.seek_to_key(key);
        let ghost p = self.block_iter().position() as int;
        proof {
            if sorted {
                lemma_block_sorted(blocks, low as int);
                assert(block_in_place(
                    self.table().file_bytes(),
                    self.table().metas(),
                    low as int,
                ));
                if low > 0 {
                    lemma_blocks_ascend(blocks, low - 1, blocks[low - 1].len() - 1, low as int, 0);
                    lemma_key_lt_transitive(
                        blocks[low - 1].key(blocks[low - 1].len() - 1),
                        blocks[low as int].key(0),
                        key@,
                    );
                }
                if high < count {
                    assert(block_in_place(
                        self.table().file_bytes(),
                        self.table().metas(),
                        high as int,
                    ));
                    lemma_key_lt_asymmetric(key@, blocks[high as int].key(0));
                }
                lemma_two_level_search(blocks, key@, low as int, p);
                lemma_start_of(blocks, low as int);
                lemma_start_of(blocks, count - 1);
            }
        }
        if !self.block_iter.is_valid() {
            self.seek_to_block(high)?;
            if self.is_valid {
                proof {
                    self.block_iter().lemma_wf();
                }
                self.block_iter.seek_to_key(key);
                proof {
                    if sorted {
                        lemma_block_sorted(blocks, high as int);
                        if self.block_iter().position() > 0 {
                            assert(key_lt(blocks[high as int].keys()[0], key@));
                        }
                    }
                }
            }
        }
        proof {
            self.lemma_position();
        }
        Ok(())
    }

    /// Seek to the target block. Where it is the block that is loaded
    /// already, nothing is loaded and the block iterator stays where it
    /// stands, though an iterator that had been sent past the last block is
    /// taken back into the table. Where there is no such block, the iterator
    /// is sent past the last block. Else the block is loaded and the iterator
    /// stands at its first entry.
    pub fn seek_to_block(&mut self, idx: usize) -> (r: Result<(), StorageError>)
        requires
            old(self).wf(),
        ensures
            r is Ok,
            final(self).wf(),
            final(self).table() == old(self).table(),
            idx == old(self).block_index() ==> {
                &&& final(self).within_table()
                &&& final(self).block_index() == idx
                &&& final(self).block_iter() == old(self).block_iter()
            },
            idx != old(self).block_index() && idx >= old(self).table().blocks().len() ==> {
                &&& !final(self).within_table()
                &&& final(self).block_index() == old(self).block_index()
                &&& final(self).block_iter() == old(self).block_iter()
            },
            idx != old(self).block_index() && idx < old(self).table().blocks().len() ==> {
                &&& final(self).within_table()
                &&& final(self).block_index() == idx
                &&& final(self).block_iter().position() == 0
            },
    {
        self.is_valid = true;
        if idx == self.idx {
            return Ok(());
        }
        if idx >= self.table.num_of_blocks() {
            self.is_valid = false;
            return Ok(());
        }
        self.block_iter = Self::seek_block_iter(idx, &self.table)?;
        self.idx = idx;
        Ok(())
    }

    /// Seek the target block iter and return it: the block is read from the
    /// file, decoded, and walked from its first entry.
    pub fn seek_block_iter(idx: usize, table: &Arc<SsTable>) -> (r: Result<
        BlockIterator,
        StorageError,
    >)
        requires
            table.wf(),
            idx < table.blocks().len(),
        ensures
            r matches Ok(it) && it.wf() && it.block() == table.blocks()[idx as int]
                && it.position() == 0,
    {
        proof {
            assert(block_in_place(table.file_bytes(), table.metas(), idx as int));
        }
        let metas = table.block_metas();
        let block_end = metas[idx].offset as u64;
        let block_begin = if idx > 0 {
            metas[idx - 1].offset as u64
        } else {
            0
        };
        let block_len = block_end - block_begin;
        let block = table.file().read(block_begin, block_len)?;
        Ok(BlockIterator::create_and_seek_to_first(Arc::new(Block::decode(block.as_slice())?)))
    }
}

impl StorageIterator for SsTableIterator {
    open spec fn well_formed(&self) -> bool {
        self.wf()
    }

    open spec fn remaining(&self) -> Seq<(Seq<u8>, Seq<u8>)> {
        self.table().entries().subrange(
            self.position() as int,
            self.table().entries().len() as int,
        )
    }

    fn value(&self) -> (v: &[u8]) {
        proof {
            self.lemma_position();
        }
        self.block_iter.value()
    }

    fn key(&self) -> (k: &[u8]) {
        proof {
            self.lemma_position();
        }
        self.block_iter.key()
    }

    fn is_valid(&self) -> (b: bool) {
        proof {
            self.lemma_position();
        }
        self.is_valid && self.block_iter.is_valid()
    }

    fn next(&mut self) -> (r: Result<(), StorageError>)
        ensures
            r is Ok,
            final(self).table() == old(self).table(),
            final(self).position() == if old(self).valid() {
                old(self).position() + 1
            } else {
                old(self).position()
            },
    {
        proof {
            self.lemma_position();
        }
        if !self.is_valid() {
            return Ok(());
        }
        let ghost blocks = self.table().blocks();
        proof {
            lemma_start_of(blocks, self.block_index() as int);
            lemma_start_of(blocks, blocks.len() - 1);
        }
        let count = self.table.num_of_blocks();
        self.block_iter.next();
        if !self.block_iter.is_valid() {
            assert(self.idx < count);
            let next_idx = self.idx + 1;
            self.seek_to_block(next_idx)?;
            proof {
                if next_idx < blocks.len() {
                    assert(block_in_place(
                        self.table().file_bytes(),
                        self.table().metas(),
                        next_idx as int,
                    ));
                }
            }
        }
        proof {
            self.lemma_position();
            assert(self.remaining() =~= old(self).remaining().skip(1));
        }
        Ok(())
    }
}

} // verus!
