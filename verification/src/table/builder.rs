use super::{
    blocks_bytes, blocks_in_place, blocks_keep_budget, blocks_layout, entry_keys, flat_entries,
    lemma_blocks_bytes_push, lemma_close_table, lemma_entry_keys_push,
    lemma_layout_after_append, lemma_layout_bytes, lemma_no_blocks, meta_section, table_blocks,
    BlockMeta, FileObject, SsTable,
};
use crate::block::{entry_sizes_ok, lemma_decode_encode, BlockBuilder, BlockView};
use crate::error::StorageError;
use crate::key::{key_lt, lemma_ascending_push, strictly_ascending};
use crate::wire::{be32, extend_from_bytes, put_u32};
use vstd::prelude::*;
use vstd::slice::slice_to_vec;

verus! {

/// An entry pushed onto the open block is pushed onto all entries.
proof fn lemma_entries_after_push(
    finished: Seq<BlockView>,
    open: BlockView,
    pushed: BlockView,
    key: Seq<u8>,
    value: Seq<u8>,
)
    requires
        pushed.entries() == open.entries().push((key, value)),
    ensures
        flat_entries(finished) + pushed.entries() == (flat_entries(finished)
            + open.entries()).push((key, value)),
{
    assert(flat_entries(finished) + pushed.entries() =~= (flat_entries(finished)
        + open.entries()).push((key, value)));
}

/// An entry that opens a new block behind a full one is pushed onto all
/// entries.
proof fn lemma_entries_after_split(
    finished: Seq<BlockView>,
    full: BlockView,
    opened: BlockView,
    key: Seq<u8>,
    value: Seq<u8>,
)
    requires
        opened.entries() == BlockView::empty().entries().push((key, value)),
    ensures
        flat_entries(finished.push(full)) + opened.entries() == (flat_entries(finished)
            + full.entries()).push((key, value)),
{
    assert(finished.push(full).drop_last() =~= finished);
    assert(BlockView::empty().entries() =~= Seq::empty());
    assert(flat_entries(finished.push(full)) + opened.entries() =~= (flat_entries(finished)
        + full.entries()).push((key, value)));
}

/// The first key of a block is that of its first entry: the one pushed onto
/// an empty block, and else the one that was first before.
proof fn lemma_first_key_after_push(
    open: BlockView,
    pushed: BlockView,
    key: Seq<u8>,
    value: Seq<u8>,
)
    requires
        pushed.entries() == open.entries().push((key, value)),
    ensures
        pushed.len() == open.len() + 1,
        pushed.key(0) == if open.len() == 0 {
            key
        } else {
            open.key(0)
        },
{
    assert(pushed.entries().len() == open.entries().len() + 1);
    assert(pushed.entries()[0] == open.entries().push((key, value))[0]);
}

/// Builds an SSTable from key-value pairs.
///
/// Entries go into one open block at a time. When the open block refuses an
/// entry it is finished, written behind the blocks before it, and the entry
/// opens the next block.
pub struct SsTableBuilder {
    data: Vec<u8>,
    meta: Vec<BlockMeta>,
    block_builder: BlockBuilder,
    first_key: Vec<u8>,
    block_size: usize,
}

impl SsTableBuilder {
    /// The bytes of the finished blocks.
    pub closed spec fn data_bytes(&self) -> Seq<u8> {
        self.data@
    }

    /// The description of each finished block.
    pub closed spec fn metas(&self) -> Seq<BlockMeta> {
        self.meta@
    }

    /// The builder of the open block.
    pub closed spec fn current(&self) -> BlockBuilder {
        self.block_builder
    }

    /// The first key of the open block, empty while that block is.
    pub closed spec fn pending_first_key(&self) -> Seq<u8> {
        self.first_key@
    }

    /// The budget of each block.
    pub closed spec fn block_size(&self) -> usize {
        self.block_size
    }

    /// The finished blocks, in the order in which they were written.
    pub open spec fn finished(&self) -> Seq<BlockView> {
        table_blocks(self.data_bytes(), self.metas())
    }

    /// The open block as built so far.
    pub open spec fn open_block(&self) -> BlockView {
        self.current()@
    }

    /// The blocks that the table will hold if it is built now: the finished
    /// ones, and the open one unless it is empty.
    pub open spec fn all_blocks(&self) -> Seq<BlockView> {
        if self.open_block().len() > 0 {
            self.finished().push(self.open_block())
        } else {
            self.finished()
        }
    }

    /// All entries added so far, in the order in which they were added.
    pub open spec fn entries(&self) -> Seq<(Seq<u8>, Seq<u8>)> {
        flat_entries(self.finished()) + self.open_block().entries()
    }

    /// The keys added so far ascend.
    pub open spec fn sorted(&self) -> bool {
        strictly_ascending(entry_keys(self.entries()))
    }

    /// The finished blocks are sound: each is in place in the buffer, which
    /// holds them back to back and nothing else; each description names the
    /// end of its block; and each block keeps to the budget on the wire unless
    /// it holds a single entry.
    pub open spec fn finished_wf(&self) -> bool {
        &&& blocks_in_place(self.data_bytes(), self.metas())
        &&& blocks_layout(self.data_bytes(), self.metas())
        &&& blocks_keep_budget(self.finished(), self.block_size())
    }

    /// The builder is consistent: the finished blocks are sound, the open
    /// block has the table's budget, it is empty only while the table is, and
    /// its first key is remembered.
    pub open spec fn wf(&self) -> bool {
        &&& self.finished_wf()
        &&& self.current().wf()
        &&& self.current().target_size() == self.block_size()
        &&& self.open_block().len() == 0 ==> self.metas().len() == 0
            && self.pending_first_key().len() == 0
        &&& self.open_block().len() > 0 ==> self.pending_first_key() == self.open_block().key(0)
    }

    /// Create a builder based on target block size.
    pub fn new(block_size: usize) -> (b: Self)
        ensures
            b.wf(),
            b.block_size() == block_size,
            b.finished().len() == 0,
            b.open_block() == BlockView::empty(),
            b.entries().len() == 0,
    {
        let b = Self {
            data: Vec::new(),
            meta: Vec::new(),
            block_builder: BlockBuilder::new(block_size),
            first_key: Vec::new(),
            block_size,
        };
        proof {
            lemma_no_blocks();
            assert(b.data_bytes() =~= Seq::<u8>::empty());
            assert(b.metas() =~= Seq::<BlockMeta>::empty());
            assert(b.entries() =~= Seq::empty());
        }
        b
    }

    /// Adds a key-value pair to SSTable. The pair goes into the open block if
    /// that takes it; else the open block is finished and the pair opens a new
    /// one. Keys that are added in ascending order stay in ascending order.
    pub fn add(&mut self, key: &[u8], value: &[u8])
        requires
            old(self).wf(),
            entry_sizes_ok(key@, value@),
        ensures
            final(self).wf(),
            final(self).block_size() == old(self).block_size(),
            final(self).entries() == old(self).entries().push((key@, value@)),
            old(self).sorted() && (old(self).entries().len() > 0 ==> key_lt(
                old(self).entries().last().0,
                key@,
            )) ==> final(self).sorted(),
            old(self).current().accepts(key@, value@) ==> {
                &&& final(self).finished() == old(self).finished()
                &&& final(self).open_block() == old(self).open_block().push_entry(key@, value@)
            },
            !old(self).current().accepts(key@, value@) ==> {
                &&& final(self).finished() == old(self).finished().push(old(self).open_block())
                &&& final(self).open_block() == BlockView::empty().push_entry(key@, value@)
            },
            blocks_bytes(final(self).finished()).len() >= blocks_bytes(old(self).finished()).len(),
    {
        proof {
            self.current().lemma_wf();
            if self.open_block().len() > 0 {
                assert(self.open_block().entry_fits(0));
            }
            lemma_entry_keys_push(self.entries(), (key@, value@));
            if self.sorted() && (self.entries().len() > 0 ==> key_lt(
                self.entries().last().0,
                key@,
            )) {
                lemma_ascending_push(entry_keys(self.entries()), key@);
            }
        }
        if self.first_key.is_empty() {
            self.first_key = slice_to_vec(key);
        }
        if !self.block_builder.add(key, value) {
            self.finish_block();
            let retried = self.block_builder.add(key, value);
            assert(retried);
            self.first_key = slice_to_vec(key);
            proof {
                lemma_blocks_bytes_push(old(self).finished(), old(self).open_block());
                lemma_entries_after_split(
                    old(self).finished(),
                    old(self).open_block(),
                    self.open_block(),
                    key@,
                    value@,
                );
                lemma_first_key_after_push(BlockView::empty(), self.open_block(), key@, value@);
            }
        } else {
            proof {
                lemma_entries_after_push(
                    old(self).finished(),
                    old(self).open_block(),
                    self.open_block(),
                    key@,
                    value@,
                );
                lemma_first_key_after_push(
                    old(self).open_block(),
                    self.open_block(),
                    key@,
                    value@,
                );
            }
        }
    }

    /// Finishes the open block: writes it behind the blocks before it, notes
    /// where it ends and its first key, and opens an empty block.
    fn finish_block(&mut self)
        requires
            old(self).wf(),
            old(self).open_block().len() > 0,
        ensures
            final(self).finished_wf(),
            final(self).block_size() == old(self).block_size(),
            final(self).finished() == old(self).finished().push(old(self).open_block()),
            final(self).current().wf(),
            final(self).current().target_size() == old(self).block_size(),
            final(self).open_block() == BlockView::empty(),
            final(self).pending_first_key().len() == 0,
    {
        let mut builder = BlockBuilder::new(self.block_size);
        std::mem::swap(&mut self.block_builder, &mut builder);
        let mut first_key: Vec<u8> = Vec::new();
        std::mem::swap(&mut self.first_key, &mut first_key);
        proof {
            builder.lemma_wf();
        }
        let block = builder.build();
        let ghost view = block@;
        let encode_block = block.encode();
        extend_from_bytes(&mut self.data, encode_block);
        let meta = BlockMeta { offset: self.data.len(), first_key };
        self.meta.push(meta);
        proof {
            lemma_decode_encode(view);
            lemma_layout_after_append(old(self).data_bytes(), old(self).metas(), view, meta);
            let before = old(self).finished();
            let after = self.finished();
            assert forall|i: int| 0 <= i < after.len() implies (#[trigger] after[i]).len() == 1
                || after[i].encoded_len() <= self.block_size() by {
                if i < before.len() {
                    assert(after[i] == before[i]);
                }
            }
        }
    }

    /// Get the estimated size of the SSTable: the bytes of the finished
    /// blocks, without the open one.
    pub fn estimated_size(&self) -> (n: usize)
        requires
            self.wf(),
        ensures
            n == blocks_bytes(self.finished()).len(),
    {
        proof {
            lemma_layout_bytes(self.data_bytes(), self.metas());
        }
        self.data.len()
    }

    /// Builds the SSTable. An open block that holds entries is finished
    /// first; then the descriptions of all blocks are written behind the
    /// blocks, and behind them the position at which they begin. Blocks that
    /// take more bytes than 32 bits can count are refused.
    pub fn build(self, id: usize) -> (r: Result<SsTable, StorageError>)
        requires
            self.wf(),
        ensures
            r is Ok <==> blocks_bytes(self.all_blocks()).len() <= u32::MAX,
            match r {
                Ok(table) => {
                    &&& table.wf()
                    &&& table.ident() == id
                    &&& table.blocks() == self.all_blocks()
                    &&& table.entries() == self.entries()
                    &&& table.sorted() == self.sorted()
                    &&& blocks_keep_budget(table.blocks(), self.block_size())
                },
                Err(e) => e == StorageError::TableTooLarge,
            },
    {
        let mut builder = self;
        if !builder.block_builder.is_empty() {
            builder.finish_block();
        }
        let ghost blocks = builder.finished();
        proof {
            assert(blocks == self.all_blocks());
            assert(flat_entries(blocks) == self.entries()) by {
                if self.open_block().len() > 0 {
                    lemma_blocks_bytes_push(self.finished(), self.open_block());
                } else {
                    assert(self.open_block().entries() =~= Seq::empty());
                    assert(self.entries() =~= flat_entries(self.finished()));
                }
            }
            lemma_layout_bytes(builder.data_bytes(), builder.metas());
        }
        let SsTableBuilder { data, meta, .. } = builder;
        let mut buf = data;
        let ghost written = buf@;
        let meta_offset = buf.len();
        if meta_offset > u32::MAX as usize {
            return Err(StorageError::TableTooLarge);
        }
        proof {
            lemma_close_table(written, meta@);
        }
        BlockMeta::encode_block_meta(meta.as_slice(), &mut buf);
        put_u32(&mut buf, meta_offset as u32);
        assert(buf@ =~= written + (meta_section(meta@) + be32(meta_offset as u32)));
        let file = FileObject::create(buf);
        let table = SsTable::assemble(id, file, meta, meta_offset);
        assert(table.blocks() == blocks);
        Ok(table)
    }
}

} // verus!
