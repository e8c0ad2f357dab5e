use super::{
    entry_sizes_ok, lemma_push_entry, Block, BlockView, BLOCK_OVERHEAD, ENTRY_OVERHEAD,
    SIZEOF_U16,
};
use crate::wire::{put, put_u16};
use vstd::prelude::*;

verus! {

/// Builds a block.
///
/// The budget is held against the length of the finished block on the wire.
/// Each entry is charged its key, its value and six bytes; the two bytes of the
/// entry count are charged once per block. The first entry is taken whatever
/// it weighs, so that an entry larger than the budget gets a block of its own.
pub struct BlockBuilder {
    data: Vec<u8>,
    offsets: Vec<u16>,
    current_size: usize,
    target_size: usize,
}

impl View for BlockBuilder {
    type V = BlockView;

    /// The block as built so far.
    closed spec fn view(&self) -> BlockView {
        BlockView { data: self.data@, offsets: self.offsets@ }
    }
}

impl BlockBuilder {
    /// The budget: the length on the wire that the block is not to exceed.
    pub closed spec fn target_size(&self) -> usize {
        self.target_size
    }

    /// The builder is consistent: the block so far can be walked, the running
    /// size is the length of the buffer plus one offset slot for each entry,
    /// and a block of two or more entries keeps to the budget and to a buffer
    /// of 65535 bytes.
    pub closed spec fn wf(&self) -> bool {
        &&& self@.wf()
        &&& self.current_size == self.data@.len() + 2 * self.offsets@.len()
        &&& 5 * self.offsets@.len() <= self.data@.len()
        &&& self.offsets@.len() == 0 ==> self.data@.len() == 0
        &&& self.data@.len() <= 2 * 0xFFFF + 4
        &&& self.offsets@.len() >= 2 ==> self@.encoded_len() <= self.target_size
        &&& self.offsets@.len() >= 2 ==> self.data@.len() <= 0xFFFF
    }

    /// Whether the builder takes an entry: always when it is empty; else when
    /// the block with the entry keeps to the budget on the wire and its buffer
    /// to 65535 bytes, the most that a 16-bit offset can address.
    pub open spec fn accepts(&self, key: Seq<u8>, value: Seq<u8>) -> bool {
        ||| self@.len() == 0
        ||| {
            &&& self@.encoded_len() + key.len() + value.len() + ENTRY_OVERHEAD
                <= self.target_size()
            &&& self@.data.len() + key.len() + value.len() + 4 <= 0xFFFF
        }
    }

    /// What a consistent builder promises of its block: it can be walked, and
    /// with two or more entries it keeps to the budget on the wire and to a
    /// buffer of 65535 bytes.
    pub proof fn lemma_wf(&self)
        requires
            self.wf(),
        ensures
            self@.wf(),
            self@.len() >= 2 ==> self@.encoded_len() <= self.target_size(),
            self@.len() >= 2 ==> self@.data.len() <= 0xFFFF,
    {
    }

    /// Creates a new block builder.
    pub fn new(block_size: usize) -> (b: Self)
        ensures
            b.wf(),
            b@ == BlockView::empty(),
            b.target_size() == block_size,
    {
        let b = BlockBuilder {
            data: Vec::new(),
            offsets: Vec::new(),
            current_size: 0,
            target_size: block_size,
        };
        assert(b@ =~= BlockView::empty());
        b
    }

    /// Adds a key-value pair to the block. Returns false, and changes nothing,
    /// when the block is full. An empty builder takes any entry, whatever the
    /// budget.
    #[must_use]
    pub fn add(&mut self, key: &[u8], value: &[u8]) -> (ok: bool)
        requires
            old(self).wf(),
            entry_sizes_ok(key@, value@),
        ensures
            final(self).wf(),
            final(self).target_size() == old(self).target_size(),
            ok == old(self).accepts(key@, value@),
            old(self)@.len() == 0 ==> ok,
            ok ==> final(self)@ == old(self)@.push_entry(key@, value@),
            ok ==> final(self)@.entries() == old(self)@.entries().push((key@, value@)),
            !ok ==> *final(self) == *old(self),
    {
        let entry_size = key.len() + value.len() + ENTRY_OVERHEAD;
        if !self.offsets.is_empty() {
            if self.current_size + BLOCK_OVERHEAD + entry_size > self.target_size {
                return false;
            }
            // The buffer takes all of the entry but its offset slot.
            if self.data.len() + (entry_size - SIZEOF_U16) > 0xFFFF {
                return false;
            }
        }
        proof {
            lemma_push_entry(self@, key@, value@);
        }
        let offset = self.data.len() as u16;
        put_u16(&mut self.data, key.len() as u16);
        put(&mut self.data, key);
        put_u16(&mut self.data, value.len() as u16);
        put(&mut self.data, value);
        self.offsets.push(offset);
        self.current_size += entry_size;
        assert(self@ =~= old(self)@.push_entry(key@, value@));
        true
    }

    /// Check if there is no key-value pair in the block.
    pub fn is_empty(&self) -> (r: bool)
        ensures
            r == (self@.len() == 0),
    {
        self.offsets.is_empty()
    }

    /// Finalize the block. A block of two or more entries keeps to the budget
    /// on the wire, and its buffer to 65535 bytes.
    pub fn build(self) -> (b: Block)
        requires
            self.wf(),
        ensures
            b@ == self@,
            b@.wf(),
            b@.len() >= 2 ==> b@.encoded_len() <= self.target_size(),
            b@.len() >= 2 ==> b@.data.len() <= 0xFFFF,
    {
        Block::from_parts(self.data, self.offsets)
    }
}

} // verus!
