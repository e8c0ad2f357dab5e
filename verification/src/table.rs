//! A sorted table: blocks back to back in one file, then a section that
//! describes each block, then the position of that section.
//!
//! The description of a block is the position at which the block ends, as a
//! 32-bit big-endian number, and the block's first key behind its 16-bit
//! big-endian length. The position that closes the file is 32-bit big-endian
//! as well.

mod builder;
mod iterator;

pub use builder::SsTableBuilder;
pub use iterator::SsTableIterator;

use crate::block::{lemma_decode_encode, parse_block, BlockView};
use crate::error::StorageError;
use crate::key::{
    is_lower_bound, key_lt, lemma_lower_bound_from_neighbours, strictly_ascending,
};
use crate::wire::{be16, be32, put, put_u16, put_u32};
use vstd::prelude::*;
use vstd::slice::{slice_subrange, slice_to_vec};

verus! {

/// Where a block ends in the table file, and the first key that it holds.
pub struct BlockMeta {
    /// The position right behind the block's last byte.
    pub offset: usize,
    /// The smallest key of the block.
    pub first_key: Vec<u8>,
}

/// One block's description on the wire.
pub open spec fn meta_bytes(meta: BlockMeta) -> Seq<u8> {
    be32(meta.offset as u32) + be16(meta.first_key@.len() as u16) + meta.first_key@
}

/// The descriptions of all blocks on the wire, in block order.
pub open spec fn meta_section(metas: Seq<BlockMeta>) -> Seq<u8>
    decreases metas.len(),
{
    if metas.len() == 0 {
        Seq::empty()
    } else {
        meta_section(metas.drop_last()) + meta_bytes(metas.last())
    }
}

/// Every description can be written: the position fits 32 bits and the key's
/// length 16.
pub open spec fn metas_encodable(metas: Seq<BlockMeta>) -> bool {
    forall|i: int|
        0 <= i < metas.len() ==> (#[trigger] metas[i]).offset <= u32::MAX
            && metas[i].first_key@.len() <= 0xFFFF
}

impl BlockMeta {
    /// Appends the description of each block to `buf`.
    pub fn encode_block_meta(block_meta: &[BlockMeta], buf: &mut Vec<u8>)
        requires
            metas_encodable(block_meta@),
        ensures
            final(buf)@ == old(buf)@ + meta_section(block_meta@),
    {
        let n = block_meta.len();
        let mut i: usize = 0;
        while i < n
            invariant
                n == block_meta@.len(),
                i <= n,
                metas_encodable(block_meta@),
                buf@ == old(buf)@ + meta_section(block_meta@.take(i as int)),
            decreases n - i,
        {
            let meta = &block_meta[i];
            put_u32(buf, meta.offset as u32);
            put_u16(buf, meta.first_key.len() as u16);
            put(buf, meta.first_key.as_slice());
            proof {
                let done = block_meta@.take(i + 1);
                assert(done.drop_last() =~= block_meta@.take(i as int));
                assert(done.last() == block_meta@[i as int]);
                assert(buf@ =~= old(buf)@ + meta_section(done));
            }
            i += 1;
        }
        assert(block_meta@.take(n as int) =~= block_meta@);
    }
}

/// The bytes of a table file, held in memory.
pub struct FileObject {
    data: Vec<u8>,
}

impl View for FileObject {
    type V = Seq<u8>;

    closed spec fn view(&self) -> Seq<u8> {
        self.data@
    }
}

impl FileObject {
    /// A file of the given bytes.
    pub fn create(data: Vec<u8>) -> (file: FileObject)
        ensures
            file@ == data@,
    {
        FileObject { data }
    }

    /// The number of bytes in the file.
    pub fn size(&self) -> (n: u64)
        ensures
            n == self@.len(),
    {
        self.data.len() as u64
    }

    /// All bytes of the file.
    pub fn bytes(&self) -> (b: &[u8])
        ensures
            b@ == self@,
    {
        self.data.as_slice()
    }

    /// Reads `len` bytes from position `offset` on. A range that reaches past
    /// the end of the file is refused.
    pub fn read(&self, offset: u64, len: u64) -> (r: Result<Vec<u8>, StorageError>)
        ensures
            match r {
                Ok(bytes) => offset + len <= self@.len() && bytes@ == self@.subrange(
                    offset as int,
                    offset + len,
                ),
                Err(e) => offset + len > self@.len() && e == StorageError::ReadOutOfRange,
            },
    {
        let size = self.data.len() as u64;
        if offset > size || len > size - offset {
            return Err(StorageError::ReadOutOfRange);
        }
        let begin = offset as usize;
        let end = begin + len as usize;
        Ok(slice_to_vec(slice_subrange(self.data.as_slice(), begin, end)))
    }
}

/// Where the `i`-th block begins: where the one before it ends.
pub open spec fn block_start(metas: Seq<BlockMeta>, i: int) -> int {
    if i <= 0 {
        0
    } else {
        metas[i - 1].offset as int
    }
}

/// The bytes of the `i`-th block.
pub open spec fn block_bytes(bytes: Seq<u8>, metas: Seq<BlockMeta>, i: int) -> Seq<u8> {
    bytes.subrange(block_start(metas, i), metas[i].offset as int)
}

/// The `i`-th block, read from its bytes.
pub open spec fn block_at(bytes: Seq<u8>, metas: Seq<BlockMeta>, i: int) -> BlockView {
    parse_block(block_bytes(bytes, metas, i))->0
}

/// The blocks that `metas` mark out in `bytes`, in file order.
pub open spec fn table_blocks(bytes: Seq<u8>, metas: Seq<BlockMeta>) -> Seq<BlockView> {
    Seq::new(metas.len(), |i: int| block_at(bytes, metas, i))
}

/// The `i`-th block is in place: its range lies in `bytes` behind the block
/// before it, and decodes to a block that can be walked, holds at least one
/// entry, and starts with the key that its description names.
pub open spec fn block_in_place(bytes: Seq<u8>, metas: Seq<BlockMeta>, i: int) -> bool {
    &&& block_start(metas, i) <= metas[i].offset <= bytes.len()
    &&& parse_block(block_bytes(bytes, metas, i)) is Some
    &&& block_at(bytes, metas, i).wf()
    &&& block_at(bytes, metas, i).len() >= 1
    &&& metas[i].first_key@ == block_at(bytes, metas, i).key(0)
}

/// Every block that `metas` describe is in place in `bytes`.
pub open spec fn blocks_in_place(bytes: Seq<u8>, metas: Seq<BlockMeta>) -> bool {
    forall|i: int| 0 <= i < metas.len() ==> #[trigger] block_in_place(bytes, metas, i)
}

/// The encodings of `blocks`, one behind the other.
pub open spec fn blocks_bytes(blocks: Seq<BlockView>) -> Seq<u8>
    decreases blocks.len(),
{
    if blocks.len() == 0 {
        Seq::empty()
    } else {
        blocks_bytes(blocks.drop_last()) + blocks.last().encoding()
    }
}

/// The entries of `blocks`, one block behind the other.
pub open spec fn flat_entries(blocks: Seq<BlockView>) -> Seq<(Seq<u8>, Seq<u8>)>
    decreases blocks.len(),
{
    if blocks.len() == 0 {
        Seq::empty()
    } else {
        flat_entries(blocks.drop_last()) + blocks.last().entries()
    }
}

/// The keys of a list of entries.
pub open spec fn entry_keys(entries: Seq<(Seq<u8>, Seq<u8>)>) -> Seq<Seq<u8>> {
    Seq::new(entries.len(), |i: int| entries[i].0)
}

/// The keys of a list with one more entry are its keys and the key of that
/// entry.
pub proof fn lemma_entry_keys_push(entries: Seq<(Seq<u8>, Seq<u8>)>, entry: (Seq<u8>, Seq<u8>))
    ensures
        entry_keys(entries.push(entry)) == entry_keys(entries).push(entry.0),
{
    assert(entry_keys(entries.push(entry)) =~= entry_keys(entries).push(entry.0));
}

/// The number of entries in the blocks before the `i`-th: the place of the
/// `i`-th block's first entry among all entries.
pub open spec fn start_of(blocks: Seq<BlockView>, i: int) -> int {
    flat_entries(blocks.take(i)).len() as int
}

/// The first block starts at 0, each block starts where the one before it
/// ends, and the last ends with the entries.
pub proof fn lemma_start_of(blocks: Seq<BlockView>, i: int)
    requires
        0 <= i < blocks.len(),
    ensures
        start_of(blocks, 0) == 0,
        start_of(blocks, i + 1) == start_of(blocks, i) + blocks[i].len(),
        start_of(blocks, blocks.len() as int) == flat_entries(blocks).len(),
{
    assert(blocks.take(i + 1).drop_last() =~= blocks.take(i));
    assert(blocks.take(i + 1).last() == blocks[i]);
    assert(blocks.take(blocks.len() as int) =~= blocks);
}

/// Blocks further back start further back.
pub proof fn lemma_start_of_monotone(blocks: Seq<BlockView>, i: int, j: int)
    requires
        0 <= i <= j <= blocks.len(),
    ensures
        start_of(blocks, i) <= start_of(blocks, j),
    decreases j - i,
{
    if i < j {
        lemma_start_of_monotone(blocks, i, j - 1);
        lemma_start_of(blocks, j - 1);
    }
}

/// The `p`-th entry of the `i`-th block stands at `start_of(blocks, i) + p`
/// among all entries.
pub proof fn lemma_flat_index(blocks: Seq<BlockView>, i: int, p: int)
    requires
        0 <= i < blocks.len(),
        0 <= p < blocks[i].len(),
    ensures
        start_of(blocks, i) + p < flat_entries(blocks).len(),
        flat_entries(blocks)[start_of(blocks, i) + p] == blocks[i].entries()[p],
        entry_keys(flat_entries(blocks))[start_of(blocks, i) + p] == blocks[i].key(p),
    decreases blocks.len(),
{
    let front = blocks.drop_last();
    if i == blocks.len() - 1 {
        assert(blocks.take(i) =~= front);
    } else {
        lemma_flat_index(front, i, p);
        assert(front.take(i) =~= blocks.take(i));
    }
}

/// Every place among all entries is a place in one of the blocks.
pub proof fn lemma_locate(blocks: Seq<BlockView>, g: int) -> (at: (int, int))
    requires
        0 <= g < flat_entries(blocks).len(),
    ensures
        0 <= at.0 < blocks.len(),
        0 <= at.1 < blocks[at.0].len(),
        g == start_of(blocks, at.0) + at.1,
    decreases blocks.len(),
{
    let front = blocks.drop_last();
    if g >= flat_entries(front).len() {
        assert(blocks.take(blocks.len() - 1) =~= front);
        (blocks.len() - 1, g - flat_entries(front).len())
    } else {
        let at = lemma_locate(front, g);
        assert(front.take(at.0) =~= blocks.take(at.0));
        at
    }
}

/// Bytes behind the blocks change no block: what was in place stays in place,
/// and reads as before.
pub proof fn lemma_blocks_survive_append(bytes: Seq<u8>, metas: Seq<BlockMeta>, tail: Seq<u8>)
    requires
        blocks_in_place(bytes, metas),
    ensures
        blocks_in_place(bytes + tail, metas),
        table_blocks(bytes + tail, metas) == table_blocks(bytes, metas),
{
    let longer = bytes + tail;
    assert forall|i: int| 0 <= i < metas.len() implies block_bytes(longer, metas, i)
        == block_bytes(bytes, metas, i) && #[trigger] block_in_place(longer, metas, i) by {
        assert(block_in_place(bytes, metas, i));
        assert(block_bytes(longer, metas, i) =~= block_bytes(bytes, metas, i));
    }
    assert forall|i: int| 0 <= i < metas.len() implies table_blocks(longer, metas)[i]
        == table_blocks(bytes, metas)[i] by {
        assert(block_in_place(longer, metas, i));
    }
    assert(table_blocks(longer, metas) =~= table_blocks(bytes, metas));
}

/// A block written behind the others, and described behind the others, is in
/// place, and is the last of the blocks.
pub proof fn lemma_append_block(
    bytes: Seq<u8>,
    metas: Seq<BlockMeta>,
    block: BlockView,
    meta: BlockMeta,
)
    requires
        blocks_in_place(bytes, metas),
        bytes.len() == block_start(metas, metas.len() as int),
        block.wf(),
        block.len() >= 1,
        meta.offset == bytes.len() + block.encoded_len(),
        meta.first_key@ == block.key(0),
    ensures
        blocks_in_place(bytes + block.encoding(), metas.push(meta)),
        table_blocks(bytes + block.encoding(), metas.push(meta)) == table_blocks(
            bytes,
            metas,
        ).push(block),
        (bytes + block.encoding()).len() == block_start(
            metas.push(meta),
            metas.len() as int + 1,
        ),
{
    let longer = bytes + block.encoding();
    let more = metas.push(meta);
    let n = metas.len() as int;
    lemma_decode_encode(block);
    lemma_blocks_survive_append(bytes, metas, block.encoding());
    assert forall|i: int| 0 <= i < more.len() implies #[trigger] block_in_place(
        longer,
        more,
        i,
    ) && block_at(longer, more, i) == table_blocks(bytes, metas).push(block)[i] by {
        if i < n {
            assert(block_in_place(longer, metas, i));
            assert(block_bytes(longer, more, i) == block_bytes(longer, metas, i));
            assert(table_blocks(longer, metas)[i] == block_at(longer, metas, i));
        } else {
            if n > 0 {
                assert(block_in_place(bytes, metas, n - 1));
            }
            assert(block_bytes(longer, more, i) =~= block.encoding());
        }
    }
    assert forall|i: int| 0 <= i < more.len() implies table_blocks(longer, more)[i]
        == table_blocks(bytes, metas).push(block)[i] by {
        assert(block_in_place(longer, more, i));
    }
    assert(table_blocks(longer, more) =~= table_blocks(bytes, metas).push(block));
}

/// One more block adds its encoding behind the encodings of the others, and
/// its entries behind their entries.
pub proof fn lemma_blocks_bytes_push(blocks: Seq<BlockView>, block: BlockView)
    ensures
        blocks_bytes(blocks.push(block)) == blocks_bytes(blocks) + block.encoding(),
        flat_entries(blocks.push(block)) == flat_entries(blocks) + block.entries(),
{
    assert(blocks.push(block).drop_last() =~= blocks);
}

/// `bytes` are blocks back to back and nothing else, and each description
/// names the position at which its block ends.
#[verifier::opaque]
pub open spec fn blocks_layout(bytes: Seq<u8>, metas: Seq<BlockMeta>) -> bool {
    &&& bytes.len() == block_start(metas, metas.len() as int)
    &&& bytes == blocks_bytes(table_blocks(bytes, metas))
    &&& forall|i: int|
        0 <= i < metas.len() ==> (#[trigger] metas[i]).offset == blocks_bytes(
            table_blocks(bytes, metas).take(i + 1),
        ).len()
}

/// `file` is a table: its blocks back to back up to `meta_offset`, then their
/// descriptions, then `meta_offset` itself in four bytes.
#[verifier::opaque]
pub open spec fn table_layout(file: Seq<u8>, metas: Seq<BlockMeta>, meta_offset: int) -> bool {
    &&& meta_offset == block_start(metas, metas.len() as int)
    &&& 0 <= meta_offset <= u32::MAX
    &&& meta_offset == blocks_bytes(table_blocks(file, metas)).len()
    &&& forall|i: int|
        0 <= i < metas.len() ==> (#[trigger] metas[i]).offset == blocks_bytes(
            table_blocks(file, metas).take(i + 1),
        ).len()
    &&& file == blocks_bytes(table_blocks(file, metas)) + meta_section(metas) + be32(
        meta_offset as u32,
    )
}

/// A buffer that is laid out as it should be is the encodings of its blocks.
pub proof fn lemma_layout_bytes(bytes: Seq<u8>, metas: Seq<BlockMeta>)
    requires
        blocks_layout(bytes, metas),
    ensures
        bytes == blocks_bytes(table_blocks(bytes, metas)),
{
    reveal(blocks_layout);
}

/// No blocks make an empty buffer, laid out as it should be.
pub proof fn lemma_no_blocks()
    ensures
        blocks_in_place(Seq::<u8>::empty(), Seq::<BlockMeta>::empty()),
        blocks_layout(Seq::<u8>::empty(), Seq::<BlockMeta>::empty()),
        table_blocks(Seq::<u8>::empty(), Seq::<BlockMeta>::empty()) == Seq::<BlockView>::empty(),
{
    reveal(blocks_layout);
    let blocks = table_blocks(Seq::<u8>::empty(), Seq::<BlockMeta>::empty());
    assert(blocks =~= Seq::<BlockView>::empty());
    assert(blocks_bytes(blocks) =~= Seq::<u8>::empty());
}

/// A block written and described behind blocks that are laid out as they
/// should be leaves them so.
pub proof fn lemma_layout_after_append(
    bytes: Seq<u8>,
    metas: Seq<BlockMeta>,
    block: BlockView,
    meta: BlockMeta,
)
    requires
        blocks_in_place(bytes, metas),
        blocks_layout(bytes, metas),
        block.wf(),
        block.len() >= 1,
        meta.offset == bytes.len() + block.encoded_len(),
        meta.first_key@ == block.key(0),
    ensures
        blocks_in_place(bytes + block.encoding(), metas.push(meta)),
        blocks_layout(bytes + block.encoding(), metas.push(meta)),
        table_blocks(bytes + block.encoding(), metas.push(meta)) == table_blocks(
            bytes,
            metas,
        ).push(block),
{
    reveal(blocks_layout);
    lemma_decode_encode(block);
    lemma_append_block(bytes, metas, block, meta);
    let before = table_blocks(bytes, metas);
    let after = table_blocks(bytes + block.encoding(), metas.push(meta));
    let more = metas.push(meta);
    lemma_blocks_bytes_push(before, block);
    assert forall|i: int| 0 <= i < more.len() implies (#[trigger] more[i]).offset == blocks_bytes(
        after.take(i + 1),
    ).len() by {
        if i < before.len() {
            assert(after.take(i + 1) =~= before.take(i + 1));
            assert(more[i] == metas[i]);
        } else {
            assert(after.take(i + 1) =~= after);
        }
    }
}

/// Blocks that are in place and laid out as they should be make a table when
/// their descriptions and the position of those are written behind them, and
/// the descriptions can be written.
pub proof fn lemma_close_table(bytes: Seq<u8>, metas: Seq<BlockMeta>)
    requires
        blocks_in_place(bytes, metas),
        blocks_layout(bytes, metas),
        bytes.len() <= u32::MAX,
    ensures
        metas_encodable(metas),
        blocks_in_place(bytes + (meta_section(metas) + be32(bytes.len() as u32)), metas),
        table_blocks(bytes + (meta_section(metas) + be32(bytes.len() as u32)), metas)
            == table_blocks(bytes, metas),
        table_layout(
            bytes + (meta_section(metas) + be32(bytes.len() as u32)),
            metas,
            bytes.len() as int,
        ),
{
    reveal(blocks_layout);
    reveal(table_layout);
    let tail = meta_section(metas) + be32(bytes.len() as u32);
    lemma_blocks_survive_append(bytes, metas, tail);
    assert forall|i: int| 0 <= i < metas.len() implies (#[trigger] metas[i]).offset <= u32::MAX
        && metas[i].first_key@.len() <= 0xFFFF by {
        assert(block_in_place(bytes, metas, i));
        assert(block_at(bytes, metas, i).entry_fits(0));
    }
    assert(bytes + tail =~= bytes + meta_section(metas) + be32(bytes.len() as u32));
}

/// Each block keeps to `budget` on the wire unless it holds a single entry.
pub open spec fn blocks_keep_budget(blocks: Seq<BlockView>, budget: usize) -> bool {
    forall|i: int|
        0 <= i < blocks.len() ==> (#[trigger] blocks[i]).len() == 1 || blocks[i].encoded_len()
            <= budget
}

/// In a table whose keys ascend, an entry sorts before every entry of a later
/// block and before every later entry of its own block.
pub proof fn lemma_blocks_ascend(blocks: Seq<BlockView>, i: int, p: int, j: int, q: int)
    requires
        strictly_ascending(entry_keys(flat_entries(blocks))),
        0 <= i <= j < blocks.len(),
        0 <= p < blocks[i].len(),
        0 <= q < blocks[j].len(),
        i < j || p < q,
    ensures
        key_lt(blocks[i].key(p), blocks[j].key(q)),
{
    lemma_flat_index(blocks, i, p);
    lemma_flat_index(blocks, j, q);
    if i < j {
        lemma_start_of(blocks, i);
        lemma_start_of_monotone(blocks, i + 1, j);
    }
}

/// In a table whose keys ascend, the keys of each block ascend.
pub proof fn lemma_block_sorted(blocks: Seq<BlockView>, i: int)
    requires
        strictly_ascending(entry_keys(flat_entries(blocks))),
        0 <= i < blocks.len(),
    ensures
        strictly_ascending(blocks[i].keys()),
{
    let keys = blocks[i].keys();
    assert forall|p: int, q: int| 0 <= p < q < keys.len() implies key_lt(keys[p], keys[q]) by {
        lemma_blocks_ascend(blocks, i, p, i, q);
    }
}

/// Where a two-level search lands is where a search over all entries lands.
///
/// Take a table whose keys ascend and whose blocks are not empty. Let the
/// search within block `i` land at `p`, let the block before `i` end below
/// the target, and, where the search ran off the end of block `i`, let the
/// block behind it not start below the target. Then `p` places behind the
/// start of block `i` is where the target lands among all entries.
pub proof fn lemma_two_level_search(blocks: Seq<BlockView>, target: Seq<u8>, i: int, p: int)
    requires
        strictly_ascending(entry_keys(flat_entries(blocks))),
        forall|b: int| 0 <= b < blocks.len() ==> (#[trigger] blocks[b]).len() >= 1,
        0 <= i < blocks.len(),
        is_lower_bound(blocks[i].keys(), target, p),
        i > 0 ==> key_lt(blocks[i - 1].key(blocks[i - 1].len() - 1), target),
        p == blocks[i].len() && i + 1 < blocks.len() ==> !key_lt(blocks[i + 1].key(0), target),
    ensures
        is_lower_bound(entry_keys(flat_entries(blocks)), target, start_of(blocks, i) + p),
{
    let keys = entry_keys(flat_entries(blocks));
    let g = start_of(blocks, i) + p;
    lemma_start_of(blocks, i);
    lemma_start_of_monotone(blocks, i + 1, blocks.len() as int);
    lemma_start_of_monotone(blocks, 0, i);
    if g > 0 {
        if p > 0 {
            lemma_flat_index(blocks, i, p - 1);
            assert(key_lt(blocks[i].keys()[p - 1], target));
        } else {
            assert(blocks[i - 1].len() >= 1);
            lemma_start_of(blocks, i - 1);
            lemma_flat_index(blocks, i - 1, blocks[i - 1].len() - 1);
        }
    }
    if g < keys.len() {
        if p < blocks[i].len() {
            lemma_flat_index(blocks, i, p);
            assert(!key_lt(blocks[i].keys()[p], target));
        } else {
            assert(blocks[i + 1].len() >= 1);
            lemma_flat_index(blocks, i + 1, 0);
        }
    }
    lemma_lower_bound_from_neighbours(keys, target, g);
}

/// An immutable table of sorted key-value pairs, cut into blocks.
pub struct SsTable {
    id: usize,
    file: FileObject,
    block_metas: Vec<BlockMeta>,
    block_meta_offset: usize,
}

impl SsTable {
    /// The number that the table was given.
    pub closed spec fn ident(&self) -> usize {
        self.id
    }

    /// The bytes of the table file.
    pub closed spec fn file_bytes(&self) -> Seq<u8> {
        self.file@
    }

    /// The description of each block.
    pub closed spec fn metas(&self) -> Seq<BlockMeta> {
        self.block_metas@
    }

    /// Where the blocks end in the file and their descriptions begin.
    pub closed spec fn meta_offset(&self) -> usize {
        self.block_meta_offset
    }

    /// The blocks of the table, read from the file.
    pub open spec fn blocks(&self) -> Seq<BlockView> {
        table_blocks(self.file_bytes(), self.metas())
    }

    /// All entries of the table: those of each block, in block order.
    pub open spec fn entries(&self) -> Seq<(Seq<u8>, Seq<u8>)> {
        flat_entries(self.blocks())
    }

    /// All keys of the table, in the order of its entries.
    pub open spec fn keys(&self) -> Seq<Seq<u8>> {
        entry_keys(self.entries())
    }

    /// The keys of the table ascend from entry to entry, across blocks too.
    pub open spec fn sorted(&self) -> bool {
        strictly_ascending(self.keys())
    }

    /// The file holds what the table says it holds: every block is in place,
    /// the blocks stand back to back from the start of the file, each
    /// description names the end of its block, and behind the blocks the file
    /// holds the descriptions and then the position at which they begin.
    pub open spec fn wf(&self) -> bool {
        &&& blocks_in_place(self.file_bytes(), self.metas())
        &&& table_layout(self.file_bytes(), self.metas(), self.meta_offset() as int)
    }

    /// A table of the given parts.
    pub(crate) fn assemble(
        id: usize,
        file: FileObject,
        block_metas: Vec<BlockMeta>,
        block_meta_offset: usize,
    ) -> (table: SsTable)
        ensures
            table.ident() == id,
            table.file_bytes() == file@,
            table.metas() == block_metas@,
            table.meta_offset() == block_meta_offset,
    {
        SsTable { id, file, block_metas, block_meta_offset }
    }

    /// The number that the table was given.
    pub fn id(&self) -> (id: usize)
        ensures
            id == self.ident(),
    {
        self.id
    }

    /// The table file.
    pub fn file(&self) -> (file: &FileObject)
        ensures
            file@ == self.file_bytes(),
    {
        &self.file
    }

    /// The description of each block, in block order.
    pub fn block_metas(&self) -> (metas: &[BlockMeta])
        ensures
            metas@ == self.metas(),
    {
        self.block_metas.as_slice()
    }

    /// Where the blocks end in the file and their descriptions begin.
    pub fn block_meta_offset(&self) -> (offset: usize)
        ensures
            offset == self.meta_offset(),
    {
        self.block_meta_offset
    }

    /// The number of blocks.
    pub fn num_of_blocks(&self) -> (n: usize)
        ensures
            n == self.blocks().len(),
    {
        self.block_metas.len()
    }
}

} // verus!
