//! A block: the smallest unit that is read and cached. It holds key-value
//! entries back to back in one buffer, and the offset at which each starts.
//!
//! On the wire a block is its entry buffer, then the offsets, then the number
//! of entries; offsets and count are 16-bit big-endian. An entry is the key's
//! length, the key, the value's length and the value, both lengths 16-bit
//! big-endian too.

mod builder;
mod iterator;

pub use builder::BlockBuilder;
pub use iterator::BlockIterator;

use crate::error::StorageError;
use crate::wire::{
    be16, be16_value, bytes_from_vec, bytes_view, get_u16, lemma_be16_round_trip, put_u16,
};
use bytes::Bytes;
use vstd::prelude::*;
use vstd::slice::{slice_subrange, slice_to_vec};

verus! {

/// The width of an offset, a length or the entry count on the wire.
pub const SIZEOF_U16: usize = 2;

/// What one entry adds to a block on the wire besides its key and value: two
/// bytes for each length and two for its slot in the offset index.
pub const ENTRY_OVERHEAD: usize = 6;

/// What every block carries on the wire besides its entries: the entry count.
pub const BLOCK_OVERHEAD: usize = 2;

/// The bytes of one entry: length-prefixed key, then length-prefixed value.
pub open spec fn entry_bytes(key: Seq<u8>, value: Seq<u8>) -> Seq<u8> {
    be16(key.len() as u16) + key + be16(value.len() as u16) + value
}

/// The offsets of a block as they stand on the wire, two bytes each.
pub open spec fn offsets_bytes(offsets: Seq<u16>) -> Seq<u8> {
    Seq::new(
        2 * offsets.len(),
        |j: int|
            if j % 2 == 0 {
                (offsets[j / 2] / 256) as u8
            } else {
                (offsets[j / 2] % 256) as u8
            },
    )
}

/// The length that the key of the entry at `at` declares.
pub open spec fn key_len_at(data: Seq<u8>, at: int) -> int {
    be16_value(data[at], data[at + 1]) as int
}

/// Where the key of the entry at `at` ends and the length of its value stands.
pub open spec fn key_end_at(data: Seq<u8>, at: int) -> int {
    at + 2 + key_len_at(data, at)
}

/// The length that the value of the entry at `at` declares.
pub open spec fn value_len_at(data: Seq<u8>, at: int) -> int {
    be16_value(data[key_end_at(data, at)], data[key_end_at(data, at) + 1]) as int
}

/// Where the entry at `at` ends.
pub open spec fn entry_end_at(data: Seq<u8>, at: int) -> int {
    key_end_at(data, at) + 2 + value_len_at(data, at)
}

/// The key of the entry at `at`.
pub open spec fn key_at(data: Seq<u8>, at: int) -> Seq<u8> {
    data.subrange(at + 2, key_end_at(data, at))
}

/// The value of the entry at `at`.
pub open spec fn value_at(data: Seq<u8>, at: int) -> Seq<u8> {
    data.subrange(key_end_at(data, at) + 2, entry_end_at(data, at))
}

/// The entry at `at` lies inside the buffer, and its key is not empty.
pub open spec fn entry_fits_at(data: Seq<u8>, at: int) -> bool {
    &&& 0 <= at
    &&& at + 2 <= data.len()
    &&& 0 < key_len_at(data, at)
    &&& key_end_at(data, at) + 2 <= data.len()
    &&& entry_end_at(data, at) <= data.len()
}

/// What a block is made of: the entry buffer and the offset index.
#[verifier::ext_equal]
pub struct BlockView {
    pub data: Seq<u8>,
    pub offsets: Seq<u16>,
}

impl BlockView {
    /// The block without entries.
    pub open spec fn empty() -> BlockView {
        BlockView { data: Seq::empty(), offsets: Seq::empty() }
    }

    /// The number of entries.
    pub open spec fn len(self) -> nat {
        self.offsets.len()
    }

    /// The `i`-th key.
    pub open spec fn key(self, i: int) -> Seq<u8> {
        key_at(self.data, self.offsets[i] as int)
    }

    /// The `i`-th value.
    pub open spec fn value(self, i: int) -> Seq<u8> {
        value_at(self.data, self.offsets[i] as int)
    }

    /// Where the `i`-th entry ends.
    pub open spec fn entry_end(self, i: int) -> int {
        entry_end_at(self.data, self.offsets[i] as int)
    }

    /// The `i`-th entry lies inside the buffer, and its key is not empty.
    pub open spec fn entry_fits(self, i: int) -> bool {
        entry_fits_at(self.data, self.offsets[i] as int)
    }

    /// The block can be walked: there are at most 65535 entries, each lies
    /// inside the buffer with a key that is not empty, and each ends before
    /// the next begins, so the offsets strictly increase.
    pub open spec fn wf(self) -> bool {
        &&& self.offsets.len() <= 0xFFFF
        &&& forall|i: int| 0 <= i < self.offsets.len() ==> #[trigger] self.entry_fits(i)
        &&& forall|i: int, j: int|
            0 <= i < j < self.offsets.len() ==> #[trigger] self.entry_end(i)
                <= #[trigger] self.offsets[j]
    }

    /// All entries, in block order.
    pub open spec fn entries(self) -> Seq<(Seq<u8>, Seq<u8>)> {
        Seq::new(self.len(), |i: int| (self.key(i), self.value(i)))
    }

    /// All keys, in block order.
    pub open spec fn keys(self) -> Seq<Seq<u8>> {
        Seq::new(self.len(), |i: int| self.key(i))
    }

    /// The block with one more entry behind the others.
    pub open spec fn push_entry(self, key: Seq<u8>, value: Seq<u8>) -> BlockView {
        BlockView {
            data: self.data + entry_bytes(key, value),
            offsets: self.offsets.push(self.data.len() as u16),
        }
    }

    /// The block on the wire.
    pub open spec fn encoding(self) -> Seq<u8> {
        self.data + offsets_bytes(self.offsets) + be16(self.offsets.len() as u16)
    }

    /// The length of the block on the wire.
    pub open spec fn encoded_len(self) -> nat {
        self.data.len() + 2 * self.offsets.len() + 2
    }
}

/// The block that holds `entries`, added one after the other.
pub open spec fn block_of(entries: Seq<(Seq<u8>, Seq<u8>)>) -> BlockView
    decreases entries.len(),
{
    if entries.len() == 0 {
        BlockView::empty()
    } else {
        block_of(entries.drop_last()).push_entry(entries.last().0, entries.last().1)
    }
}

/// A key and a value whose lengths fit their 16-bit prefixes, the key not
/// empty.
pub open spec fn entry_sizes_ok(key: Seq<u8>, value: Seq<u8>) -> bool {
    0 < key.len() <= 0xFFFF && value.len() <= 0xFFFF
}

/// An entry of admissible sizes, written at the end of a buffer, reads back as
/// it was written, and the entries before it read as they did.
pub proof fn lemma_push_entry(b: BlockView, key: Seq<u8>, value: Seq<u8>)
    requires
        b.wf(),
        b.data.len() <= 0xFFFF,
        b.offsets.len() < 0xFFFF,
        entry_sizes_ok(key, value),
    ensures
        b.push_entry(key, value).wf(),
        b.push_entry(key, value).entries() == b.entries().push((key, value)),
        b.push_entry(key, value).keys() == b.keys().push(key),
        b.push_entry(key, value).data.len() == b.data.len() + key.len() + value.len() + 4,
{
    let c = b.push_entry(key, value);
    let n = b.offsets.len() as int;
    let at = b.data.len() as int;
    let e = entry_bytes(key, value);
    lemma_be16_round_trip(key.len() as u16);
    lemma_be16_round_trip(value.len() as u16);
    assert(e.len() == key.len() + value.len() + 4);
    assert(c.offsets[n] == at);
    assert(c.data[at] == be16(key.len() as u16)[0]);
    assert(c.data[at + 1] == be16(key.len() as u16)[1]);
    assert(key_len_at(c.data, at) == key.len());
    let ke = key_end_at(c.data, at);
    assert(c.data[ke] == be16(value.len() as u16)[0]);
    assert(c.data[ke + 1] == be16(value.len() as u16)[1]);
    assert(value_len_at(c.data, at) == value.len());
    assert(key_at(c.data, at) =~= key);
    assert(value_at(c.data, at) =~= value);
    assert forall|i: int|
        #![trigger c.entry_fits(i)]
        #![trigger c.key(i)]
        #![trigger c.value(i)]
        0 <= i < n implies c.key(i) == b.key(i) && c.value(i) == b.value(i) && c.entry_end(i)
            == b.entry_end(i) && c.entry_fits(i) by {
        assert(b.entry_fits(i));
        let o = b.offsets[i] as int;
        assert(c.offsets[i] == o);
        assert(key_len_at(c.data, o) == key_len_at(b.data, o));
        assert(value_len_at(c.data, o) == value_len_at(b.data, o));
        assert(key_at(c.data, o) =~= key_at(b.data, o));
        assert(value_at(c.data, o) =~= value_at(b.data, o));
    }
    assert(c.entry_fits(n));
    assert forall|i: int, j: int| 0 <= i < j < c.offsets.len() implies #[trigger] c.entry_end(i)
        <= #[trigger] c.offsets[j] by {
        assert(c.entry_fits(i));
        if j < n {
            assert(b.entry_end(i) <= b.offsets[j]);
        } else {
            assert(b.entry_fits(i));
        }
    }
    assert(c.entries() =~= b.entries().push((key, value)));
    assert(c.keys() =~= b.keys().push(key));
}

/// Entries that one block can take in this order: each of admissible sizes,
/// and each but the first starting at an offset that 16 bits can hold.
pub open spec fn fits_one_block(entries: Seq<(Seq<u8>, Seq<u8>)>) -> bool {
    &&& forall|i: int| 0 <= i < entries.len() ==> entry_sizes_ok(entries[i].0, entries[i].1)
    &&& forall|i: int| 0 < i < entries.len() ==> block_of(entries.take(i)).data.len() <= 0xFFFF
}

/// Entries come out of a block as they went in: the block built from a list of
/// entries can be walked, and walking it gives that list, in that order.
pub proof fn lemma_block_of_entries(entries: Seq<(Seq<u8>, Seq<u8>)>)
    requires
        fits_one_block(entries),
    ensures
        block_of(entries).wf(),
        block_of(entries).entries() == entries,
        block_of(entries).len() == entries.len(),
        5 * entries.len() <= block_of(entries).data.len(),
    decreases entries.len(),
{
    if entries.len() == 0 {
        assert(block_of(entries).entries() =~= entries);
    } else {
        let front = entries.drop_last();
        assert forall|i: int| 0 < i < front.len() implies block_of(front.take(i)).data.len()
            <= 0xFFFF by {
            assert(front.take(i) =~= entries.take(i));
        }
        lemma_block_of_entries(front);
        if front.len() > 0 {
            assert(entries.take(front.len() as int) =~= front);
        }
        lemma_push_entry(block_of(front), entries.last().0, entries.last().1);
        assert(front.push(entries.last()) =~= entries);
    }
}

/// The block that `bytes` spell, if they are long enough for the entry count in
/// their last two bytes and for as many offsets before it.
pub open spec fn parse_block(bytes: Seq<u8>) -> Option<BlockView> {
    if bytes.len() < 2 {
        None
    } else {
        let n = be16_value(bytes[bytes.len() - 2], bytes[bytes.len() - 1]) as int;
        if bytes.len() < 2 + 2 * n {
            None
        } else {
            let begin = bytes.len() - 2 - 2 * n;
            Some(
                BlockView {
                    data: bytes.subrange(0, begin),
                    offsets: Seq::new(
                        n as nat,
                        |i: int| be16_value(bytes[begin + 2 * i], bytes[begin + 2 * i + 1]),
                    ),
                },
            )
        }
    }
}

/// A block survives the wire: decoding what was encoded gives the same buffer
/// and the same offsets, and so the same entries.
pub proof fn lemma_decode_encode(b: BlockView)
    requires
        b.offsets.len() <= 0xFFFF,
    ensures
        b.encoding().len() == b.encoded_len(),
        parse_block(b.encoding()) == Some(b),
{
    let bytes = b.encoding();
    let n = b.offsets.len() as int;
    assert(bytes.len() == b.data.len() + 2 * n + 2);
    assert(bytes[bytes.len() - 2] == be16(n as u16)[0]);
    assert(bytes[bytes.len() - 1] == be16(n as u16)[1]);
    let begin = bytes.len() - 2 - 2 * n;
    let parsed = parse_block(bytes)->0;
    assert(parsed.data =~= b.data);
    assert forall|i: int| 0 <= i < n implies parsed.offsets[i] == b.offsets[i] by {
        assert(bytes[begin + 2 * i] == offsets_bytes(b.offsets)[2 * i]);
        assert(bytes[begin + 2 * i + 1] == offsets_bytes(b.offsets)[2 * i + 1]);
    }
    assert(parsed.offsets =~= b.offsets);
    assert(parsed =~= b);
}

/// Bytes survive the decoder: whatever decodes is the encoding of what it
/// decodes to, so no two byte strings give the same block.
pub proof fn lemma_encode_decode(bytes: Seq<u8>)
    requires
        parse_block(bytes) is Some,
    ensures
        parse_block(bytes)->0.offsets.len() <= 0xFFFF,
        parse_block(bytes)->0.encoding() == bytes,
{
    let b = parse_block(bytes)->0;
    let n = b.offsets.len() as int;
    let begin = bytes.len() - 2 - 2 * n;
    assert forall|j: int| 0 <= j < bytes.len() implies b.encoding()[j] == bytes[j] by {
        if j >= begin && j < begin + 2 * n {
            let k = j - begin;
            assert(b.encoding()[j] == offsets_bytes(b.offsets)[k]);
            assert(begin + 2 * (k / 2) + k % 2 == j);
        }
    }
    assert(b.encoding() =~= bytes);
}

/// A collection of key-value entries, ready to be read or written out.
pub struct Block {
    data: Vec<u8>,
    offsets: Vec<u16>,
}

impl View for Block {
    type V = BlockView;

    closed spec fn view(&self) -> BlockView {
        BlockView { data: self.data@, offsets: self.offsets@ }
    }
}

impl Block {
    /// A block of the given entry buffer and offset index.
    pub(crate) fn from_parts(data: Vec<u8>, offsets: Vec<u16>) -> (b: Block)
        ensures
            b@ == (BlockView { data: data@, offsets: offsets@ }),
    {
        Block { data, offsets }
    }

    /// The entry buffer.
    pub fn data(&self) -> (d: &[u8])
        ensures
            d@ == self@.data,
    {
        self.data.as_slice()
    }

    /// The offset index.
    pub fn offsets(&self) -> (o: &[u16])
        ensures
            o@ == self@.offsets,
    {
        self.offsets.as_slice()
    }

    /// Checks that the block can be walked. A block that was built can; one
    /// that was decoded from bytes of unknown descent need not.
    pub fn is_well_formed(&self) -> (ok: bool)
        ensures
            ok == self@.wf(),
    {
        let count = self.offsets.len();
        if count > 0xFFFF {
            return false;
        }
        let len = self.data.len();
        let mut floor: usize = 0;
        let mut i: usize = 0;
        while i < count
            invariant
                count == self@.offsets.len(),
                len == self@.data.len(),
                i <= count,
                floor <= len,
                i == 0 ==> floor == 0,
                i > 0 ==> floor == self@.entry_end(i - 1),
                forall|k: int| 0 <= k < i ==> #[trigger] self@.entry_fits(k),
                forall|k: int| 0 <= k < i ==> #[trigger] self@.entry_end(k) <= floor,
                forall|k: int, j: int|
                    0 <= k < j < i ==> #[trigger] self@.entry_end(k) <= #[trigger] self@.offsets[j],
            decreases count - i,
        {
            let at = self.offsets[i] as usize;
            if at < floor {
                assert(self@.entry_end(i - 1) > self@.offsets[i as int]);
                return false;
            }
            if len - floor < SIZEOF_U16 || at > len - SIZEOF_U16 {
                assert(!self@.entry_fits(i as int));
                return false;
            }
            let key_len = get_u16(slice_subrange(self.data.as_slice(), at, len)) as usize;
            let key_end = at + SIZEOF_U16 + key_len;
            if key_len == 0 || key_end > len || len - key_end < SIZEOF_U16 {
                assert(!self@.entry_fits(i as int));
                return false;
            }
            let value_len = get_u16(slice_subrange(self.data.as_slice(), key_end, len)) as usize;
            let entry_end = key_end + SIZEOF_U16 + value_len;
            if entry_end > len {
                assert(!self@.entry_fits(i as int));
                return false;
            }
            assert(self@.entry_fits(i as int));
            assert(self@.entry_end(i as int) == entry_end);
            floor = entry_end;
            i += 1;
        }
        true
    }

    /// Writes the block out: the entry buffer, each offset, the entry count.
    pub fn encode(&self) -> (bytes: Bytes)
        requires
            self@.offsets.len() <= 0xFFFF,
        ensures
            bytes_view(bytes) == self@.encoding(),
    {
        let mut buf = slice_to_vec(self.data.as_slice());
        let n = self.offsets.len();
        let mut i: usize = 0;
        while i < n
            invariant
                n == self.offsets@.len(),
                i <= n,
                buf@ == self.data@ + offsets_bytes(self.offsets@.take(i as int)),
            decreases n - i,
        {
            put_u16(&mut buf, self.offsets[i]);
            proof {
                let before = offsets_bytes(self.offsets@.take(i as int));
                let after = offsets_bytes(self.offsets@.take(i + 1));
                assert(after =~= before + be16(self.offsets@[i as int]));
            }
            i += 1;
        }
        assert(self.offsets@.take(n as int) =~= self.offsets@);
        put_u16(&mut buf, n as u16);
        bytes_from_vec(buf)
    }

    /// Reads a block back. The last two bytes give the entry count, the
    /// offsets stand right before them, and all that comes before is the entry
    /// buffer. Bytes too short for that are refused.
    pub fn decode(data: &[u8]) -> (r: Result<Block, StorageError>)
        ensures
            match r {
                Ok(b) => parse_block(data@) == Some(b@) && b@.offsets.len() <= 0xFFFF,
                Err(e) => e == StorageError::MalformedBlock && parse_block(data@) is None,
            },
    {
        let len = data.len();
        if len < SIZEOF_U16 {
            return Err(StorageError::MalformedBlock);
        }
        let offsets_end = len - SIZEOF_U16;
        let num_entry = get_u16(slice_subrange(data, offsets_end, len)) as usize;
        if len - SIZEOF_U16 < num_entry * SIZEOF_U16 {
            return Err(StorageError::MalformedBlock);
        }
        let offsets_begin = offsets_end - num_entry * SIZEOF_U16;
        let decode_data = slice_to_vec(slice_subrange(data, 0, offsets_begin));
        let mut decode_offsets: Vec<u16> = Vec::new();
        let mut i: usize = 0;
        while i < num_entry
            invariant
                len == data@.len(),
                offsets_begin + 2 * num_entry + 2 == len,
                i <= num_entry,
                decode_offsets@.len() == i,
                forall|k: int|
                    0 <= k < i ==> decode_offsets@[k] == be16_value(
                        data@[offsets_begin + 2 * k],
                        data@[offsets_begin + 2 * k + 1],
                    ),
            decreases num_entry - i,
        {
            let at = offsets_begin + i * SIZEOF_U16;
            decode_offsets.push(get_u16(slice_subrange(data, at, at + SIZEOF_U16)));
            i += 1;
        }
        let block = Block::from_parts(decode_data, decode_offsets);
        assert(block@ =~= parse_block(data@)->0);
        Ok(block)
    }
}

} // verus!
