use lsm_table::block::{Block, BlockBuilder, BlockIterator};
use lsm_table::error::StorageError;
use std::sync::Arc;

fn key_of(i: usize) -> Vec<u8> {
    format!("key_{:03}", i * 5).into_bytes()
}

fn value_of(i: usize) -> Vec<u8> {
    format!("value_{:010}", i).into_bytes()
}

fn block_of_100() -> Block {
    let mut builder = BlockBuilder::new(10000);
    for i in 0..100 {
        assert!(builder.add(&key_of(i), &value_of(i)));
    }
    builder.build()
}

#[test]
fn test_block_build_single_key() {
    let mut builder = BlockBuilder::new(16);
    assert!(builder.is_empty());
    assert!(builder.add(b"233", b"233333"));
    assert!(!builder.is_empty());
    let block = builder.build();
    assert_eq!(block.offsets(), &[0u16][..]);
    assert_eq!(block.data(), &b"\x00\x03233\x00\x06233333"[..]);
}

#[test]
fn test_block_build_full() {
    let mut builder = BlockBuilder::new(16);
    assert!(builder.add(b"11", b"11"));
    assert!(!builder.add(b"22", b"22"));
    let block = builder.build();
    assert_eq!(block.offsets().len(), 1);
}

#[test]
fn test_block_builder_budget_is_exact() {
    // Two entries of 1 + 1 + 6 bytes and the count: 18 bytes on the wire.
    let mut exact = BlockBuilder::new(18);
    assert!(exact.add(b"a", b"1"));
    assert!(exact.add(b"b", b"2"));
    assert!(!exact.add(b"c", b"3"));
    assert_eq!(exact.build().encode().len(), 18);

    let mut short = BlockBuilder::new(17);
    assert!(short.add(b"a", b"1"));
    assert!(!short.add(b"b", b"2"));
    assert_eq!(short.build().encode().len(), 10);
}

#[test]
fn test_block_builder_rejection_changes_nothing() {
    let mut builder = BlockBuilder::new(18);
    assert!(builder.add(b"a", b"1"));
    assert!(builder.add(b"b", b"2"));
    assert!(!builder.add(b"c", b"3"));
    let block = builder.build();
    assert_eq!(block.offsets(), &[0u16, 6][..]);
    assert_eq!(block.data(), &b"\x00\x01a\x00\x011\x00\x01b\x00\x012"[..]);
}

#[test]
fn test_block_builder_takes_oversized_first_entry() {
    let mut builder = BlockBuilder::new(4);
    let key = vec![7u8; 40];
    let value = vec![9u8; 400];
    assert!(key.len() + value.len() + 6 > 4);
    assert!(builder.add(&key, &value));
    assert!(!builder.add(b"z", b""));
    let block = builder.build();
    assert_eq!(block.offsets(), &[0u16][..]);
    let iter = BlockIterator::create_and_seek_to_first(Arc::new(block));
    assert!(iter.is_valid());
    assert_eq!(iter.key(), &key[..]);
    assert_eq!(iter.value(), &value[..]);
}

#[test]
fn test_block_builder_zero_budget_still_takes_one() {
    let mut builder = BlockBuilder::new(0);
    assert!(builder.add(b"k", b"v"));
    assert!(!builder.add(b"l", b"w"));
}

#[test]
fn test_block_builder_stops_at_buffer_limit() {
    // The budget would allow more, but behind the first entry the buffer may
    // not grow past 65535 bytes.
    let value = vec![0u8; 0xFFFF];
    let mut builder = BlockBuilder::new(1 << 20);
    assert!(builder.add(b"a", &value));
    assert!(!builder.add(b"b", b""));
    assert_eq!(builder.build().data().len(), 0xFFFF + 5);

    // 1 + 65525 + 4 bytes, then 1 + 0 + 4: 65535 in all.
    let mut builder = BlockBuilder::new(1 << 20);
    assert!(builder.add(b"a", &value[..0xFFFF - 10]));
    assert!(builder.add(b"b", b""));
    assert!(!builder.add(b"c", b""));
    let block = builder.build();
    assert_eq!(block.offsets(), &[0u16, 0xFFFF - 5][..]);
    assert_eq!(block.data().len(), 0xFFFF);

    // One byte more in the first entry, and the second does not fit.
    let mut builder = BlockBuilder::new(1 << 20);
    assert!(builder.add(b"a", &value[..0xFFFF - 9]));
    assert!(!builder.add(b"b", b""));
}

#[test]
fn test_block_builder_takes_longest_key_and_value() {
    let key = vec![b'k'; 0xFFFF];
    let value = vec![b'v'; 0xFFFF];
    let mut builder = BlockBuilder::new(64);
    assert!(builder.add(&key, &value));
    let block = builder.build();
    assert_eq!(block.data().len(), 2 * 0xFFFF + 4);
    assert_eq!(&block.data()[..2], &[0xFF, 0xFF][..]);
    let decoded = Block::decode(&block.encode()).unwrap();
    let iter = BlockIterator::create_and_seek_to_first(Arc::new(decoded));
    assert!(iter.is_valid());
    assert_eq!(iter.key(), &key[..]);
    assert_eq!(iter.value(), &value[..]);
}

#[test]
fn test_block_encode() {
    let mut builder = BlockBuilder::new(100);
    assert!(builder.add(b"ab", b"c"));
    assert!(builder.add(b"d", b""));
    let encoded = builder.build().encode();
    assert_eq!(
        &encoded[..],
        &b"\x00\x02ab\x00\x01c\x00\x01d\x00\x00\x00\x00\x00\x07\x00\x02"[..]
    );
}

#[test]
fn test_block_encode_offsets_are_big_endian() {
    let mut builder = BlockBuilder::new(4096);
    let value = vec![1u8; 0x0200];
    assert!(builder.add(b"a", &value));
    assert!(builder.add(b"b", b"x"));
    let block = builder.build();
    assert_eq!(block.offsets(), &[0u16, 0x0205][..]);
    let encoded = block.encode();
    let n = encoded.len();
    assert_eq!(&encoded[n - 6..], &[0x00, 0x00, 0x02, 0x05, 0x00, 0x02][..]);
    assert_eq!(&encoded[..3], &[0x00, 0x01, b'a'][..]);
    assert_eq!(&encoded[3..5], &[0x02, 0x00][..]);
}

#[test]
fn test_block_decode() {
    let block = block_of_100();
    let encoded = block.encode();
    let decoded = Block::decode(&encoded).unwrap();
    assert_eq!(block.offsets(), decoded.offsets());
    assert_eq!(block.data(), decoded.data());
    assert_eq!(&decoded.encode()[..], &encoded[..]);
}

#[test]
fn test_block_decode_empty_block() {
    let decoded = Block::decode(&[0, 0]).unwrap();
    assert!(decoded.data().is_empty());
    assert!(decoded.offsets().is_empty());
    let iter = BlockIterator::create_and_seek_to_first(Arc::new(decoded));
    assert!(!iter.is_valid());
}

#[test]
fn test_block_decode_malformed() {
    assert_eq!(Block::decode(&[]).err(), Some(StorageError::MalformedBlock));
    assert_eq!(Block::decode(&[0]).err(), Some(StorageError::MalformedBlock));
    // One entry declared, no room for its offset.
    assert_eq!(Block::decode(&[0, 1]).err(), Some(StorageError::MalformedBlock));
    assert_eq!(Block::decode(&[9, 0, 1]).err(), Some(StorageError::MalformedBlock));
    // 0x0100 entries declared in four bytes.
    assert_eq!(Block::decode(&[0, 0, 1, 0]).err(), Some(StorageError::MalformedBlock));
    assert!(Block::decode(&[0, 0, 0, 1]).is_ok());
}

#[test]
fn test_block_decode_splits_buffer_and_offsets() {
    let decoded = Block::decode(&[0xAA, 0xBB, 0x01, 0x02, 0x03, 0x04, 0x00, 0x02]).unwrap();
    assert_eq!(decoded.data(), &[0xAA, 0xBB][..]);
    assert_eq!(decoded.offsets(), &[0x0102u16, 0x0304][..]);
}

#[test]
fn test_block_iterator() {
    let block = Arc::new(block_of_100());
    let mut iter = BlockIterator::create_and_seek_to_first(block);
    for _ in 0..5 {
        for i in 0..100 {
            assert!(iter.is_valid());
            assert_eq!(iter.key(), &key_of(i)[..]);
            assert_eq!(iter.value(), &value_of(i)[..]);
            iter.next();
        }
        assert!(!iter.is_valid());
        iter.seek_to_first();
    }
}

#[test]
fn test_block_iterator_visits_in_order_with_n_minus_one_steps() {
    let block = Arc::new(block_of_100());
    let mut iter = BlockIterator::create_and_seek_to_first(block);
    let mut seen = vec![(iter.key().to_vec(), iter.value().to_vec())];
    for _ in 0..99 {
        iter.next();
        assert!(iter.is_valid());
        seen.push((iter.key().to_vec(), iter.value().to_vec()));
    }
    let expected: Vec<_> = (0..100).map(|i| (key_of(i), value_of(i))).collect();
    assert_eq!(seen, expected);
}

#[test]
fn test_block_iterator_exhaustion() {
    let block = Arc::new(block_of_100());
    let mut iter = BlockIterator::create_and_seek_to_key(block, &key_of(99));
    assert!(iter.is_valid());
    assert_eq!(iter.key(), &key_of(99)[..]);
    iter.next();
    assert!(!iter.is_valid());
    iter.next();
    assert!(!iter.is_valid());
    iter.seek_to_first();
    assert!(iter.is_valid());
    assert_eq!(iter.key(), &key_of(0)[..]);
}

#[test]
fn test_block_seek_key() {
    let block = Arc::new(block_of_100());
    let mut iter = BlockIterator::create_and_seek_to_key(block, &key_of(0));
    for offset in 1..=5 {
        for i in 0..100 {
            assert!(iter.is_valid());
            assert_eq!(iter.key(), &key_of(i)[..]);
            assert_eq!(iter.value(), &value_of(i)[..]);
            iter.seek_to_key(&format!("key_{:03}", i * 5 + offset).into_bytes());
        }
        assert!(!iter.is_valid());
        iter.seek_to_key(b"k");
    }
}

#[test]
fn test_block_seek_key_bounds() {
    let block = Arc::new(block_of_100());
    let mut iter = BlockIterator::create_and_seek_to_key(block, b"a");
    assert!(iter.is_valid());
    assert_eq!(iter.key(), &key_of(0)[..]);
    iter.seek_to_key(b"key_4950");
    assert!(!iter.is_valid());
    iter.seek_to_key(b"key_495");
    assert!(iter.is_valid());
    assert_eq!(iter.key(), &key_of(99)[..]);
    iter.seek_to_key(b"key_49");
    assert_eq!(iter.key(), &key_of(98)[..]);
    iter.seek_to_key(b"z");
    assert!(!iter.is_valid());
}

#[test]
fn test_block_is_well_formed() {
    assert!(block_of_100().is_well_formed());
    assert!(Block::decode(&block_of_100().encode()).unwrap().is_well_formed());
    assert!(Block::decode(&[0, 0]).unwrap().is_well_formed());

    let good: &[u8] = b"\x00\x01a\x00\x011\x00\x01b\x00\x012\x00\x00\x00\x06\x00\x02";
    assert!(Block::decode(good).unwrap().is_well_formed());
    // The offset of the second entry points into the first.
    let overlap: &[u8] = b"\x00\x01a\x00\x011\x00\x01b\x00\x012\x00\x00\x00\x05\x00\x02";
    assert!(!Block::decode(overlap).unwrap().is_well_formed());
    // An offset past the end of the buffer.
    let outside: &[u8] = b"\x00\x01a\x00\x011\x00\x0b\x00\x01";
    assert!(!Block::decode(outside).unwrap().is_well_formed());
    // A key that claims more bytes than there are.
    let long_key: &[u8] = b"\x00\x09a\x00\x011\x00\x00\x00\x01";
    assert!(!Block::decode(long_key).unwrap().is_well_formed());
    // A value that claims more bytes than there are.
    let long_value: &[u8] = b"\x00\x01a\x00\x021\x00\x00\x00\x01";
    assert!(!Block::decode(long_value).unwrap().is_well_formed());
    // An empty key.
    let no_key: &[u8] = b"\x00\x00\x00\x011\x00\x00\x00\x01";
    assert!(!Block::decode(no_key).unwrap().is_well_formed());
    // Offsets in descending order.
    let swapped: &[u8] = b"\x00\x01a\x00\x011\x00\x01b\x00\x012\x00\x06\x00\x00\x00\x02";
    assert!(!Block::decode(swapped).unwrap().is_well_formed());
}
