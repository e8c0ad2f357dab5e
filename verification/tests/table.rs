use lsm_table::block::{Block, BlockIterator};
use lsm_table::error::StorageError;
use lsm_table::iterators::StorageIterator;
use lsm_table::table::{BlockMeta, FileObject, SsTable, SsTableBuilder, SsTableIterator};
use std::sync::Arc;

fn key_of(i: usize) -> Vec<u8> {
    format!("key_{:03}", i * 5).into_bytes()
}

fn value_of(i: usize) -> Vec<u8> {
    format!("value_{:010}", i).into_bytes()
}

fn table_of_100() -> SsTable {
    let mut builder = SsTableBuilder::new(128);
    for i in 0..100 {
        builder.add(&key_of(i), &value_of(i));
    }
    builder.build(1).unwrap()
}

fn abcd_table() -> SsTable {
    // An entry takes 1 + 1 + 6 bytes, the entry count 2: two entries fit in
    // 20 bytes, three do not.
    let mut builder = SsTableBuilder::new(20);
    builder.add(b"a", b"1");
    builder.add(b"b", b"2");
    builder.add(b"c", b"3");
    builder.add(b"d", b"4");
    builder.build(0).unwrap()
}

fn collect(iter: &mut SsTableIterator) -> Vec<(Vec<u8>, Vec<u8>)> {
    let mut seen = Vec::new();
    while iter.is_valid() {
        seen.push((iter.key().to_vec(), iter.value().to_vec()));
        iter.next().unwrap();
    }
    seen
}

#[test]
fn test_sst_build_single_key() {
    let mut builder = SsTableBuilder::new(16);
    builder.add(b"233", b"233333");
    let table = builder.build(3).unwrap();
    assert_eq!(table.id(), 3);
    assert_eq!(table.num_of_blocks(), 1);
    assert_eq!(table.block_metas()[0].first_key, b"233".to_vec());
}

#[test]
fn test_sst_build_two_blocks() {
    let mut builder = SsTableBuilder::new(16);
    builder.add(b"11", b"11");
    builder.add(b"22", b"22");
    builder.add(b"33", b"11");
    builder.add(b"44", b"22");
    builder.add(b"55", b"11");
    builder.add(b"66", b"22");
    let table = builder.build(0).unwrap();
    assert!(table.num_of_blocks() >= 2);
}

#[test]
fn test_sst_split_after_two_entries() {
    let table = abcd_table();
    assert_eq!(table.num_of_blocks(), 2);
    let metas = table.block_metas();
    assert_eq!(metas[0].offset, 18);
    assert_eq!(metas[0].first_key, b"a".to_vec());
    assert_eq!(metas[1].offset, 36);
    assert_eq!(metas[1].first_key, b"c".to_vec());
    assert_eq!(table.block_meta_offset(), 36);
}

#[test]
fn test_sst_seek_present_and_absent_key() {
    let table = Arc::new(abcd_table());
    let iter = SsTableIterator::create_and_seek_to_key(table.clone(), b"c").unwrap();
    assert!(iter.is_valid());
    assert_eq!(iter.key(), b"c");
    assert_eq!(iter.value(), b"3");
    let iter = SsTableIterator::create_and_seek_to_key(table, b"bb").unwrap();
    assert!(iter.is_valid());
    assert_eq!(iter.key(), b"c");
    assert_eq!(iter.value(), b"3");
}

#[test]
fn test_sst_file_layout() {
    let table = abcd_table();
    let mut expected = Vec::new();
    // First block: two entries, two offsets, the count.
    expected.extend_from_slice(b"\x00\x01a\x00\x011\x00\x01b\x00\x012");
    expected.extend_from_slice(&[0, 0, 0, 6, 0, 2]);
    // Second block.
    expected.extend_from_slice(b"\x00\x01c\x00\x013\x00\x01d\x00\x014");
    expected.extend_from_slice(&[0, 0, 0, 6, 0, 2]);
    // The descriptions: end of block, length of first key, first key.
    expected.extend_from_slice(&[0, 0, 0, 18, 0, 1, b'a']);
    expected.extend_from_slice(&[0, 0, 0, 36, 0, 1, b'c']);
    // Where the descriptions begin.
    expected.extend_from_slice(&[0, 0, 0, 36]);
    assert_eq!(table.file().bytes(), &expected[..]);
    assert_eq!(table.file().size(), expected.len() as u64);
}

#[test]
fn test_sst_blocks_decode_from_file() {
    let table = abcd_table();
    let bytes = table.file().read(18, 18).unwrap();
    let block = Block::decode(&bytes).unwrap();
    let mut iter = BlockIterator::create_and_seek_to_first(Arc::new(block));
    assert_eq!(iter.key(), b"c");
    iter.next();
    assert_eq!(iter.key(), b"d");
    assert_eq!(iter.value(), b"4");
    iter.next();
    assert!(!iter.is_valid());
}

#[test]
fn test_sst_empty_table() {
    let builder = SsTableBuilder::new(64);
    assert_eq!(builder.estimated_size(), 0);
    let table = builder.build(9).unwrap();
    assert_eq!(table.num_of_blocks(), 0);
    assert_eq!(table.block_meta_offset(), 0);
    assert_eq!(table.file().bytes(), &[0u8, 0, 0, 0][..]);
    let table = Arc::new(table);
    let mut iter = SsTableIterator::create_and_seek_to_first(table.clone()).unwrap();
    assert!(!iter.is_valid());
    iter.next().unwrap();
    assert!(!iter.is_valid());
    iter.seek_to_key(b"a").unwrap();
    assert!(!iter.is_valid());
    let iter = SsTableIterator::create_and_seek_to_key(table, b"a").unwrap();
    assert!(!iter.is_valid());
}

#[test]
fn test_sst_estimated_size_counts_finished_blocks_only() {
    let mut builder = SsTableBuilder::new(20);
    let mut last = builder.estimated_size();
    assert_eq!(last, 0);
    builder.add(b"a", b"1");
    builder.add(b"b", b"2");
    assert_eq!(builder.estimated_size(), 0);
    builder.add(b"c", b"3");
    assert_eq!(builder.estimated_size(), 18);
    for i in 0..50 {
        builder.add(&key_of(i), &value_of(i));
        let now = builder.estimated_size();
        assert!(now >= last);
        last = now;
    }
}

#[test]
fn test_sst_blocks_keep_budget() {
    let table = table_of_100();
    let metas = table.block_metas();
    assert!(metas.len() > 1);
    let mut begin = 0;
    for meta in metas {
        assert!(meta.offset - begin <= 128);
        begin = meta.offset;
    }
}

#[test]
fn test_sst_oversized_entry_gets_its_own_block() {
    let mut builder = SsTableBuilder::new(32);
    let big = vec![b'x'; 500];
    builder.add(b"a", b"1");
    builder.add(b"b", &big);
    builder.add(b"c", b"3");
    let table = builder.build(0).unwrap();
    assert_eq!(table.num_of_blocks(), 3);
    let metas = table.block_metas();
    assert_eq!(metas[0].offset, 10);
    assert_eq!(metas[1].offset, 10 + 1 + 500 + 6 + 2);
    assert_eq!(metas[1].first_key, b"b".to_vec());
    let mut iter = SsTableIterator::create_and_seek_to_first(Arc::new(table)).unwrap();
    let seen = collect(&mut iter);
    assert_eq!(
        seen,
        vec![
            (b"a".to_vec(), b"1".to_vec()),
            (b"b".to_vec(), big.clone()),
            (b"c".to_vec(), b"3".to_vec()),
        ]
    );
}

#[test]
fn test_sst_iterator() {
    let table = Arc::new(table_of_100());
    let mut iter = SsTableIterator::create_and_seek_to_first(table).unwrap();
    for _ in 0..5 {
        for i in 0..100 {
            assert!(iter.is_valid());
            assert_eq!(iter.key(), &key_of(i)[..]);
            assert_eq!(iter.value(), &value_of(i)[..]);
            iter.next().unwrap();
        }
        assert!(!iter.is_valid());
        iter.seek_to_first().unwrap();
    }
}

#[test]
fn test_sst_iterator_exhaustion() {
    let table = Arc::new(table_of_100());
    let mut iter = SsTableIterator::create_and_seek_to_key(table, &key_of(99)).unwrap();
    assert!(iter.is_valid());
    assert_eq!(iter.key(), &key_of(99)[..]);
    iter.next().unwrap();
    assert!(!iter.is_valid());
    iter.next().unwrap();
    assert!(!iter.is_valid());
}

#[test]
fn test_sst_seek_key() {
    let table = Arc::new(table_of_100());
    let mut iter = SsTableIterator::create_and_seek_to_key(table, &key_of(0)).unwrap();
    for offset in 1..=5 {
        for i in 0..100 {
            assert!(iter.is_valid());
            assert_eq!(iter.key(), &key_of(i)[..]);
            assert_eq!(iter.value(), &value_of(i)[..]);
            iter.seek_to_key(&format!("key_{:03}", i * 5 + offset).into_bytes())
                .unwrap();
        }
        assert!(!iter.is_valid());
        iter.seek_to_key(b"k").unwrap();
    }
}

#[test]
fn test_sst_seek_key_matches_flat_lower_bound() {
    let table = Arc::new(table_of_100());
    let all: Vec<Vec<u8>> = (0..100).map(key_of).collect();
    let mut targets: Vec<Vec<u8>> =
        vec![b"".to_vec(), b"a".to_vec(), b"key_".to_vec(), b"z".to_vec()];
    for i in 0..100 {
        targets.push(key_of(i));
        let mut after = key_of(i);
        after.push(0);
        targets.push(after);
        let mut before = key_of(i);
        before.pop();
        targets.push(before);
    }
    for target in targets {
        let expected = all.iter().position(|k| k[..] >= target[..]);
        let iter = SsTableIterator::create_and_seek_to_key(table.clone(), &target).unwrap();
        match expected {
            Some(i) => {
                assert!(iter.is_valid());
                assert_eq!(iter.key(), &all[i][..]);
                assert_eq!(iter.value(), &value_of(i)[..]);
            }
            None => assert!(!iter.is_valid()),
        }
    }
}

#[test]
fn test_sst_seek_to_block() {
    let table = Arc::new(abcd_table());
    let mut iter = SsTableIterator::create_and_seek_to_first(table).unwrap();
    iter.seek_to_block(1).unwrap();
    assert!(iter.is_valid());
    assert_eq!(iter.key(), b"c");
    iter.next().unwrap();
    assert_eq!(iter.key(), b"d");
    // The loaded block again: nothing moves.
    iter.seek_to_block(1).unwrap();
    assert!(iter.is_valid());
    assert_eq!(iter.key(), b"d");
    // No such block.
    iter.seek_to_block(2).unwrap();
    assert!(!iter.is_valid());
    iter.next().unwrap();
    assert!(!iter.is_valid());
    iter.seek_to_block(0).unwrap();
    assert!(iter.is_valid());
    assert_eq!(iter.key(), b"a");
}

#[test]
fn test_sst_seek_block_iter() {
    let table = Arc::new(abcd_table());
    let iter = SsTableIterator::seek_block_iter(1, &table).unwrap();
    assert!(iter.is_valid());
    assert_eq!(iter.key(), b"c");
    assert_eq!(iter.value(), b"3");
    let first = SsTableIterator::seek_block_iter(0, &table).unwrap();
    let mut iter = SsTableIterator::new(table, first);
    assert!(iter.is_valid());
    assert_eq!(iter.key(), b"a");
    assert_eq!(
        collect(&mut iter),
        vec![
            (b"a".to_vec(), b"1".to_vec()),
            (b"b".to_vec(), b"2".to_vec()),
            (b"c".to_vec(), b"3".to_vec()),
            (b"d".to_vec(), b"4".to_vec()),
        ]
    );
}

#[test]
fn test_file_object_read() {
    let file = FileObject::create(vec![10, 11, 12, 13, 14]);
    assert_eq!(file.size(), 5);
    assert_eq!(file.read(1, 3), Ok(vec![11, 12, 13]));
    assert_eq!(file.read(0, 5), Ok(vec![10, 11, 12, 13, 14]));
    assert_eq!(file.read(5, 0), Ok(vec![]));
    assert_eq!(file.read(3, 3), Err(StorageError::ReadOutOfRange));
    assert_eq!(file.read(6, 0), Err(StorageError::ReadOutOfRange));
    assert_eq!(file.read(u64::MAX, 2), Err(StorageError::ReadOutOfRange));
    assert_eq!(file.read(2, u64::MAX), Err(StorageError::ReadOutOfRange));
}

#[test]
fn test_encode_block_meta() {
    let metas = vec![
        BlockMeta { offset: 0x0102_0304, first_key: b"ab".to_vec() },
        BlockMeta { offset: 7, first_key: vec![0xFF; 0x0101] },
    ];
    let mut buf = vec![0xEE];
    BlockMeta::encode_block_meta(&metas, &mut buf);
    let mut expected = vec![0xEE, 1, 2, 3, 4, 0, 2, b'a', b'b', 0, 0, 0, 7, 1, 1];
    expected.extend_from_slice(&[0xFF; 0x0101]);
    assert_eq!(buf, expected);
}
