use lsm_core::block::Block;
use lsm_core::block::BlockBuilder;
use lsm_core::block::BlockIterator;
use lsm_core::error::StorageError;
use std::sync::Arc;

fn sample_block() -> Block {
    let mut builder = BlockBuilder::new(4096);
    assert!(builder.add(b"a", b"1"));
    assert!(builder.add(b"bb", b"22"));
    assert!(builder.add(b"ccc", b"333"));
    builder.build()
}

fn entries_of(block: Block) -> Vec<(Vec<u8>, Vec<u8>)> {
    let mut it = BlockIterator::create_and_seek_to_first(Arc::new(block));
    let mut out = Vec::new();
    while it.is_valid() {
        out.push((it.key().to_vec(), it.value().to_vec()));
        it.next();
    }
    out
}

#[test]
fn block_round_trip_keeps_entries() {
    let block = sample_block();
    let encoded = block.encode();
    let decoded = Block::decode(&encoded).unwrap();
    let mut it = BlockIterator::create_and_seek_to_first(Arc::new(decoded));
    assert!(it.is_valid());
    assert_eq!(it.key(), b"a");
    assert_eq!(it.value(), b"1");
    it.next();
    assert_eq!(it.key(), b"bb");
    assert_eq!(it.value(), b"22");
    it.next();
    assert_eq!(it.key(), b"ccc");
    assert_eq!(it.value(), b"333");
    it.next();
    assert!(!it.is_valid());
}

#[test]
fn block_encoding_is_exact() {
    let mut builder = BlockBuilder::new(64);
    assert!(builder.add(b"k", b"vv"));
    assert!(builder.add(b"m", b""));
    let block = builder.build();
    let encoded = block.encode();
    let expected: Vec<u8> = vec![
        0, 1, b'k', 0, 2, b'v', b'v', // entry at offset 0
        0, 1, b'm', 0, 0, // entry at offset 7
        0, 0, 0, 7, // offsets
        0, 2, // count
    ];
    assert_eq!(encoded.to_vec(), expected);
}

#[test]
fn block_encode_after_decode_gives_the_bytes_back() {
    let encoded = sample_block().encode();
    let again = Block::decode(&encoded).unwrap().encode();
    assert_eq!(encoded.to_vec(), again.to_vec());
}

#[test]
fn block_count_uses_both_trailer_bytes() {
    // 300 entries need the high byte of the count.
    let mut builder = BlockBuilder::new(0xFFFF);
    for i in 0..300u32 {
        let key = format!("key{:05}", i);
        assert!(builder.add(key.as_bytes(), b"v"));
    }
    let encoded = builder.build().encode();
    let n = encoded.len();
    assert_eq!(encoded[n - 2], 1);
    assert_eq!(encoded[n - 1], 44);
    let entries = entries_of(Block::decode(&encoded).unwrap());
    assert_eq!(entries.len(), 300);
    assert_eq!(entries[299].0, b"key00299".to_vec());
}

#[test]
fn block_seek_finds_first_key_at_or_after() {
    let block = Arc::new(sample_block());
    let it = BlockIterator::create_and_seek_to_key(block.clone(), b"b");
    assert_eq!(it.key(), b"bb");
    assert_eq!(it.value(), b"22");
    let it = BlockIterator::create_and_seek_to_key(block.clone(), b"ccc");
    assert_eq!(it.key(), b"ccc");
    assert_eq!(it.value(), b"333");
    let it = BlockIterator::create_and_seek_to_key(block.clone(), b"");
    assert_eq!(it.key(), b"a");
    let it = BlockIterator::create_and_seek_to_key(block, b"d");
    assert!(!it.is_valid());
    assert_eq!(it.key(), b"");
    assert_eq!(it.value(), b"");
}

#[test]
fn block_seek_moves_an_iterator_back_and_forth() {
    let mut it = BlockIterator::create_and_seek_to_first(Arc::new(sample_block()));
    it.seek_to_key(b"c");
    assert_eq!(it.key(), b"ccc");
    it.seek_to_key(b"aa");
    assert_eq!(it.key(), b"bb");
    it.seek_to_first();
    assert_eq!(it.key(), b"a");
    it.seek_to_key(b"zzz");
    assert!(!it.is_valid());
    it.next();
    assert!(!it.is_valid());
    it.seek_to_first();
    assert!(it.is_valid());
}

#[test]
fn block_seek_compares_raw_bytes() {
    let mut builder = BlockBuilder::new(4096);
    assert!(builder.add(&[0x00, 0xff], b"low"));
    assert!(builder.add(&[0x7f], b"mid"));
    assert!(builder.add(&[0x80, 0x00], b"high"));
    assert!(builder.add(&[0xff, 0xfe], b"top"));
    let block = Arc::new(builder.build());
    let it = BlockIterator::create_and_seek_to_key(block.clone(), &[0x80]);
    assert_eq!(it.key(), &[0x80, 0x00]);
    assert_eq!(it.value(), b"high");
    let it = BlockIterator::create_and_seek_to_key(block.clone(), &[0xc3, 0x28]);
    assert_eq!(it.value(), b"top");
    let it = BlockIterator::create_and_seek_to_key(block, &[0xff, 0xff]);
    assert!(!it.is_valid());
}

#[test]
fn block_iterator_is_valid_on_an_empty_key() {
    let mut builder = BlockBuilder::new(64);
    assert!(builder.add(b"", b"nothing"));
    assert!(builder.add(b"a", b""));
    let mut it = BlockIterator::create_and_seek_to_first(Arc::new(builder.build()));
    assert!(it.is_valid());
    assert_eq!(it.key(), b"");
    assert_eq!(it.value(), b"nothing");
    it.next();
    assert!(it.is_valid());
    assert_eq!(it.key(), b"a");
    assert_eq!(it.value(), b"");
    it.next();
    assert!(!it.is_valid());
}

#[test]
fn block_builder_admits_up_to_the_budget() {
    // each entry takes 2 + 1 + 2 + 1 + 2 = 8 bytes of the budget
    let mut builder = BlockBuilder::new(16);
    assert!(builder.is_empty());
    assert!(builder.add(b"a", b"1"));
    assert!(!builder.is_empty());
    assert!(builder.add(b"b", b"2"));
    assert!(!builder.add(b"c", b"3"));
    assert!(!builder.add(b"", b""));
    let entries = entries_of(builder.build());
    assert_eq!(entries, vec![(b"a".to_vec(), b"1".to_vec()), (b"b".to_vec(), b"2".to_vec())]);
}

#[test]
fn block_builder_refuses_an_entry_over_the_budget() {
    let mut builder = BlockBuilder::new(8);
    assert!(!builder.add(b"ab", b"1"));
    assert!(builder.is_empty());
    assert!(builder.add(b"a", b"1"));
    assert!(!builder.add(b"b", b""));
    assert_eq!(builder.build().encode().to_vec(), vec![0, 1, b'a', 0, 1, b'1', 0, 0, 0, 1]);
}

#[test]
fn block_builder_keeps_the_order_it_is_fed() {
    let mut builder = BlockBuilder::new(4096);
    assert!(builder.add(b"z", b"1"));
    assert!(builder.add(b"a", b"2"));
    assert!(builder.add(b"m", b"3"));
    let keys: Vec<Vec<u8>> = entries_of(builder.build()).into_iter().map(|e| e.0).collect();
    assert_eq!(keys, vec![b"z".to_vec(), b"a".to_vec(), b"m".to_vec()]);
}

#[test]
fn block_decode_refuses_malformed_bytes() {
    assert!(matches!(Block::decode(&[]), Err(StorageError::CorruptBlock)));
    assert!(matches!(Block::decode(&[0]), Err(StorageError::CorruptBlock)));
    // announces one entry, has no room for its offset
    assert!(matches!(Block::decode(&[0, 1]), Err(StorageError::CorruptBlock)));
    // one entry at offset 0 whose key length reaches past the data section
    assert!(matches!(
        Block::decode(&[0, 9, b'k', 0, 0, 0, 0, 0, 1]),
        Err(StorageError::CorruptBlock)
    ));
    // the value length reaches past the data section
    assert!(matches!(
        Block::decode(&[0, 1, b'k', 0, 5, b'v', 0, 0, 0, 1]),
        Err(StorageError::CorruptBlock)
    ));
    // the offset points past the data section
    assert!(matches!(
        Block::decode(&[0, 1, b'k', 0, 1, b'v', 0, 6, 0, 1]),
        Err(StorageError::CorruptBlock)
    ));
    // the first entry runs into the second
    assert!(matches!(
        Block::decode(&[0, 1, b'a', 0, 1, b'1', 0, 1, b'b', 0, 0, 0, 0, 0, 3, 0, 2]),
        Err(StorageError::CorruptBlock)
    ));
}

#[test]
fn block_decode_accepts_what_the_layout_allows() {
    // an empty block is a block
    assert!(entries_of(Block::decode(&[0, 0]).unwrap()).is_empty());
    // a byte between two entries belongs to neither
    let bytes = [0, 1, b'a', 0, 1, b'1', 0xEE, 0, 1, b'b', 0, 0, 0, 0, 0, 7, 0, 2];
    let entries = entries_of(Block::decode(&bytes).unwrap());
    assert_eq!(entries, vec![(b"a".to_vec(), b"1".to_vec()), (b"b".to_vec(), Vec::new())]);
}
