use bytes::Bytes;
use lsm_core::block::BlockIterator;
use lsm_core::error::StorageError;
use lsm_core::iterators::StorageIterator;
use lsm_core::table::BlockMeta;
use lsm_core::table::FileObject;
use lsm_core::table::SsTable;
use lsm_core::table::SsTableBuilder;
use lsm_core::table::SsTableIterator;
use std::sync::Arc;

fn drain(it: &mut SsTableIterator) -> Vec<(Vec<u8>, Vec<u8>)> {
    let mut out = Vec::new();
    while it.is_valid() {
        out.push((it.key().to_vec(), it.value().to_vec()));
        it.next().unwrap();
    }
    out
}

fn three_entry_table() -> SsTable {
    let mut builder = SsTableBuilder::new(32);
    builder.add(b"k1", b"vvvvvvv");
    builder.add(b"k2", b"vvvvvvv");
    builder.add(b"k3", b"vvvvvvv");
    builder.build(1)
}

fn numbered(i: u32) -> (Vec<u8>, Vec<u8>) {
    (format!("key_{:04}", i).into_bytes(), format!("value_{}", i).into_bytes())
}

fn numbered_table(count: u32, block_size: usize) -> SsTable {
    let mut builder = SsTableBuilder::new(block_size);
    for i in 0..count {
        let (k, v) = numbered(i * 2);
        builder.add(&k, &v);
    }
    builder.build(7)
}

fn file_bytes(table: &SsTable) -> Vec<u8> {
    let file = table.file();
    file.read(0, file.size()).unwrap()
}

#[test]
fn sst_across_blocks_seek_and_scan() {
    let table = Arc::new(three_entry_table());
    assert!(table.num_of_blocks() >= 2);
    let mut it = SsTableIterator::create_and_seek_to_key(table, b"k2").unwrap();
    assert_eq!(
        drain(&mut it),
        vec![(b"k2".to_vec(), b"vvvvvvv".to_vec()), (b"k3".to_vec(), b"vvvvvvv".to_vec())]
    );
    assert!(!it.is_valid());
    assert_eq!(it.key(), b"");
}

#[test]
fn sst_layout_is_exact() {
    let mut builder = SsTableBuilder::new(16);
    builder.add(b"a", b"1");
    builder.add(b"b", b"2");
    builder.add(b"c", b"3");
    assert_eq!(builder.estimated_size(), 18);
    let table = builder.build(3);
    assert_eq!(table.id(), 3);
    assert_eq!(table.num_of_blocks(), 2);
    let expected: Vec<u8> = vec![
        // block 0: a=1, b=2
        0, 1, b'a', 0, 1, b'1', 0, 1, b'b', 0, 1, b'2', 0, 0, 0, 6, 0, 2,
        // block 1: c=3
        0, 1, b'c', 0, 1, b'3', 0, 0, 0, 1,
        // meta 0: offset 0, first key a
        0, 0, 0, 0, 0, 0, 0, 0, 0, 0, 0, 0, 0, 0, 0, 1, b'a',
        // meta 1: offset 18, first key c
        0, 0, 0, 0, 0, 0, 0, 18, 0, 0, 0, 0, 0, 0, 0, 1, b'c',
        // where the meta section starts
        0, 0, 0, 0, 0, 0, 0, 28,
    ];
    assert_eq!(file_bytes(&table), expected);
}

#[test]
fn sst_iterator_yields_what_the_builder_was_fed() {
    let table = Arc::new(numbered_table(200, 64));
    assert!(table.num_of_blocks() > 10);
    let mut it = SsTableIterator::create_and_seek_to_first(table).unwrap();
    let got = drain(&mut it);
    let expected: Vec<(Vec<u8>, Vec<u8>)> = (0..200).map(|i| numbered(i * 2)).collect();
    assert_eq!(got, expected);
}

#[test]
fn sst_estimated_size_counts_finished_blocks() {
    let mut builder = SsTableBuilder::new(32);
    assert_eq!(builder.block_budget(), 32);
    assert!(builder.is_empty());
    assert_eq!(builder.estimated_size(), 0);
    builder.add(b"k1", b"vvvvvvv");
    assert!(!builder.is_empty());
    builder.add(b"k2", b"vvvvvvv");
    assert_eq!(builder.estimated_size(), 0);
    builder.add(b"k3", b"vvvvvvv");
    // two entries of 13 bytes, two offsets, the count
    assert_eq!(builder.estimated_size(), 32);
}

#[test]
fn sst_opens_what_was_built() {
    let built = numbered_table(50, 48);
    let opened = SsTable::open(9, FileObject::create(file_bytes(&built))).unwrap();
    assert_eq!(opened.id(), 9);
    assert_eq!(opened.num_of_blocks(), built.num_of_blocks());
    let mut a = SsTableIterator::create_and_seek_to_first(Arc::new(built)).unwrap();
    let mut b = SsTableIterator::create_and_seek_to_first(Arc::new(opened)).unwrap();
    assert_eq!(drain(&mut a), drain(&mut b));
}

#[test]
fn sst_seek_finds_first_key_at_or_after() {
    let table = Arc::new(numbered_table(100, 64));
    for i in 0..200u32 {
        let (target, _) = numbered(i);
        let it = SsTableIterator::create_and_seek_to_key(table.clone(), &target).unwrap();
        let expected = if i % 2 == 0 { i } else { i + 1 };
        if expected < 200 {
            assert!(it.is_valid());
            assert_eq!(it.key(), numbered(expected).0.as_slice());
            assert_eq!(it.value(), numbered(expected).1.as_slice());
        } else {
            assert!(!it.is_valid());
        }
    }
}

#[test]
fn sst_seek_before_first_and_after_last() {
    let table = Arc::new(numbered_table(20, 40));
    let mut it = SsTableIterator::create_and_seek_to_key(table.clone(), b"").unwrap();
    assert_eq!(it.key(), numbered(0).0.as_slice());
    assert_eq!(drain(&mut it).len(), 20);
    let it = SsTableIterator::create_and_seek_to_key(table.clone(), b"zzz").unwrap();
    assert!(!it.is_valid());
    let mut it = SsTableIterator::create_and_seek_to_first(table).unwrap();
    it.seek_to_key(b"key_0019").unwrap();
    assert_eq!(it.key(), b"key_0020");
    it.seek_to_key(b"key_9999").unwrap();
    assert!(!it.is_valid());
    it.seek_to_first().unwrap();
    assert_eq!(it.key(), b"key_0000");
}

#[test]
fn sst_seek_moves_on_to_the_next_block() {
    // block 0 holds k1 and k2, block 1 holds k3; "k2x" is past block 0
    let table = Arc::new(three_entry_table());
    assert_eq!(table.find_block_idx(b"k2x"), 0);
    let it = SsTableIterator::create_and_seek_to_key(table, b"k2x").unwrap();
    assert_eq!(it.key(), b"k3");
}

#[test]
fn sst_find_block_idx_picks_the_last_block_not_beyond() {
    let mut builder = SsTableBuilder::new(15);
    for k in [b"b", b"d", b"f", b"h", b"j"] {
        builder.add(k, b"1");
    }
    let table = builder.build(0);
    assert_eq!(table.num_of_blocks(), 5);
    assert_eq!(table.find_block_idx(b"a"), 0);
    assert_eq!(table.find_block_idx(b"b"), 0);
    assert_eq!(table.find_block_idx(b"c"), 0);
    assert_eq!(table.find_block_idx(b"d"), 1);
    assert_eq!(table.find_block_idx(b"e"), 1);
    assert_eq!(table.find_block_idx(b"f"), 2);
    assert_eq!(table.find_block_idx(b"g"), 2);
    assert_eq!(table.find_block_idx(b"h"), 3);
    assert_eq!(table.find_block_idx(b"i"), 3);
    assert_eq!(table.find_block_idx(b"j"), 4);
    assert_eq!(table.find_block_idx(b"zzzz"), 4);
}

#[test]
fn sst_read_block_gives_the_block() {
    let table = three_entry_table();
    let block = table.read_block(1).unwrap();
    let it = BlockIterator::create_and_seek_to_first(block);
    assert_eq!(it.key(), b"k3");
    assert!(matches!(table.read_block(2), Err(StorageError::NoSuchBlock)));
    assert!(matches!(table.read_block(usize::MAX), Err(StorageError::NoSuchBlock)));
}

#[test]
fn sst_read_block_cached_prefers_the_cache() {
    let table = three_entry_table();
    let from_file = table.read_block_cached(1, None).unwrap();
    assert_eq!(BlockIterator::create_and_seek_to_first(from_file).key(), b"k3");
    // what the cache holds is the answer, whatever the file says
    let held = table.read_block(0).unwrap();
    let hit = table.read_block_cached(1, Some(held.clone())).unwrap();
    assert!(Arc::ptr_eq(&hit, &held));
    assert!(table.read_block_cached(9, Some(held)).is_ok());
    assert!(matches!(table.read_block_cached(9, None), Err(StorageError::NoSuchBlock)));
}

#[test]
fn sst_read_block_reports_a_corrupt_block() {
    let mut bytes = file_bytes(&three_entry_table());
    // the count of block 1 sits right before the meta section
    let meta_offset = u64::from_be_bytes(bytes[bytes.len() - 8..].try_into().unwrap()) as usize;
    bytes[meta_offset - 1] = 200;
    let table = SsTable::open(0, FileObject::create(bytes)).unwrap();
    assert!(table.read_block(0).is_ok());
    assert!(matches!(table.read_block(1), Err(StorageError::CorruptBlock)));
    let mut it = SsTableIterator::create_and_seek_to_first(Arc::new(table)).unwrap();
    assert_eq!(it.key(), b"k1");
    assert!(it.next().is_ok());
    assert_eq!(it.key(), b"k2");
    assert!(matches!(it.next(), Err(StorageError::CorruptBlock)));
    assert!(!it.is_valid());
    assert!(matches!(it.next(), Ok(())));
    assert!(!it.is_valid());
}

#[test]
fn sst_seek_that_fails_leaves_the_iterator() {
    let mut bytes = file_bytes(&three_entry_table());
    let meta_offset = u64::from_be_bytes(bytes[bytes.len() - 8..].try_into().unwrap()) as usize;
    bytes[meta_offset - 1] = 200;
    let table = Arc::new(SsTable::open(0, FileObject::create(bytes)).unwrap());
    let mut it = SsTableIterator::create_and_seek_to_first(table.clone()).unwrap();
    // the search starts in the corrupt block
    assert!(matches!(it.seek_to_key(b"k3"), Err(StorageError::CorruptBlock)));
    assert_eq!(it.key(), b"k1");
    // the search runs off block 0 into the corrupt block
    assert!(matches!(it.seek_to_key(b"k2x"), Err(StorageError::CorruptBlock)));
    assert_eq!(it.key(), b"k1");
    assert!(it.seek_to_key(b"k2").is_ok());
    assert_eq!(it.key(), b"k2");
    assert!(matches!(
        SsTableIterator::create_and_seek_to_key(table, b"k3"),
        Err(StorageError::CorruptBlock)
    ));
}

#[test]
fn sst_read_block_reports_offsets_outside_the_file() {
    // one meta record that points past the end of the file
    let mut bytes: Vec<u8> = vec![0, 0];
    let metas = vec![BlockMeta { offset: 1000, first_key: Bytes::copy_from_slice(b"a") }];
    BlockMeta::encode_block_meta(&metas, &mut bytes);
    let table = SsTable::open(0, FileObject::create(bytes)).unwrap();
    assert_eq!(table.num_of_blocks(), 1);
    assert!(matches!(table.read_block(0), Err(StorageError::ReadOutOfRange)));
    assert!(SsTableIterator::create_and_seek_to_first(Arc::new(table)).is_err());
}

#[test]
fn sst_open_refuses_malformed_files() {
    assert!(matches!(SsTable::open(0, FileObject::create(vec![])), Err(StorageError::CorruptMeta)));
    assert!(matches!(
        SsTable::open(0, FileObject::create(vec![0; 7])),
        Err(StorageError::CorruptMeta)
    ));
    // the trailer points past itself
    assert!(matches!(
        SsTable::open(0, FileObject::create(vec![0, 0, 0, 0, 0, 0, 0, 1])),
        Err(StorageError::CorruptMeta)
    ));
    // a meta record that is cut short
    assert!(matches!(
        SsTable::open(0, FileObject::create(vec![1, 2, 3, 0, 0, 0, 0, 0, 0, 0, 0])),
        Err(StorageError::CorruptMeta)
    ));
    // a table without blocks opens, and has nothing to read
    let empty = SsTable::open(0, FileObject::create(vec![0; 8])).unwrap();
    assert_eq!(empty.num_of_blocks(), 0);
    assert_eq!(empty.find_block_idx(b"k"), 0);
    assert!(matches!(empty.read_block(0), Err(StorageError::NoSuchBlock)));
    assert!(SsTableIterator::create_and_seek_to_key(Arc::new(empty), b"k").is_err());
}

#[test]
fn meta_encoding_is_exact() {
    let metas = vec![
        BlockMeta { offset: 0, first_key: Bytes::copy_from_slice(b"ab") },
        BlockMeta { offset: 258, first_key: Bytes::new() },
    ];
    let mut buf = vec![0xAA, 0xBB, 0xCC];
    BlockMeta::encode_block_meta(&metas, &mut buf);
    let expected: Vec<u8> = vec![
        0xAA, 0xBB, 0xCC, //
        0, 0, 0, 0, 0, 0, 0, 0, 0, 0, 0, 0, 0, 0, 0, 2, b'a', b'b', //
        0, 0, 0, 0, 0, 0, 1, 2, 0, 0, 0, 0, 0, 0, 0, 0, //
        0, 0, 0, 0, 0, 0, 0, 3,
    ];
    assert_eq!(buf, expected);
}

#[test]
fn meta_round_trips() {
    let metas = vec![
        BlockMeta { offset: 0, first_key: Bytes::copy_from_slice(b"apple") },
        BlockMeta { offset: 4096, first_key: Bytes::copy_from_slice(&[0xff, 0x00]) },
        BlockMeta { offset: 70000, first_key: Bytes::new() },
    ];
    let mut buf = Vec::new();
    BlockMeta::encode_block_meta(&metas, &mut buf);
    let records = &buf[..buf.len() - 8];
    assert_eq!(BlockMeta::decode_block_meta(records).unwrap(), metas);
    assert!(BlockMeta::decode_block_meta(&[]).unwrap().is_empty());
}

#[test]
fn meta_decode_refuses_cut_records() {
    let metas = vec![BlockMeta { offset: 5, first_key: Bytes::copy_from_slice(b"key") }];
    let mut buf = Vec::new();
    BlockMeta::encode_block_meta(&metas, &mut buf);
    let records = &buf[..buf.len() - 8];
    for cut in 1..records.len() {
        assert!(matches!(
            BlockMeta::decode_block_meta(&records[..cut]),
            Err(StorageError::CorruptMeta)
        ));
    }
    // a key length far beyond the buffer
    let mut huge = vec![0u8; 8];
    huge.extend_from_slice(&[0xff; 8]);
    assert!(matches!(BlockMeta::decode_block_meta(&huge), Err(StorageError::CorruptMeta)));
}

#[test]
fn file_object_reads_ranges() {
    let file = FileObject::create(vec![10, 11, 12, 13, 14]);
    assert_eq!(file.size(), 5);
    assert_eq!(file.read(0, 5).unwrap(), vec![10, 11, 12, 13, 14]);
    assert_eq!(file.read(1, 3).unwrap(), vec![11, 12, 13]);
    assert_eq!(file.read(5, 0).unwrap(), Vec::<u8>::new());
    assert!(matches!(file.read(3, 3), Err(StorageError::ReadOutOfRange)));
    assert!(matches!(file.read(6, 0), Err(StorageError::ReadOutOfRange)));
    assert!(matches!(file.read(u64::MAX, 2), Err(StorageError::ReadOutOfRange)));
    assert!(matches!(file.read(1, u64::MAX), Err(StorageError::ReadOutOfRange)));
}
