use lsm_core::iterators::StorageIterator;
use lsm_core::mem_table::MemTable;
use lsm_core::mem_table::MemTableIterator;
use lsm_core::table::SsTableBuilder;
use lsm_core::table::SsTableIterator;
use std::ops::Bound;
use std::sync::Arc;

fn drain(it: &mut MemTableIterator) -> Vec<(Vec<u8>, Vec<u8>)> {
    let mut out = Vec::new();
    while it.is_valid() {
        out.push((it.key().to_vec(), it.value().to_vec()));
        it.next().unwrap();
    }
    out
}

fn keys(entries: Vec<(Vec<u8>, Vec<u8>)>) -> Vec<Vec<u8>> {
    entries.into_iter().map(|e| e.0).collect()
}

fn fruit() -> MemTable {
    let mut table = MemTable::create();
    table.put(b"banana", b"yellow");
    table.put(b"apple", b"red");
    table.put(b"cherry", b"dark");
    table
}

#[test]
fn mem_table_gets_what_was_put() {
    let table = fruit();
    assert_eq!(table.get(b"apple").unwrap().as_ref(), b"red");
    assert_eq!(table.get(b"banana").unwrap().as_ref(), b"yellow");
    assert_eq!(table.get(b"cherry").unwrap().as_ref(), b"dark");
    assert!(table.get(b"durian").is_none());
    assert!(table.get(b"").is_none());
    assert!(MemTable::create().get(b"apple").is_none());
}

#[test]
fn mem_table_put_overwrites() {
    let mut table = fruit();
    table.put(b"apple", b"green");
    assert_eq!(table.get(b"apple").unwrap().as_ref(), b"green");
    assert_eq!(table.get(b"banana").unwrap().as_ref(), b"yellow");
    table.put(b"apple", b"");
    assert_eq!(table.get(b"apple").unwrap().as_ref(), b"");
    let mut it = table.scan(Bound::Unbounded, Bound::Unbounded);
    assert_eq!(drain(&mut it).len(), 3);
}

#[test]
fn mem_table_scan_is_in_key_order() {
    let table = fruit();
    let mut it = table.scan(Bound::Unbounded, Bound::Unbounded);
    assert_eq!(
        drain(&mut it),
        vec![
            (b"apple".to_vec(), b"red".to_vec()),
            (b"banana".to_vec(), b"yellow".to_vec()),
            (b"cherry".to_vec(), b"dark".to_vec()),
        ]
    );
    assert!(!it.is_valid());
    assert_eq!(it.key(), b"");
    assert_eq!(it.value(), b"");
    assert!(it.next().is_ok());
    assert!(!it.is_valid());
}

#[test]
fn mem_table_scan_honours_each_bound() {
    let table = fruit();
    let scan = |lower: Bound<&[u8]>, upper: Bound<&[u8]>| keys(drain(&mut table.scan(lower, upper)));
    let all = vec![b"apple".to_vec(), b"banana".to_vec(), b"cherry".to_vec()];
    assert_eq!(scan(Bound::Included(b"apple"), Bound::Included(b"cherry")), all);
    assert_eq!(scan(Bound::Excluded(b"apple"), Bound::Included(b"cherry")), all[1..].to_vec());
    assert_eq!(scan(Bound::Included(b"apple"), Bound::Excluded(b"cherry")), all[..2].to_vec());
    assert_eq!(scan(Bound::Excluded(b"apple"), Bound::Excluded(b"cherry")), all[1..2].to_vec());
    assert_eq!(scan(Bound::Included(b"b"), Bound::Unbounded), all[1..].to_vec());
    assert_eq!(scan(Bound::Unbounded, Bound::Excluded(b"banana")), all[..1].to_vec());
    assert_eq!(scan(Bound::Included(b"banana"), Bound::Included(b"banana")), all[1..2].to_vec());
    assert!(scan(Bound::Excluded(b"banana"), Bound::Excluded(b"banana")).is_empty());
    assert!(scan(Bound::Included(b"d"), Bound::Unbounded).is_empty());
    assert!(scan(Bound::Included(b"cherry"), Bound::Included(b"apple")).is_empty());
}

#[test]
fn mem_table_scan_orders_raw_bytes() {
    let mut table = MemTable::create();
    table.put(&[0xff], b"4");
    table.put(&[0x80, 0x01], b"3");
    table.put(&[0x7f, 0xff], b"2");
    table.put(&[], b"0");
    table.put(&[0x00], b"1");
    let mut it = table.scan(Bound::Unbounded, Bound::Unbounded);
    let values: Vec<Vec<u8>> = drain(&mut it).into_iter().map(|e| e.1).collect();
    assert_eq!(
        values,
        vec![b"0".to_vec(), b"1".to_vec(), b"2".to_vec(), b"3".to_vec(), b"4".to_vec()]
    );
    // the entry with the empty key is an entry like the others
    let it = table.scan(Bound::Unbounded, Bound::Unbounded);
    assert!(it.is_valid());
    assert_eq!(it.key(), b"");
    assert_eq!(it.value(), b"0");
}

#[test]
fn mem_table_scan_sees_the_table_as_it_was() {
    let mut table = fruit();
    let mut before = table.scan(Bound::Unbounded, Bound::Unbounded);
    table.put(b"apple", b"green");
    table.put(b"avocado", b"green");
    assert_eq!(
        keys(drain(&mut before)),
        vec![b"apple".to_vec(), b"banana".to_vec(), b"cherry".to_vec()]
    );
    let mut after = table.scan(Bound::Unbounded, Bound::Unbounded);
    assert_eq!(after.value(), b"green");
    assert_eq!(drain(&mut after).len(), 4);
}

#[test]
fn mem_table_flush_feeds_the_builder_in_order() {
    let table = fruit();
    let mut builder = SsTableBuilder::new(4096);
    table.flush(&mut builder).unwrap();
    let sst = Arc::new(builder.build(0));
    let mut it = SsTableIterator::create_and_seek_to_first(sst).unwrap();
    let mut got = Vec::new();
    while it.is_valid() {
        got.push((it.key().to_vec(), it.value().to_vec()));
        it.next().unwrap();
    }
    assert_eq!(
        got,
        vec![
            (b"apple".to_vec(), b"red".to_vec()),
            (b"banana".to_vec(), b"yellow".to_vec()),
            (b"cherry".to_vec(), b"dark".to_vec()),
        ]
    );
}

#[test]
fn mem_table_flush_appends_to_what_the_builder_has() {
    let mut builder = SsTableBuilder::new(64);
    builder.add(b"aaa", b"first");
    fruit().flush(&mut builder).unwrap();
    MemTable::create().flush(&mut builder).unwrap();
    let sst = Arc::new(builder.build(0));
    let mut it = SsTableIterator::create_and_seek_to_first(sst).unwrap();
    let mut got = Vec::new();
    while it.is_valid() {
        got.push(it.key().to_vec());
        it.next().unwrap();
    }
    assert_eq!(
        got,
        vec![b"aaa".to_vec(), b"apple".to_vec(), b"banana".to_vec(), b"cherry".to_vec()]
    );
}
