use lsm_core::error::StorageError;
use lsm_core::iterators::MergeIterator;
use lsm_core::iterators::StorageIterator;
use lsm_core::iterators::TwoMergeIterator;
use lsm_core::mem_table::MemTable;
use lsm_core::mem_table::MemTableIterator;
use lsm_core::table::FileObject;
use lsm_core::table::SsTable;
use lsm_core::table::SsTableBuilder;
use lsm_core::table::SsTableIterator;
use std::collections::BTreeMap;
use std::ops::Bound;
use std::sync::Arc;

type Pairs = Vec<(Vec<u8>, Vec<u8>)>;

fn pairs(entries: &[(&str, &str)]) -> Pairs {
    entries.iter().map(|(k, v)| (k.as_bytes().to_vec(), v.as_bytes().to_vec())).collect()
}

fn mem_iter(entries: &[(&str, &str)]) -> MemTableIterator {
    let mut table = MemTable::create();
    for (k, v) in entries {
        table.put(k.as_bytes(), v.as_bytes());
    }
    table.scan(Bound::Unbounded, Bound::Unbounded)
}

fn sst_of(entries: &[(&str, &str)], block_size: usize) -> SsTable {
    let mut builder = SsTableBuilder::new(block_size);
    for (k, v) in entries {
        builder.add(k.as_bytes(), v.as_bytes());
    }
    builder.build(0)
}

fn sst_iter(entries: &[(&str, &str)], block_size: usize) -> SsTableIterator {
    SsTableIterator::create_and_seek_to_first(Arc::new(sst_of(entries, block_size))).unwrap()
}

/// A table of one-entry blocks whose block `bad` cannot be decoded.
fn broken_sst_iter(entries: &[(&str, &str)], bad: usize) -> SsTableIterator {
    let table = sst_of(entries, 15);
    assert_eq!(table.num_of_blocks(), entries.len());
    let file = table.file();
    let mut bytes = file.read(0, file.size()).unwrap();
    // a block is its entry, one offset and the count; the count comes last
    let end_of_bad: usize =
        entries[..=bad].iter().map(|(k, v)| 2 + k.len() + 2 + v.len() + 2 + 2).sum();
    bytes[end_of_bad - 1] = 99;
    let broken = SsTable::open(0, FileObject::create(bytes)).unwrap();
    SsTableIterator::create_and_seek_to_first(Arc::new(broken)).unwrap()
}

fn drain<I: StorageIterator>(it: &mut I) -> Pairs {
    let mut out = Vec::new();
    while it.is_valid() {
        out.push((it.key().to_vec(), it.value().to_vec()));
        it.next().unwrap();
    }
    out
}

#[test]
fn k_way_merge_with_duplicates() {
    let iters = vec![
        Box::new(mem_iter(&[("a", "A0"), ("c", "C0")])),
        Box::new(mem_iter(&[("a", "A1"), ("b", "B1")])),
        Box::new(mem_iter(&[("b", "B2"), ("d", "D2")])),
    ];
    let mut merged = MergeIterator::create(iters);
    assert_eq!(
        drain(&mut merged),
        pairs(&[("a", "A0"), ("b", "B1"), ("c", "C0"), ("d", "D2")])
    );
    assert!(!merged.is_valid());
    assert_eq!(merged.key(), b"");
    assert_eq!(merged.value(), b"");
    assert!(merged.next().is_ok());
    assert!(!merged.is_valid());
}

#[test]
fn k_way_merge_of_one_source_is_the_source() {
    let mut merged = MergeIterator::create(vec![Box::new(mem_iter(&[("a", "1"), ("b", "2")]))]);
    assert_eq!(drain(&mut merged), pairs(&[("a", "1"), ("b", "2")]));
}

#[test]
fn k_way_merge_skips_sources_that_have_ended() {
    let iters = vec![
        Box::new(mem_iter(&[])),
        Box::new(mem_iter(&[("m", "1")])),
        Box::new(mem_iter(&[])),
        Box::new(mem_iter(&[("a", "3"), ("m", "3")])),
    ];
    let mut merged = MergeIterator::create(iters);
    assert_eq!(drain(&mut merged), pairs(&[("a", "3"), ("m", "1")]));
}

#[test]
fn k_way_merge_prefers_the_smallest_index_for_every_key() {
    let same = [("k1", ""), ("k2", ""), ("k3", "")];
    let tagged = |tag: &str| -> Vec<(String, String)> {
        same.iter().map(|(k, _)| (k.to_string(), tag.to_string())).collect()
    };
    let mut iters = Vec::new();
    for tag in ["src0", "src1", "src2", "src3", "src4"] {
        let owned = tagged(tag);
        let borrowed: Vec<(&str, &str)> =
            owned.iter().map(|(k, v)| (k.as_str(), v.as_str())).collect();
        iters.push(Box::new(mem_iter(&borrowed)));
    }
    let mut merged = MergeIterator::create(iters);
    assert_eq!(drain(&mut merged), pairs(&[("k1", "src0"), ("k2", "src0"), ("k3", "src0")]));
}

#[test]
fn k_way_merge_agrees_with_a_sorted_map() {
    // source s holds the keys i with i % (s + 2) == 0, valued by s
    let sources = 9usize;
    let mut iters = Vec::new();
    let mut model: BTreeMap<Vec<u8>, Vec<u8>> = BTreeMap::new();
    for s in (0..sources).rev() {
        let mut table = MemTable::create();
        for i in 0..300usize {
            if i % (s + 2) == 0 || (i * 7 + s) % 11 == 0 {
                let key = format!("key{:04}", i).into_bytes();
                let value = format!("from{}", s).into_bytes();
                table.put(&key, &value);
                model.insert(key, value);
            }
        }
        iters.push(Box::new(table.scan(Bound::Unbounded, Bound::Unbounded)));
    }
    iters.reverse();
    let mut merged = MergeIterator::create(iters);
    let got = drain(&mut merged);
    let expected: Pairs = model.into_iter().collect();
    assert_eq!(got, expected);
}

#[test]
fn k_way_merge_over_tables() {
    let iters = vec![
        Box::new(sst_iter(&[("b", "t0"), ("d", "t0"), ("f", "t0")], 15)),
        Box::new(sst_iter(&[("a", "t1"), ("b", "t1"), ("c", "t1"), ("d", "t1")], 32)),
        Box::new(sst_iter(&[("f", "t2"), ("g", "t2")], 4096)),
    ];
    let mut merged = MergeIterator::create(iters);
    assert_eq!(
        drain(&mut merged),
        pairs(&[("a", "t1"), ("b", "t0"), ("c", "t1"), ("d", "t0"), ("f", "t0"), ("g", "t2")])
    );
}

#[test]
fn k_way_merge_drops_a_waiting_source_that_fails() {
    // source 1 shows "a" too, and fails when it moves past it
    let iters = vec![
        Box::new(sst_iter(&[("a", "good"), ("z", "good")], 15)),
        Box::new(broken_sst_iter(&[("a", "bad"), ("b", "bad"), ("c", "bad")], 1)),
    ];
    let mut merged = MergeIterator::create(iters);
    assert_eq!(merged.key(), b"a");
    assert_eq!(merged.value(), b"good");
    assert!(matches!(merged.next(), Err(StorageError::CorruptBlock)));
    // the merge goes on without that source
    assert!(merged.is_valid());
    assert_eq!(merged.key(), b"a");
    assert!(merged.next().is_ok());
    assert_eq!(merged.key(), b"z");
    assert_eq!(merged.value(), b"good");
    assert!(merged.next().is_ok());
    assert!(!merged.is_valid());
}

#[test]
fn k_way_merge_replaces_a_current_source_that_fails() {
    let iters = vec![
        Box::new(sst_iter(&[("b", "good"), ("d", "good")], 15)),
        Box::new(broken_sst_iter(&[("a", "bad"), ("b", "bad"), ("c", "bad")], 1)),
    ];
    let mut merged = MergeIterator::create(iters);
    assert_eq!(merged.key(), b"a");
    assert_eq!(merged.value(), b"bad");
    assert!(matches!(merged.next(), Err(StorageError::CorruptBlock)));
    assert!(merged.is_valid());
    assert_eq!(merged.key(), b"b");
    assert_eq!(merged.value(), b"good");
    assert_eq!(drain(&mut merged), pairs(&[("b", "good"), ("d", "good")]));
}

#[test]
fn two_source_merge_precedence() {
    let a = mem_iter(&[("x", "ax"), ("y", "ay")]);
    let b = sst_iter(&[("y", "by"), ("z", "bz")], 4096);
    let mut merged = TwoMergeIterator::create(a, b).unwrap();
    assert_eq!(drain(&mut merged), pairs(&[("x", "ax"), ("y", "ay"), ("z", "bz")]));
    assert!(!merged.is_valid());
    assert_eq!(merged.key(), b"");
    assert_eq!(merged.value(), b"");
}

#[test]
fn two_source_merge_unties_the_start() {
    let a = mem_iter(&[("a", "A"), ("c", "A")]);
    let b = mem_iter(&[("a", "B"), ("b", "B"), ("c", "B"), ("d", "B")]);
    let mut merged = TwoMergeIterator::create(a, b).unwrap();
    assert_eq!(merged.key(), b"a");
    assert_eq!(merged.value(), b"A");
    assert_eq!(
        drain(&mut merged),
        pairs(&[("a", "A"), ("b", "B"), ("c", "A"), ("d", "B")])
    );
}

#[test]
fn two_source_merge_with_one_side_empty() {
    let mut merged =
        TwoMergeIterator::create(mem_iter(&[]), mem_iter(&[("k", "b"), ("l", "b")])).unwrap();
    assert!(merged.is_valid());
    assert_eq!(drain(&mut merged), pairs(&[("k", "b"), ("l", "b")]));
    let mut merged =
        TwoMergeIterator::create(mem_iter(&[("k", "a"), ("l", "a")]), mem_iter(&[])).unwrap();
    assert_eq!(drain(&mut merged), pairs(&[("k", "a"), ("l", "a")]));
    let mut merged = TwoMergeIterator::create(mem_iter(&[]), mem_iter(&[])).unwrap();
    assert!(!merged.is_valid());
    assert!(merged.next().is_ok());
    assert!(!merged.is_valid());
}

#[test]
fn two_source_merge_interleaves() {
    let a = mem_iter(&[("b", "A"), ("d", "A"), ("e", "A"), ("h", "A")]);
    let b = mem_iter(&[("a", "B"), ("c", "B"), ("e", "B"), ("f", "B"), ("g", "B"), ("h", "B")]);
    let mut merged = TwoMergeIterator::create(a, b).unwrap();
    assert_eq!(
        drain(&mut merged),
        pairs(&[
            ("a", "B"),
            ("b", "A"),
            ("c", "B"),
            ("d", "A"),
            ("e", "A"),
            ("f", "B"),
            ("g", "B"),
            ("h", "A"),
        ])
    );
}

#[test]
fn two_source_merge_hands_a_failure_on() {
    let a = mem_iter(&[("b", "A")]);
    let b = broken_sst_iter(&[("a", "B"), ("b", "B")], 1);
    let mut merged = TwoMergeIterator::create(a, b).unwrap();
    assert_eq!(merged.key(), b"a");
    assert!(matches!(merged.next(), Err(StorageError::CorruptBlock)));
    // the tie at the start makes `create` move the second source, which fails
    let a = mem_iter(&[("a", "A")]);
    let b = broken_sst_iter(&[("a", "B"), ("b", "B")], 1);
    assert!(matches!(TwoMergeIterator::create(a, b), Err(StorageError::CorruptBlock)));
}

#[test]
fn merges_nest() {
    let mem = mem_iter(&[("b", "mem"), ("e", "mem")]);
    let tables = MergeIterator::create(vec![
        Box::new(sst_iter(&[("a", "t0"), ("b", "t0")], 15)),
        Box::new(sst_iter(&[("a", "t1"), ("c", "t1"), ("e", "t1")], 15)),
    ]);
    let mut merged = TwoMergeIterator::create(mem, tables).unwrap();
    assert_eq!(
        drain(&mut merged),
        pairs(&[("a", "t0"), ("b", "mem"), ("c", "t1"), ("e", "mem")])
    );
}
