//! The mem-table: an ordered map from key to value that takes the writes,
//! and the iterator over a range of it.

use crate::block::advance;
use crate::block::Entry;
use crate::byte_buf::bytes_as_slice;
use crate::byte_buf::bytes_contents;
use crate::error::StorageError;
use crate::iterators::StorageIterator;
use crate::skip_map::entry_views;
use crate::skip_map::is_scan_of;
use crate::skip_map::skipmap_contents;
use crate::skip_map::skipmap_get;
use crate::skip_map::skipmap_insert;
use crate::skip_map::skipmap_new;
use crate::skip_map::skipmap_range;
use crate::table::SsTableBuilder;
use bytes::Bytes;
use crossbeam_skiplist::SkipMap;
use std::ops::Bound;
use vstd::prelude::*;

verus! {

/// A basic mem-table based on crossbeam-skiplist
pub struct MemTable {
    map: SkipMap<Bytes, Bytes>,
}

impl View for MemTable {
    type V = Map<Seq<u8>, Seq<u8>>;

    closed spec fn view(&self) -> Map<Seq<u8>, Seq<u8>> {
        skipmap_contents(self.map)
    }
}

impl MemTable {
    /// Create a new mem-table.
    pub fn create() -> (table: MemTable)
        ensures
            table@ == Map::<Seq<u8>, Seq<u8>>::empty(),
    {
        MemTable { map: skipmap_new() }
    }

    /// Get a value by key.
    pub fn get(&self, key: &[u8]) -> (r: Option<Bytes>)
        ensures
            match r {
                Some(value) => self@.dom().contains(key@) && bytes_contents(value) == self@[key@],
                None => !self@.dom().contains(key@),
            },
    {
        skipmap_get(&self.map, key)
    }

    /// Put a key-value pair into the mem-table, in place of the pair that
    /// the key had, if it had one.
    pub fn put(&mut self, key: &[u8], value: &[u8])
        ensures
            final(self)@ == old(self)@.insert(key@, value@),
    {
        skipmap_insert(&mut self.map, Bytes::copy_from_slice(key), Bytes::copy_from_slice(value));
    }

    /// Get an iterator over a range of keys. It walks the entries that the
    /// table holds now.
    pub fn scan(&self, lower: Bound<&[u8]>, upper: Bound<&[u8]>) -> (it: MemTableIterator)
        ensures
            it.inv(),
            is_scan_of(self@, lower, upper, it.pending()),
    {
        let items: Vec<(Bytes, Bytes)> = skipmap_range(&self.map, lower, upper);
        let item = MemTableIterator::entry_to_item(items.as_slice(), 0);
        let it = MemTableIterator { items, pos: 0, item };
        assert(it.pending() =~= entry_views(it.items@));
        it
    }

    /// Flush the mem-table to SSTable: every entry is added to the builder,
    /// in ascending order of the keys. Each has to fit a block of its own.
    pub fn flush(&self, builder: &mut SsTableBuilder) -> (r: Result<(), StorageError>)
        requires
            old(builder).inv(),
            forall|k: Seq<u8>| #[trigger]
                self@.dom().contains(k) ==> 2 + k.len() + 2 + self@[k].len() + 2 <= old(
                    builder,
                ).block_size(),
        ensures
            r is Ok,
            final(builder).inv(),
            final(builder).block_size() == old(builder).block_size(),
            old(builder).entries().len() <= final(builder).entries().len(),
            final(builder).entries().subrange(0, old(builder).entries().len() as int) == old(
                builder,
            ).entries(),
            is_scan_of(
                self@,
                Bound::Unbounded,
                Bound::Unbounded,
                final(builder).entries().subrange(
                    old(builder).entries().len() as int,
                    final(builder).entries().len() as int,
                ),
            ),
    {
        let items: Vec<(Bytes, Bytes)> = skipmap_range(
            &self.map,
            Bound::Unbounded,
            Bound::Unbounded,
        );
        let ghost all = entry_views(items@);
        let ghost before = builder.entries();
        let mut i: usize = 0;
        while i < items.len()
            invariant
                i <= items@.len(),
                all == entry_views(items@),
                is_scan_of(self@, Bound::Unbounded, Bound::Unbounded, all),
                builder.inv(),
                builder.block_size() == old(builder).block_size(),
                before == old(builder).entries(),
                builder.entries() == before + all.subrange(0, i as int),
                forall|k: Seq<u8>| #[trigger]
                    self@.dom().contains(k) ==> 2 + k.len() + 2 + self@[k].len() + 2 <= old(
                        builder,
                    ).block_size(),
            decreases items@.len() - i,
        {
            let key: &[u8] = bytes_as_slice(&items[i].0);
            let value: &[u8] = bytes_as_slice(&items[i].1);
            proof {
                let e = all[i as int];
                assert(self@.dom().contains(e.0) && self@[e.0] == e.1);
            }
            builder.add(key, value);
            proof {
                assert(before + all.subrange(0, i + 1) =~= (before + all.subrange(0, i as int)).push(
                    all[i as int],
                ));
            }
            i += 1;
        }
        proof {
            let after = builder.entries();
            assert(all.subrange(0, i as int) =~= all);
            assert(after.subrange(0, before.len() as int) =~= before);
            assert(after.subrange(before.len() as int, after.len() as int) =~= all);
        }
        Ok(())
    }
}

/// An iterator over a range of the mem-table, as the table was when the
/// iterator was made.
pub struct MemTableIterator {
    /// The entries of the range, in ascending order of the keys.
    items: Vec<(Bytes, Bytes)>,
    /// The index of the current entry.
    pos: usize,
    /// The current entry; two empty buffers where there is none.
    item: (Bytes, Bytes),
}

impl MemTableIterator {
    /// The entry at `pos` as a pair of its own, or two empty buffers where
    /// there is none.
    fn entry_to_item(items: &[(Bytes, Bytes)], pos: usize) -> (item: (Bytes, Bytes))
        ensures
            pos < items@.len() ==> bytes_contents(item.0) == bytes_contents(items@[pos as int].0)
                && bytes_contents(item.1) == bytes_contents(items@[pos as int].1),
            pos >= items@.len() ==> bytes_contents(item.0).len() == 0 && bytes_contents(
                item.1,
            ).len() == 0,
    {
        if pos < items.len() {
            (items[pos].0.clone(), items[pos].1.clone())
        } else {
            (Bytes::new(), Bytes::new())
        }
    }
}

impl StorageIterator for MemTableIterator {
    /// The index is at most the number of entries, and the iterator holds
    /// the entry at the index.
    closed spec fn inv(&self) -> bool {
        &&& self.pos <= self.items@.len()
        &&& self.pos < self.items@.len() ==> bytes_contents(self.item.0) == bytes_contents(
            self.items@[self.pos as int].0,
        ) && bytes_contents(self.item.1) == bytes_contents(self.items@[self.pos as int].1)
        &&& self.pos == self.items@.len() ==> bytes_contents(self.item.0).len() == 0
            && bytes_contents(self.item.1).len() == 0
    }

    /// The entries from the current one to the last of the range.
    closed spec fn pending(&self) -> Seq<Entry> {
        entry_views(self.items@).subrange(self.pos as int, self.items@.len() as int)
    }

    /// The iterator walks entries that it holds: no move of it fails.
    open spec fn never_fails(&self) -> bool {
        true
    }

    fn value(&self) -> (v: &[u8]) {
        bytes_as_slice(&self.item.1)
    }

    fn key(&self) -> (k: &[u8]) {
        bytes_as_slice(&self.item.0)
    }

    fn is_valid(&self) -> (valid: bool) {
        self.pos < self.items.len()
    }

    /// Moves to the next entry of the range. This never fails.
    fn next(&mut self) -> (r: Result<(), StorageError>)
        ensures
            r is Ok,
    {
        if self.pos < self.items.len() {
            self.pos += 1;
        }
        self.item = MemTableIterator::entry_to_item(self.items.as_slice(), self.pos);
        assert(self.pending() =~= advance(old(self).pending()));
        Ok(())
    }
}

} // verus!
