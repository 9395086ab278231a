//! A cursor over the entries of one block.

use super::advance;
use super::head_key;
use super::head_value;
use super::read_u16;
use super::seek_position;
use super::Block;
use super::BlockLayout;
use super::Entry;
use crate::key_order::key_lt;
use crate::key_order::lex_le;
use std::sync::Arc;
use vstd::prelude::*;
use vstd::slice::slice_subrange;
use vstd::slice::slice_to_vec;

verus! {

/// Iterates on a block.
pub struct BlockIterator {
    /// The block, shared with whoever else reads it.
    block: Arc<Block>,
    /// The key of the current entry; empty where the iterator is invalid.
    key: Vec<u8>,
    /// The value of the current entry; empty where the iterator is invalid.
    value: Vec<u8>,
    /// Index of the current entry; the number of entries where the iterator
    /// is invalid.
    idx: usize,
}

impl BlockIterator {
    /// The block that the iterator walks.
    pub closed spec fn block(&self) -> BlockLayout {
        self.block@
    }

    /// The index of the current entry.
    pub closed spec fn index(&self) -> int {
        self.idx as int
    }

    /// The block is well formed, the index is at most the number of entries,
    /// and the iterator holds a copy of the entry at the index.
    pub closed spec fn inv(&self) -> bool {
        let l = self.block@;
        &&& l.well_formed()
        &&& self.idx <= l.offsets.len()
        &&& self.idx < l.offsets.len() ==> self.key@ == l.key(self.idx as int) && self.value@
            == l.value(self.idx as int)
        &&& self.idx == l.offsets.len() ==> self.key@.len() == 0 && self.value@.len() == 0
    }

    /// The entries from the current one to the last.
    pub open spec fn pending(&self) -> Seq<Entry> {
        self.block().entries().subrange(self.index(), self.block().entries().len() as int)
    }

    /// What `inv` says of the index.
    pub proof fn lemma_index_in_range(&self)
        requires
            self.inv(),
        ensures
            0 <= self.index() <= self.block().entries().len(),
            self.block().well_formed(),
    {
    }

    /// An iterator on `block` that has not yet read any entry.
    fn new(block: Arc<Block>) -> (it: BlockIterator)
        ensures
            it.block() == block@,
            it.index() == 0,
    {
        BlockIterator { block, key: Vec::new(), value: Vec::new(), idx: 0 }
    }

    /// Creates a block iterator and seek to the first entry.
    pub fn create_and_seek_to_first(block: Arc<Block>) -> (it: BlockIterator)
        requires
            block.inv(),
        ensures
            it.inv(),
            it.block() == block@,
            it.index() == 0,
            it.pending() == block@.entries(),
    {
        let mut it = BlockIterator::new(block);
        it.set_kv();
        assert(it.pending() =~= it.block().entries());
        it
    }

    /// Creates a block iterator and seek to the first key that >= `key`.
    pub fn create_and_seek_to_key(block: Arc<Block>, key: &[u8]) -> (it: BlockIterator)
        requires
            block.inv(),
        ensures
            it.inv(),
            it.block() == block@,
            seek_position(block@.entries(), key@, it.index()),
    {
        let mut it = BlockIterator::new(block);
        it.seek_to_key_unchecked(key);
        it
    }

    /// Returns the key of the current entry; no bytes where there is none.
    pub fn key(&self) -> (k: &[u8])
        requires
            self.inv(),
        ensures
            k@ == head_key(self.pending()),
    {
        self.key.as_slice()
    }

    /// Returns the value of the current entry; no bytes where there is none.
    pub fn value(&self) -> (v: &[u8])
        requires
            self.inv(),
        ensures
            v@ == head_value(self.pending()),
    {
        self.value.as_slice()
    }

    /// Returns true if the iterator is valid: its index is that of an entry.
    pub fn is_valid(&self) -> (valid: bool)
        requires
            self.inv(),
        ensures
            valid == (self.index() < self.block().entries().len()),
            valid == (self.pending().len() > 0),
    {
        self.idx < self.block.offsets.len()
    }

    /// Seeks to the first key in the block.
    pub fn seek_to_first(&mut self)
        requires
            old(self).inv(),
        ensures
            final(self).inv(),
            final(self).block() == old(self).block(),
            final(self).index() == 0,
            final(self).pending() == old(self).block().entries(),
    {
        self.idx = 0;
        self.set_kv();
        assert(self.pending() =~= self.block().entries());
    }

    /// Move to the next key in the block. An invalid iterator stays as it is.
    pub fn next(&mut self)
        requires
            old(self).inv(),
        ensures
            final(self).inv(),
            final(self).block() == old(self).block(),
            final(self).index() == if old(self).index() < old(self).block().entries().len() {
                old(self).index() + 1
            } else {
                old(self).index()
            },
            final(self).pending() == advance(old(self).pending()),
    {
        if self.idx < self.block.offsets.len() {
            self.idx += 1;
        }
        self.set_kv();
        assert(self.pending() =~= advance(old(self).pending()));
    }

    /// Seek to the first key that >= `key`.
    pub fn seek_to_key(&mut self, key: &[u8])
        requires
            old(self).inv(),
        ensures
            final(self).inv(),
            final(self).block() == old(self).block(),
            seek_position(old(self).block().entries(), key@, final(self).index()),
    {
        self.seek_to_key_unchecked(key);
    }

    /// The search itself, which needs no more of the iterator than its block.
    fn seek_to_key_unchecked(&mut self, key: &[u8])
        requires
            old(self).block().well_formed(),
        ensures
            final(self).inv(),
            final(self).block() == old(self).block(),
            seek_position(old(self).block().entries(), key@, final(self).index()),
    {
        self.idx = 0;
        let ghost l = self.block@;
        let n: usize = self.block.offsets.len();
        while self.idx < n
            invariant
                l == self.block@,
                l == old(self).block(),
                l.well_formed(),
                n == l.offsets.len(),
                self.idx <= n,
                forall|j: int| 0 <= j < self.idx ==> crate::key_order::lex_lt((#[trigger] l.entries()[j]).0, key@),
            ensures
                self.idx <= n,
                forall|j: int| 0 <= j < self.idx ==> crate::key_order::lex_lt((#[trigger] l.entries()[j]).0, key@),
                self.idx < n ==> lex_le(key@, l.entries()[self.idx as int].0),
            decreases n - self.idx,
        {
            proof {
                l.lemma_limit_in_data(self.idx as int);
                assert(l.entry_ok(self.idx as int));
            }
            let data: &[u8] = self.block.data.as_slice();
            let key_start: usize = self.block.offsets[self.idx] as usize;
            let key_end: usize = key_start + 2 + read_u16(data, key_start);
            if self.compare_bytes(slice_subrange(data, key_start + 2, key_end), key) {
                break;
            }
            self.idx += 1;
        }
        self.set_kv();
    }

    /// Whether `left` sorts at or after `right`.
    fn compare_bytes(&self, left: &[u8], right: &[u8]) -> (at_or_after: bool)
        ensures
            at_or_after == lex_le(right@, left@),
    {
        !key_lt(left, right)
    }

    /// Copies the entry at the index into the iterator, or clears the copy
    /// where the index is past the last entry.
    fn set_kv(&mut self)
        requires
            old(self).block().well_formed(),
            old(self).index() <= old(self).block().offsets.len(),
        ensures
            final(self).inv(),
            final(self).block() == old(self).block(),
            final(self).index() == old(self).index(),
    {
        if self.idx >= self.block.offsets.len() {
            self.key.clear();
            self.value.clear();
            return ;
        }
        let ghost l = self.block@;
        proof {
            l.lemma_limit_in_data(self.idx as int);
            assert(l.entry_ok(self.idx as int));
        }
        let key_start: usize = self.block.offsets[self.idx] as usize;
        let data: &[u8] = self.block.data.as_slice();
        let key_end: usize = key_start + 2 + read_u16(data, key_start);
        let val_start: usize = key_end;
        let val_end: usize = val_start + 2 + read_u16(data, val_start);
        self.key = slice_to_vec(slice_subrange(data, key_start + 2, key_end));
        self.value = slice_to_vec(slice_subrange(data, val_start + 2, val_end));
    }
}

} // verus!
