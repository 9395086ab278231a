//! A cursor over the entries of a table, block after block.

use super::SsTable;
use super::TableView;
use crate::block::advance;
use crate::block::seek_position;
use crate::block::Block;
use crate::block::BlockIterator;
use crate::block::Entry;
use crate::error::StorageError;
use crate::iterators::StorageIterator;
use std::sync::Arc;
use vstd::prelude::*;

verus! {

impl TableView {
    /// Block `c` is where a search for `target` starts, and the search
    /// ends at entry `e` of block `b`: in block `c` where it has a key that is not before
    /// `target`, or where it is the last block; else at the first entry of
    /// the block after it.
    pub open spec fn seek_lands(self, target: Seq<u8>, c: int, b: int, e: int) -> bool {
        &&& self.candidate_block(target, c)
        &&& self.block(c) is Some
        &&& {
            let found = self.block(c).unwrap().entries();
            ||| b == c && seek_position(found, target, e) && (e < found.len() || c + 1
                >= self.metas.len())
            ||| b == c + 1 && e == 0 && c + 1 < self.metas.len() && seek_position(
                found,
                target,
                found.len() as int,
            ) && self.block(c + 1) is Some
        }
    }

    /// Block `c` is where a search for `target` starts, and the search
    /// cannot be made, for the reason `error`: block `c` cannot be read, or all its keys are before `target` and the
    /// block after it cannot be read.
    pub open spec fn seek_fails(self, target: Seq<u8>, c: int, error: StorageError) -> bool {
        &&& self.candidate_block(target, c)
        &&& match self.block(c) {
            Some(l) => c + 1 < self.metas.len() && seek_position(
                l.entries(),
                target,
                l.entries().len() as int,
            ) && self.block(c + 1) is None && error == self.block_error(c + 1),
            None => error == self.block_error(c),
        }
    }

}

/// An iterator over the contents of an SSTable.
pub struct SsTableIterator {
    /// The table, shared with whoever else reads it.
    table: Arc<SsTable>,
    /// The cursor in the current block.
    block_it: BlockIterator,
    /// The index of the current block.
    idx: usize,
}

impl SsTableIterator {
    /// The table that the iterator walks.
    pub closed spec fn table(&self) -> TableView {
        self.table@
    }

    /// The index of the current block.
    pub closed spec fn block_index(&self) -> int {
        self.idx as int
    }

    /// The index of the current entry in the current block.
    pub closed spec fn entry_index(&self) -> int {
        self.block_it.index()
    }

    /// Where a search for `key` ends, and the cursor to stand there.
    fn locate(table: &SsTable, key: &[u8]) -> (r: Result<(BlockIterator, usize), StorageError>)
        ensures
            r matches Ok((it, idx)) ==> it.inv() && table@.block(idx as int) == Some(it.block()),
            r is Ok ==> exists|c: int| #[trigger]
                table@.seek_lands(key@, c, r.unwrap().1 as int, r.unwrap().0.index()),
            r matches Err(e) ==> exists|c: int| #[trigger] table@.seek_fails(key@, c, e),
    {
        let n: usize = table.num_of_blocks();
        let mut mid: usize = table.find_block_idx(key);
        let ghost c = mid as int;
        let block: Arc<Block> = match table.read_block(mid) {
            Ok(block) => block,
            Err(e) => {
                assert(table@.seek_fails(key@, c, e));
                return Err(e);
            },
        };
        assert(table@.has_block(c));
        let mut it = BlockIterator::create_and_seek_to_key(block, key);
        if !it.is_valid() && mid + 1 < n {
            let next: Arc<Block> = match table.read_block(mid + 1) {
                Ok(block) => block,
                Err(e) => {
                    assert(table@.seek_fails(key@, c, e));
                    return Err(e);
                },
            };
            mid += 1;
            it = BlockIterator::create_and_seek_to_first(next);
        }
        let r = Ok((it, mid));
        proof {
            r.unwrap().0.lemma_index_in_range();
            assert(table@.seek_lands(key@, c, r.unwrap().1 as int, r.unwrap().0.index()));
        }
        r
    }

    /// Create a new iterator and seek to the first key-value pair in the
    /// first data block.
    pub fn create_and_seek_to_first(table: Arc<SsTable>) -> (r: Result<
        SsTableIterator,
        StorageError,
    >)
        ensures
            r is Ok == table@.block(0) is Some,
            r matches Err(e) ==> e == table@.block_error(0),
            r is Ok ==> r.unwrap().inv() && r.unwrap().table() == table@ && r.unwrap().block_index()
                == 0 && r.unwrap().entry_index() == 0 && r.unwrap().pending()
                == table@.entries_from(0),
    {
        let block: Arc<Block> = match table.read_block(0) {
            Ok(block) => block,
            Err(e) => { return Err(e); },
        };
        let it = SsTableIterator {
            table,
            block_it: BlockIterator::create_and_seek_to_first(block),
            idx: 0,
        };
        proof {
            it.lemma_pending_at_block_start();
        }
        Ok(it)
    }

    /// Seek to the first key-value pair in the first data block. Where
    /// that block cannot be read the iterator stays as it is.
    pub fn seek_to_first(&mut self) -> (r: Result<(), StorageError>)
        requires
            old(self).inv(),
        ensures
            final(self).inv(),
            final(self).table() == old(self).table(),
            r is Ok == old(self).table().block(0) is Some,
            r matches Err(e) ==> e == old(self).table().block_error(0),
            r is Ok ==> final(self).block_index() == 0 && final(self).entry_index() == 0,
            r is Ok ==> final(self).pending() == old(self).table().entries_from(0),
            r is Err ==> *final(self) == *old(self),
    {
        let block: Arc<Block> = match self.table.read_block(0) {
            Ok(block) => block,
            Err(e) => { return Err(e); },
        };
        self.idx = 0;
        self.block_it = BlockIterator::create_and_seek_to_first(block);
        proof {
            self.lemma_pending_at_block_start();
        }
        Ok(())
    }

    /// Create a new iterator and seek to the first key-value pair which >=
    /// `key`.
    pub fn create_and_seek_to_key(table: Arc<SsTable>, key: &[u8]) -> (r: Result<
        SsTableIterator,
        StorageError,
    >)
        ensures
            r is Ok ==> r.unwrap().inv() && r.unwrap().table() == table@,
            r is Ok ==> exists|c: int| #[trigger]
                table@.seek_lands(key@, c, r.unwrap().block_index(), r.unwrap().entry_index()),
            r matches Err(e) ==> exists|c: int| #[trigger] table@.seek_fails(key@, c, e),
    {
        let ghost tv = table@;
        let located = SsTableIterator::locate(&table, key);
        match located {
            Ok((block_it, idx)) => {
                let ghost c = choose|c: int| #[trigger]
                    tv.seek_lands(key@, c, idx as int, block_it.index());
                let r = Ok(SsTableIterator { table, block_it, idx });
                assert(tv.seek_lands(key@, c, r.unwrap().block_index(), r.unwrap().entry_index()));
                r
            },
            Err(e) => {
                let ghost c = choose|c: int| #[trigger] tv.seek_fails(key@, c, e);
                assert(tv.seek_fails(key@, c, e));
                Err(e)
            },
        }
    }

    /// Seek to the first key-value pair which >= `key`. Where a block
    /// that the search needs cannot be read the iterator stays as it is.
    pub fn seek_to_key(&mut self, key: &[u8]) -> (r: Result<(), StorageError>)
        requires
            old(self).inv(),
        ensures
            final(self).inv(),
            final(self).table() == old(self).table(),
            r is Ok ==> exists|c: int| #[trigger]
                old(self).table().seek_lands(
                    key@,
                    c,
                    final(self).block_index(),
                    final(self).entry_index(),
                ),
            r matches Err(e) ==> exists|c: int| #[trigger] old(self).table().seek_fails(key@, c, e),
            r is Err ==> *final(self) == *old(self),
    {
        let ghost tv = self.table@;
        let located = SsTableIterator::locate(&self.table, key);
        match located {
            Ok((block_it, idx)) => {
                let ghost c = choose|c: int| #[trigger]
                    tv.seek_lands(key@, c, idx as int, block_it.index());
                self.block_it = block_it;
                self.idx = idx;
                assert(old(self).table().seek_lands(
                    key@,
                    c,
                    self.block_index(),
                    self.entry_index(),
                ));
                Ok(())
            },
            Err(e) => {
                let ghost c = choose|c: int| #[trigger] tv.seek_fails(key@, c, e);
                assert(old(self).table().seek_fails(key@, c, e));
                Err(e)
            },
        }
    }

    /// At the first entry of a block the pending entries are those from
    /// that block on.
    proof fn lemma_pending_at_block_start(&self)
        requires
            self.inv(),
            self.entry_index() == 0,
        ensures
            self.pending() == self.table().entries_from(self.block_index()),
    {
        let l = self.block_it.block();
        self.block_it.lemma_index_in_range();
        if l.entries().len() > 0 {
            assert(l.entries().subrange(0, l.entries().len() as int) =~= l.entries());
        }
    }
}

impl StorageIterator for SsTableIterator {
    /// The cursor in the current block is sound, and the current block is
    /// the block of the table at the block index.
    closed spec fn inv(&self) -> bool {
        &&& self.block_it.inv()
        &&& self.table@.block(self.idx as int) == Some(self.block_it.block())
    }

    /// The entries from the current one on: the rest of the current block,
    /// then the blocks after it, up to the first that cannot be read or
    /// holds no entry.
    open spec fn pending(&self) -> Seq<Entry> {
        self.table().entries_at(self.block_index(), self.entry_index())
    }

    /// In a table whose blocks are all sound no block fails to be read, so
    /// no move fails.
    open spec fn never_fails(&self) -> bool {
        self.table().sound()
    }

    /// Return the `value` that's held by the underlying block iterator.
    fn value(&self) -> (v: &[u8]) {
        proof {
            self.block_it.lemma_index_in_range();
        }
        self.block_it.value()
    }

    /// Return the `key` that's held by the underlying block iterator.
    fn key(&self) -> (k: &[u8]) {
        proof {
            self.block_it.lemma_index_in_range();
        }
        self.block_it.key()
    }

    /// Return whether the current block iterator is valid or not.
    fn is_valid(&self) -> (valid: bool) {
        proof {
            self.block_it.lemma_index_in_range();
        }
        self.block_it.is_valid()
    }

    /// Move to the next `key`: in the current block, or at the start of the
    /// next block where the current one has ended. The move fails where
    /// that next block cannot be read; the iterator is then at its end.
    fn next(&mut self) -> (r: Result<(), StorageError>)
        ensures
            final(self).table() == old(self).table(),
            final(self).pending() == advance(old(self).pending()),
            r is Err <==> old(self).pending().len() > 0 && advance(old(self).pending()).len() == 0
                && old(self).block_index() + 1 < old(self).table().metas.len()
                && old(self).table().block(old(self).block_index() + 1) is None,
            r matches Err(e) ==> e == old(self).table().block_error(old(self).block_index() + 1),
    {
        proof {
            self.block_it.lemma_index_in_range();
        }
        if !self.block_it.is_valid() {
            return Ok(());
        }
        let ghost tv = self.table@;
        let ghost b = self.idx as int;
        let ghost l = self.block_it.block();
        let ghost e = self.block_it.index();
        self.block_it.next();
        proof {
            self.block_it.lemma_index_in_range();
            assert(l.entries().subrange(e, l.entries().len() as int).subrange(
                1,
                l.entries().len() - e,
            ) =~= l.entries().subrange(e + 1, l.entries().len() as int));
            let rest = l.entries().subrange(e, l.entries().len() as int);
            assert((rest + tv.entries_from(b + 1)).subrange(
                1,
                (rest + tv.entries_from(b + 1)).len() as int,
            ) =~= rest.subrange(1, rest.len() as int) + tv.entries_from(b + 1));
        }
        assert(tv.has_block(b));
        let n: usize = self.table.num_of_blocks();
        proof {
            if tv.sound() && b + 1 < n {
                assert(tv.block_sound(b + 1));
            }
        }
        if !self.block_it.is_valid() && self.idx + 1 < n {
            let block: Arc<Block> = match self.table.read_block(self.idx + 1) {
                Ok(block) => block,
                Err(e) => { return Err(e); },
            };
            self.idx += 1;
            self.block_it = BlockIterator::create_and_seek_to_first(block);
            proof {
                self.lemma_pending_at_block_start();
            }
        }
        Ok(())
    }
}

} // verus!
