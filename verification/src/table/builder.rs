//! Streams entries into blocks and lays the blocks out as a table.

use super::layout_laws::encodable;
use super::meta_views;
use super::opened;
use super::metas_bytes;
use super::BlockMeta;
use super::FileObject;
use super::SsTable;
use super::TableView;
use crate::block::BlockLayout;
use crate::block::builder::append_bytes;
use crate::block::lemma_decode_encode;
use crate::block::Block;
use crate::block::BlockBuilder;
use crate::block::BlockIterator;
use crate::block::Entry;
use crate::byte_buf::bytes_as_slice;
use crate::wire::be64_bytes;
use bytes::Bytes;
use std::sync::Arc;
use vstd::prelude::*;

verus! {

/// Builds an SSTable from key-value pairs.
pub struct SsTableBuilder {
    /// The index records of the blocks that are finished.
    pub(super) meta: Vec<BlockMeta>,
    /// The block that takes the entries as they come.
    block_builder: BlockBuilder,
    /// The size budget of each block.
    block_size: usize,
    /// The number of bytes in the finished blocks.
    total_size: usize,
    /// The bytes of the finished blocks.
    block_bytes: Vec<u8>,
}

impl SsTableBuilder {
    /// The finished blocks as a table of their own: its index starts where
    /// its bytes end.
    pub closed spec fn flushed(&self) -> TableView {
        TableView {
            bytes: self.block_bytes@,
            metas: meta_views(self.meta@),
            meta_offset: self.block_bytes@.len() as int,
        }
    }

    /// The block that is still being filled.
    pub closed spec fn open_layout(&self) -> BlockLayout {
        self.block_builder.layout()
    }

    /// The entries of the block that is still being filled.
    pub open spec fn open_block(&self) -> Seq<Entry> {
        self.open_layout().entries()
    }

    /// The bytes that the block being filled has taken of its budget.
    pub closed spec fn open_size(&self) -> int {
        self.block_builder.current_size()
    }

    /// The finished blocks once the block being filled has been ended, if
    /// it holds an entry.
    pub open spec fn finished(&self) -> TableView {
        if self.open_block().len() > 0 {
            self.flushed().with_block(self.open_layout())
        } else {
            self.flushed()
        }
    }

    /// The entries added so far, in the order in which they came.
    pub open spec fn entries(&self) -> Seq<Entry> {
        self.flushed().entries_from(0) + self.open_block()
    }

    /// The size budget of each block.
    pub closed spec fn block_size(&self) -> int {
        self.block_size as int
    }

    /// The finished blocks are sound, and the block being filled has the
    /// budget of the builder.
    pub closed spec fn inv(&self) -> bool {
        &&& self.block_builder.inv()
        &&& self.block_builder.block_size() == self.block_size
        &&& self.block_size <= 0xFFFF
        &&& self.total_size == self.block_bytes@.len()
        &&& self.flushed().sound()
    }

    /// Create a builder based on target block size.
    pub fn new(block_size: usize) -> (builder: SsTableBuilder)
        requires
            block_size <= 0xFFFF,
        ensures
            builder.inv(),
            builder.block_size() == block_size,
            builder.entries() == Seq::<Entry>::empty(),
            builder.flushed().bytes.len() == 0,
            builder.flushed().metas.len() == 0,
            builder.open_layout() == BlockLayout::empty(),
            builder.open_size() == 0,
    {
        let builder = SsTableBuilder {
            meta: Vec::new(),
            block_builder: BlockBuilder::new(block_size),
            block_size,
            total_size: 0,
            block_bytes: Vec::new(),
        };
        assert(builder.flushed().metas.len() == 0);
        assert(builder.entries() =~= Seq::<Entry>::empty());
        builder
    }

    /// Ends the block that is being filled: its bytes go to the finished
    /// blocks, its offset and first key to the index, and a new block
    /// starts.
    fn finish_block(&mut self)
        requires
            old(self).inv(),
            old(self).open_block().len() > 0,
        ensures
            final(self).inv(),
            final(self).block_size() == old(self).block_size(),
            final(self).open_layout() == BlockLayout::empty(),
            final(self).open_size() == 0,
            final(self).entries() == old(self).entries(),
            final(self).flushed() == old(self).flushed().with_block(old(self).open_layout()),
    {
        let ghost before = self.flushed();
        let ghost open = self.open_block();
        let mut old_builder: BlockBuilder = BlockBuilder::new(self.block_size);
        core::mem::swap(&mut self.block_builder, &mut old_builder);
        let built_block: Block = old_builder.build();
        let ghost layout = built_block@;
        let bytes: Bytes = built_block.encode();
        let block_iter = BlockIterator::create_and_seek_to_first(Arc::new(built_block));
        let first_key: Bytes = Bytes::copy_from_slice(block_iter.key());
        self.meta.push(BlockMeta { offset: self.total_size, first_key });
        append_bytes(&mut self.block_bytes, bytes_as_slice(&bytes));
        self.total_size = self.block_bytes.len();
        proof {
            let after = self.flushed();
            let n = before.metas.len() as int;
            assert(after.metas =~= before.metas.push(
                super::MetaRecord { offset: before.meta_offset, first_key: layout.entries()[0].0 },
            ));
            assert(after.bytes == before.bytes + layout.encoded());
            assert(after == before.with_block(layout));
            assert(self.open_block() =~= Seq::<Entry>::empty());
            assert(after.bytes.subrange(0, before.meta_offset) =~= before.bytes.subrange(
                0,
                before.meta_offset,
            ));
            assert(after.metas.subrange(0, n) =~= before.metas);
            assert(before.extended_by(after));
            lemma_decode_encode(layout);
            assert(after.block_bytes(n) =~= layout.encoded());
            assert(after.block(n) == Some(layout));
            assert(after.block_sound(n));
            assert forall|i: int| 0 <= i < after.metas.len() implies #[trigger] after.block_sound(
                i,
            ) by {
                if i < n {
                    before.lemma_extended_block_sound(after, i);
                }
            }
            before.lemma_extended_entries(after, 0);
            assert(after.entries_from(n + 1) =~= Seq::<Entry>::empty());
            assert(after.entries_from(n) =~= layout.entries());
            assert(self.entries() =~= before.entries_from(0) + open);
        }
    }

    /// Adds a key-value pair to SSTable. The pair has to fit a block of its
    /// own; where the block being filled has no room for it, that block is
    /// ended and the pair starts the next.
    pub fn add(&mut self, key: &[u8], value: &[u8])
        requires
            old(self).inv(),
            2 + key@.len() + 2 + value@.len() + 2 <= old(self).block_size(),
        ensures
            final(self).inv(),
            final(self).block_size() == old(self).block_size(),
            final(self).entries() == old(self).entries().push((key@, value@)),
            old(self).open_size() + 2 + key@.len() + 2 + value@.len() + 2 <= old(self).block_size()
                ==> final(self).flushed() == old(self).flushed() && final(self).open_layout()
                == old(self).open_layout().with_entry(key@, value@) && final(self).open_size()
                == old(self).open_size() + 2 + key@.len() + 2 + value@.len() + 2,
            old(self).open_size() + 2 + key@.len() + 2 + value@.len() + 2 > old(self).block_size()
                ==> final(self).flushed() == old(self).flushed().with_block(
                old(self).open_layout(),
            ) && final(self).open_layout() == BlockLayout::empty().with_entry(key@, value@)
                && final(self).open_size() == 2 + key@.len() + 2 + value@.len() + 2,
    {
        let ghost flushed = self.flushed().entries_from(0);
        let ghost open = self.open_block();
        if !self.block_builder.add(key, value) {
            proof {
                self.block_builder.lemma_empty_iff_no_size();
            }
            self.finish_block();
            proof {
                self.block_builder.lemma_empty_iff_no_size();
            }
            let res = self.block_builder.add(key, value);
            assert(res);
            assert(self.entries() =~= (flushed + open).push((key@, value@)));
        } else {
            assert(self.entries() =~= (flushed + open).push((key@, value@)));
        }
    }

    /// The size budget of each block. A key-value pair can be added where
    /// it takes no more than the budget: its two lengths and its offset
    /// slot take six bytes, the key and the value their own.
    pub fn block_budget(&self) -> (budget: usize)
        requires
            self.inv(),
        ensures
            budget == self.block_size(),
            budget <= 0xFFFF,
    {
        self.block_size
    }

    /// Check if no key-value pair has been added.
    pub fn is_empty(&self) -> (empty: bool)
        requires
            self.inv(),
        ensures
            empty == (self.entries().len() == 0),
    {
        proof {
            let flushed = self.flushed();
            if flushed.metas.len() > 0 {
                assert(flushed.block_sound(0));
            }
        }
        self.meta.len() == 0 && self.block_builder.is_empty()
    }

    /// Get the estimated size of the SSTable: the bytes of its finished
    /// blocks.
    pub fn estimated_size(&self) -> (size: usize)
        requires
            self.inv(),
        ensures
            size == self.flushed().bytes.len(),
    {
        self.total_size
    }

    /// Builds the SSTable: ends the block being filled, then writes the
    /// index and its offset after the blocks.
    pub fn build(self, id: usize) -> (table: SsTable)
        requires
            self.inv(),
            self.entries().len() > 0,
        ensures
            table.sst_id() == id,
            table@.sound(),
            table@.entries_from(0) == self.entries(),
            table@.metas == self.finished().metas,
            table@.meta_offset == self.finished().meta_offset,
            table@.bytes == self.finished().bytes + metas_bytes(table@.metas) + be64_bytes(
                table@.meta_offset,
            ),
            opened(table@.bytes) == Some(table@),
    {
        let mut builder = self;
        if !builder.block_builder.is_empty() {
            builder.finish_block();
        }
        let ghost before = builder.flushed();
        assert(before == self.finished());
        let SsTableBuilder { meta, block_builder: _, block_size: _, total_size, block_bytes } =
            builder;
        let mut file_bytes: Vec<u8> = block_bytes;
        BlockMeta::encode_block_meta(meta.as_slice(), &mut file_bytes);
        let table = SsTable {
            file: FileObject::create(file_bytes),
            block_metas: meta,
            block_meta_offset: total_size,
            id,
        };
        proof {
            let after = table@;
            let n = before.metas.len() as int;
            assert(after.bytes == before.bytes + metas_bytes(before.metas) + be64_bytes(
                before.meta_offset,
            ));
            assert(after.bytes.subrange(0, before.meta_offset) =~= before.bytes);
            assert(before.bytes.subrange(0, before.meta_offset) =~= before.bytes);
            assert(after.metas.subrange(0, n) =~= before.metas);
            assert(before.extended_by(after));
            assert forall|i: int| 0 <= i < after.metas.len() implies #[trigger] after.block_sound(
                i,
            ) by {
                before.lemma_extended_block_sound(after, i);
            }
            before.lemma_extended_entries(after, 0);
            assert(after.entries_from(n) =~= Seq::<Entry>::empty());
            assert(after.entries_from(0) =~= before.entries_from(0));
            assert(self.entries() =~= before.entries_from(0)) by {
                assert(builder.open_block() =~= Seq::<Entry>::empty());
            }
            assert(after.laid_out());
            assert(encodable(after.metas)) by {
                assert forall|i: int| 0 <= i < after.metas.len() implies 0 <= (
                #[trigger] after.metas[i]).offset <= usize::MAX && after.metas[i].first_key.len()
                    <= u64::MAX by {
                    after.lemma_sound_first_keys(i);
                }
            }
            after.lemma_opens_as_laid_out();
        }
        table
    }
}

} // verus!
