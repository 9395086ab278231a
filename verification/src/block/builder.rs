//! Fills a block entry by entry, up to a size budget.

use super::entry_bytes;
use super::Block;
use super::BlockLayout;
use super::Entry;
use vstd::prelude::*;

verus! {

/// Builds a block.
pub struct BlockBuilder {
    block: Block,
    curr_size: usize,
    block_size: usize,
}

/// Appends the bytes of `src` to `dst`.
pub(crate) fn append_bytes(dst: &mut Vec<u8>, src: &[u8])
    ensures
        final(dst)@ == old(dst)@ + src@,
{
    let mut i: usize = 0;
    while i < src.len()
        invariant
            i <= src@.len(),
            dst@ == old(dst)@ + src@.subrange(0, i as int),
        decreases src@.len() - i,
    {
        dst.push(src[i]);
        assert(dst@ =~= old(dst)@ + src@.subrange(0, i + 1));
        i += 1;
    }
    assert(src@.subrange(0, i as int) =~= src@);
}

impl BlockBuilder {
    /// The block as built so far.
    pub closed spec fn layout(&self) -> BlockLayout {
        self.block@
    }

    /// The entries admitted so far, in the order of their admission.
    pub open spec fn entries(&self) -> Seq<Entry> {
        self.layout().entries()
    }

    /// The bytes that the admitted entries take, their offset slots included.
    pub closed spec fn current_size(&self) -> int {
        self.curr_size as int
    }

    /// The size budget.
    pub closed spec fn block_size(&self) -> int {
        self.block_size as int
    }

    /// The block built so far is well formed, and the running size is the
    /// size of its data section and offset table, within the budget.
    pub closed spec fn inv(&self) -> bool {
        &&& self.block@.well_formed()
        &&& self.block@.offsets.len() == 0 ==> self.block@.data.len() == 0
        &&& self.curr_size == self.block@.data.len() + 2 * self.block@.offsets.len()
        &&& self.curr_size <= self.block_size <= 0xFFFF
    }

    /// A builder takes no size while it holds no entry, and only then.
    pub proof fn lemma_empty_iff_no_size(&self)
        requires
            self.inv(),
        ensures
            (self.entries().len() == 0) == (self.current_size() == 0),
            self.block_size() <= 0xFFFF,
    {
        if self.block@.offsets.len() > 0 {
            self.block@.lemma_limit_in_data(0);
        }
    }

    /// Creates a new block builder with the given size budget.
    pub fn new(block_size: usize) -> (builder: BlockBuilder)
        requires
            block_size <= 0xFFFF,
        ensures
            builder.inv(),
            builder.layout() == BlockLayout::empty(),
            builder.entries() == Seq::<Entry>::empty(),
            builder.current_size() == 0,
            builder.block_size() == block_size,
    {
        let builder = BlockBuilder {
            block: Block { data: Vec::new(), offsets: Vec::new() },
            curr_size: 0,
            block_size,
        };
        assert(builder.entries() =~= Seq::<Entry>::empty());
        builder
    }

    /// Adds a key-value pair to the block. Returns false, and changes
    /// nothing, when the pair with its offset slot does not fit the budget.
    #[must_use]
    pub fn add(&mut self, key: &[u8], value: &[u8]) -> (added: bool)
        requires
            old(self).inv(),
        ensures
            final(self).inv(),
            final(self).block_size() == old(self).block_size(),
            added == (old(self).current_size() + 2 + key@.len() + 2 + value@.len() + 2 <= old(self).block_size()),
            added ==> final(self).layout() == old(self).layout().with_entry(key@, value@),
            added ==> final(self).entries() == old(self).entries().push((key@, value@)),
            added ==> final(self).current_size() == old(self).current_size() + 2 + key@.len() + 2
                + value@.len() + 2,
            !added ==> *final(self) == *old(self),
    {
        let budget: usize = self.block_size - self.curr_size;
        if key.len() > budget || value.len() > budget || key.len() + value.len() + 6 > budget {
            return false;
        }
        let ghost before = self.block@;
        proof {
            before.lemma_with_entry(key@, value@);
        }
        let offset: usize = self.block.data.len();
        self.block.offsets.push(offset as u16);
        self.block.data.push((key.len() / 256) as u8);
        self.block.data.push((key.len() % 256) as u8);
        append_bytes(&mut self.block.data, key);
        self.block.data.push((value.len() / 256) as u8);
        self.block.data.push((value.len() % 256) as u8);
        append_bytes(&mut self.block.data, value);
        self.curr_size += key.len() + value.len() + 6;
        proof {
            assert(self.block@.data =~= before.data + entry_bytes(key@, value@));
            assert(self.block@ == before.with_entry(key@, value@));
        }
        true
    }

    /// Check if there is no key-value pair in the block.
    pub fn is_empty(&self) -> (empty: bool)
        requires
            self.inv(),
        ensures
            empty == (self.entries().len() == 0),
            empty == (self.current_size() == 0),
    {
        proof {
            self.lemma_empty_iff_no_size();
        }
        self.curr_size == 0
    }

    /// Finalize the block.
    pub fn build(self) -> (block: Block)
        requires
            self.inv(),
        ensures
            block.inv(),
            block@ == self.layout(),
            block@.entries() == self.entries(),
    {
        self.block
    }
}

} // verus!
