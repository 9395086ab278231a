//! The sorted string table: blocks one after another, then an index with
//! the offset and first key of each block, then the offset of the index.
//!
//! ```text
//! | block 0 | ... | block M-1 | meta 0 | ... | meta M-1 | meta offset |
//! ```
//!
//! A meta record is the block's offset, the length of its first key and the
//! key itself. Offsets and lengths take eight bytes, big-endian.

pub mod builder;
pub mod iterator;
pub mod layout_laws;
pub mod seek_laws;

use crate::block::decoded;
use crate::block::Block;
use crate::block::BlockLayout;
use crate::block::Entry;
use crate::block::builder::append_bytes;
use crate::byte_buf::bytes_as_slice;
use crate::byte_buf::bytes_contents;
use crate::byte_buf::bytes_from_vec;
use crate::error::StorageError;
use crate::key_order::key_lt;
use crate::key_order::lex_le;
use crate::key_order::lex_lt;
use crate::table::layout_laws::encodable;
use crate::table::layout_laws::lemma_decode_encoded_metas;
use crate::wire::be64_at;
use crate::wire::be64_bytes;
use crate::wire::lemma_be64_at_bound;
use crate::wire::lemma_be_at_local;
use crate::wire::put_u64;
use crate::wire::read_u64;
use bytes::Bytes;
use std::sync::Arc;
use vstd::prelude::*;
use vstd::slice::slice_subrange;
use vstd::slice::slice_to_vec;

pub use builder::SsTableBuilder;
pub use iterator::SsTableIterator;

verus! {

/// What an index record says: where a block starts and its first key.
pub struct MetaRecord {
    pub offset: int,
    pub first_key: Seq<u8>,
}

/// The index record of one data block.
#[derive(Clone, Debug, PartialEq, Eq)]
pub struct BlockMeta {
    /// Offset of this data block.
    pub offset: usize,
    /// The first key of the data block, mainly used for index purpose.
    pub first_key: Bytes,
}

impl View for BlockMeta {
    type V = MetaRecord;

    open spec fn view(&self) -> MetaRecord {
        MetaRecord { offset: self.offset as int, first_key: bytes_contents(self.first_key) }
    }
}

/// The records that a run of `BlockMeta` stands for.
pub open spec fn meta_views(metas: Seq<BlockMeta>) -> Seq<MetaRecord> {
    Seq::new(metas.len(), |i: int| metas[i]@)
}

/// The bytes of one index record.
pub open spec fn meta_bytes(m: MetaRecord) -> Seq<u8> {
    be64_bytes(m.offset) + be64_bytes(m.first_key.len() as int) + m.first_key
}

/// The bytes of a run of index records.
pub open spec fn metas_bytes(metas: Seq<MetaRecord>) -> Seq<u8>
    decreases metas.len(),
{
    if metas.len() == 0 {
        Seq::empty()
    } else {
        metas_bytes(metas.drop_last()) + meta_bytes(metas.last())
    }
}

/// The index records that `bytes` spell from `pos` to their end, if they
/// spell records all the way: each has its two numbers and as many key
/// bytes as it announces, and its offset fits `usize`.
pub open spec fn decoded_metas_from(bytes: Seq<u8>, pos: int) -> Option<Seq<MetaRecord>>
    decreases bytes.len() - pos,
{
    if pos < 0 || pos >= bytes.len() {
        Some(Seq::empty())
    } else if pos + 16 > bytes.len() {
        None
    } else {
        let offset = be64_at(bytes, pos);
        let key_len = be64_at(bytes, pos + 8);
        if offset > usize::MAX || key_len < 0 || pos + 16 + key_len > bytes.len() {
            None
        } else {
            let record = MetaRecord {
                offset,
                first_key: bytes.subrange(pos + 16, pos + 16 + key_len),
            };
            match decoded_metas_from(bytes, pos + 16 + key_len) {
                Some(rest) => Some(seq![record] + rest),
                None => None,
            }
        }
    }
}

impl BlockMeta {
    /// Encode block meta to a buffer: the records, then the length that the
    /// buffer had before them, which is where they start.
    pub fn encode_block_meta(block_meta: &[BlockMeta], buf: &mut Vec<u8>)
        ensures
            final(buf)@ == old(buf)@ + metas_bytes(meta_views(block_meta@)) + be64_bytes(
                old(buf)@.len() as int,
            ),
            encodable(meta_views(block_meta@)),
            decoded_metas_from(metas_bytes(meta_views(block_meta@)), 0) == Some(
                meta_views(block_meta@),
            ),
    {
        let meta_offset: usize = buf.len();
        let ghost views = meta_views(block_meta@);
        let mut i: usize = 0;
        while i < block_meta.len()
            invariant
                i <= block_meta@.len(),
                views == meta_views(block_meta@),
                buf@ == old(buf)@ + metas_bytes(views.subrange(0, i as int)),
                forall|j: int|
                    0 <= j < i ==> 0 <= (#[trigger] views[j]).offset <= usize::MAX
                        && views[j].first_key.len() <= u64::MAX,
            decreases block_meta@.len() - i,
        {
            let meta: &BlockMeta = &block_meta[i];
            let key: &[u8] = bytes_as_slice(&meta.first_key);
            let ghost before = buf@;
            put_u64(buf, meta.offset as u64);
            put_u64(buf, key.len() as u64);
            append_bytes(buf, key);
            proof {
                let done = views.subrange(0, i + 1);
                assert(done.drop_last() =~= views.subrange(0, i as int));
                assert(done.last() == block_meta@[i as int]@);
                assert(buf@ =~= before + meta_bytes(done.last()));
                assert(buf@ =~= old(buf)@ + metas_bytes(done));
            }
            i += 1;
        }
        assert(views.subrange(0, i as int) =~= views);
        put_u64(buf, meta_offset as u64);
        proof {
            lemma_decode_encoded_metas(views);
        }
    }

    /// Decode block meta from a buffer that holds records and nothing else.
    pub fn decode_block_meta(buf: &[u8]) -> (r: Result<Vec<BlockMeta>, StorageError>)
        ensures
            match decoded_metas_from(buf@, 0) {
                Some(metas) => r is Ok && meta_views(r.unwrap()@) == metas,
                None => r == Err::<Vec<BlockMeta>, StorageError>(StorageError::CorruptMeta),
            },
    {
        let total_len: usize = buf.len();
        let mut block_metas: Vec<BlockMeta> = Vec::new();
        let mut curr_idx: usize = 0;
        while curr_idx < total_len
            invariant
                curr_idx <= total_len,
                total_len == buf@.len(),
                decoded_metas_from(buf@, 0) == match decoded_metas_from(buf@, curr_idx as int) {
                    Some(rest) => Some(meta_views(block_metas@) + rest),
                    None => None,
                },
            decreases total_len - curr_idx,
        {
            if total_len - curr_idx < 16 {
                return Err(StorageError::CorruptMeta);
            }
            proof {
                lemma_be64_at_bound(buf@, curr_idx as int);
                lemma_be64_at_bound(buf@, curr_idx + 8);
            }
            let offset: u64 = read_u64(buf, curr_idx);
            let keylen: u64 = read_u64(buf, curr_idx + 8);
            if offset > usize::MAX as u64 || keylen > (total_len - curr_idx - 16) as u64 {
                return Err(StorageError::CorruptMeta);
            }
            let key_start: usize = curr_idx + 16;
            let key_end: usize = key_start + keylen as usize;
            let first_key: Bytes = Bytes::copy_from_slice(slice_subrange(buf, key_start, key_end));
            let ghost before = meta_views(block_metas@);
            block_metas.push(BlockMeta { offset: offset as usize, first_key });
            proof {
                let record = MetaRecord {
                    offset: offset as int,
                    first_key: buf@.subrange(key_start as int, key_end as int),
                };
                assert(meta_views(block_metas@) =~= before.push(record));
                match decoded_metas_from(buf@, key_end as int) {
                    Some(rest) => {
                        assert(before + (seq![record] + rest) =~= before.push(record) + rest);
                    },
                    None => {},
                }
            }
            curr_idx = key_end;
        }
        proof {
            assert(meta_views(block_metas@) + Seq::<MetaRecord>::empty() =~= meta_views(
                block_metas@,
            ));
        }
        Ok(block_metas)
    }
}

/// A file, held in memory whole.
pub struct FileObject(Bytes);

impl View for FileObject {
    type V = Seq<u8>;

    closed spec fn view(&self) -> Seq<u8> {
        bytes_contents(self.0)
    }
}

impl FileObject {
    /// The `len` bytes from `offset` on; an error where the file does not
    /// hold them all.
    pub fn read(&self, offset: u64, len: u64) -> (r: Result<Vec<u8>, StorageError>)
        ensures
            offset + len <= self@.len() ==> r is Ok && r.unwrap()@ == self@.subrange(
                offset as int,
                offset + len,
            ),
            offset + len > self@.len() ==> r == Err::<Vec<u8>, StorageError>(
                StorageError::ReadOutOfRange,
            ),
    {
        let bytes: &[u8] = bytes_as_slice(&self.0);
        let size: u64 = bytes.len() as u64;
        if offset > size || len > size - offset {
            return Err(StorageError::ReadOutOfRange);
        }
        Ok(slice_to_vec(slice_subrange(bytes, offset as usize, (offset + len) as usize)))
    }

    /// The number of bytes in the file.
    pub fn size(&self) -> (size: u64)
        ensures
            size == self@.len(),
            size <= usize::MAX,
    {
        bytes_as_slice(&self.0).len() as u64
    }

    /// A file that holds `data`.
    pub fn create(data: Vec<u8>) -> (file: FileObject)
        ensures
            file@ == data@,
    {
        FileObject(bytes_from_vec(data))
    }
}

/// What a table is made of: the bytes of its file, its index, and where in
/// the file the index starts.
pub struct TableView {
    pub bytes: Seq<u8>,
    pub metas: Seq<MetaRecord>,
    pub meta_offset: int,
}

impl TableView {
    /// One past the last byte of block `i`: the next block's offset, or the
    /// start of the index for the last block.
    pub open spec fn block_end(self, i: int) -> int {
        if i + 1 < self.metas.len() {
            self.metas[i + 1].offset
        } else {
            self.meta_offset
        }
    }

    /// The table has a block `i`.
    pub open spec fn has_block(self, i: int) -> bool {
        0 <= i < self.metas.len()
    }

    /// The bytes of block `i` lie in the file.
    pub open spec fn block_in_file(self, i: int) -> bool {
        0 <= self.metas[i].offset <= self.block_end(i) <= self.bytes.len()
    }

    /// The bytes of block `i`.
    pub open spec fn block_bytes(self, i: int) -> Seq<u8> {
        self.bytes.subrange(self.metas[i].offset, self.block_end(i))
    }

    /// Block `i`, where the table has one, its bytes lie in the file and
    /// spell a block.
    pub open spec fn block(self, i: int) -> Option<BlockLayout> {
        if self.has_block(i) && self.block_in_file(i) {
            decoded(self.block_bytes(i))
        } else {
            None
        }
    }

    /// Why block `i` cannot be read, where it cannot: the table has no such
    /// block, or its bytes do not lie in the file, or they spell no block.
    pub open spec fn block_error(self, i: int) -> StorageError {
        if !self.has_block(i) {
            StorageError::NoSuchBlock
        } else if !self.block_in_file(i) {
            StorageError::ReadOutOfRange
        } else {
            StorageError::CorruptBlock
        }
    }

    /// The entries from block `i` on, as far as a walk over the blocks
    /// gets: it ends before the first block that cannot be read or that
    /// holds no entry.
    pub open spec fn entries_from(self, i: int) -> Seq<Entry>
        decreases self.metas.len() - i,
    {
        if 0 <= i < self.metas.len() {
            match self.block(i) {
                Some(l) => if l.entries().len() > 0 {
                    l.entries() + self.entries_from(i + 1)
                } else {
                    Seq::empty()
                },
                None => Seq::empty(),
            }
        } else {
            Seq::empty()
        }
    }

    /// The entries from entry `e` of block `b` on; none where the table has
    /// no such entry.
    pub open spec fn entries_at(self, b: int, e: int) -> Seq<Entry> {
        match self.block(b) {
            Some(l) => if 0 <= e < l.entries().len() {
                l.entries().subrange(e, l.entries().len() as int) + self.entries_from(b + 1)
            } else {
                Seq::empty()
            },
            None => Seq::empty(),
        }
    }

    /// Block `i` can be read, holds an entry, and the index has its first
    /// key.
    pub open spec fn block_sound(self, i: int) -> bool {
        &&& self.block(i) is Some
        &&& self.block(i).unwrap().entries().len() > 0
        &&& self.metas[i].first_key == self.block(i).unwrap().entries()[0].0
    }

    /// Every block of the table is sound.
    pub open spec fn sound(self) -> bool {
        forall|i: int| 0 <= i < self.metas.len() ==> #[trigger] self.block_sound(i)
    }

    /// The table with one more block after its bytes: the index gets the
    /// offset of the block and its first key, and starts after the block.
    pub open spec fn with_block(self, l: BlockLayout) -> TableView {
        TableView {
            bytes: self.bytes + l.encoded(),
            metas: self.metas.push(
                MetaRecord { offset: self.bytes.len() as int, first_key: l.entries()[0].0 },
            ),
            meta_offset: (self.bytes.len() + l.encoded().len()) as int,
        }
    }

    /// `other` has the blocks of `self`, at the same places, and maybe more
    /// after them.
    pub open spec fn extended_by(self, other: TableView) -> bool {
        let n = self.metas.len() as int;
        &&& 0 <= self.meta_offset <= self.bytes.len()
        &&& self.meta_offset <= other.bytes.len()
        &&& other.bytes.subrange(0, self.meta_offset) == self.bytes.subrange(0, self.meta_offset)
        &&& n <= other.metas.len()
        &&& other.metas.subrange(0, n) == self.metas
        &&& if n < other.metas.len() {
            other.metas[n].offset == self.meta_offset
        } else {
            other.meta_offset == self.meta_offset
        }
    }

    /// A readable block ends at or before the start of the index, where all
    /// blocks after it are readable too.
    pub proof fn lemma_sound_offsets_bounded(self, i: int)
        requires
            self.block(i) is Some,
            forall|j: int| i < j < self.metas.len() ==> self.block(j) is Some,
        ensures
            self.block_end(i) <= self.meta_offset,
        decreases self.metas.len() - i,
    {
        if i + 1 < self.metas.len() {
            self.lemma_sound_offsets_bounded(i + 1);
        }
    }

    /// A walk over a sound table, extended, gives the entries of the table
    /// and then those of the blocks that were added.
    pub proof fn lemma_extended_entries(self, other: TableView, i: int)
        requires
            self.extended_by(other),
            self.sound(),
            0 <= i <= self.metas.len(),
        ensures
            other.entries_from(i) == self.entries_from(i) + other.entries_from(
                self.metas.len() as int,
            ),
        decreases self.metas.len() - i,
    {
        let n = self.metas.len() as int;
        if i < n {
            assert(self.block_sound(i));
            assert forall|j: int| i < j < n implies self.block(j) is Some by {
                assert(self.block_sound(j));
            }
            self.lemma_extended_block_sound(other, i);
            self.lemma_extended_entries(other, i + 1);
            let l = self.block(i).unwrap();
            assert(other.entries_from(i) == l.entries() + other.entries_from(i + 1));
            assert(l.entries() + (self.entries_from(i + 1) + other.entries_from(n)) =~= (
            l.entries() + self.entries_from(i + 1)) + other.entries_from(n));
        } else {
            assert(self.entries_from(i) + other.entries_from(n) =~= other.entries_from(n));
        }
    }

    /// A table that extends a sound one has each of its blocks, sound.
    pub proof fn lemma_extended_block_sound(self, other: TableView, i: int)
        requires
            self.extended_by(other),
            self.sound(),
            0 <= i < self.metas.len(),
        ensures
            other.block(i) == self.block(i),
            other.block_sound(i),
    {
        let n = self.metas.len() as int;
        assert(self.block_sound(i));
        assert forall|j: int| i < j < n implies self.block(j) is Some by {
            assert(self.block_sound(j));
        }
        assert(other.metas[i] == other.metas.subrange(0, n)[i]);
        if i + 1 < n {
            assert(other.metas[i + 1] == other.metas.subrange(0, n)[i + 1]);
        }
        let lo = self.metas[i].offset;
        let hi = self.block_end(i);
        self.lemma_sound_offsets_bounded(i);
        assert forall|j: int| lo <= j < hi implies other.bytes[j] == self.bytes[j] by {
            assert(other.bytes.subrange(0, self.meta_offset)[j] == self.bytes.subrange(
                0,
                self.meta_offset,
            )[j]);
        }
        assert(other.block_bytes(i) =~= self.block_bytes(i));
    }

    /// `c` is where a search for `target` starts: the first key of block `c`
    /// is at most `target` and that of the block after it, if there is one,
    /// is beyond; or `target` is before the first key of block 0 and `c` is
    /// 0. A table without blocks has 0.
    pub open spec fn candidate_block(self, target: Seq<u8>, c: int) -> bool {
        if self.metas.len() == 0 {
            c == 0
        } else {
            &&& 0 <= c < self.metas.len()
            &&& {
                ||| lex_le(self.metas[c].first_key, target) && (c + 1 == self.metas.len()
                    || lex_lt(target, self.metas[c + 1].first_key))
                ||| c == 0 && lex_lt(target, self.metas[0].first_key)
            }
        }
    }
}

/// The table that the bytes of a file spell, if they spell one: the last
/// eight bytes give the start of the index, which lies before them, and
/// from there to them the bytes spell index records.
pub open spec fn opened(bytes: Seq<u8>) -> Option<TableView> {
    if bytes.len() < 8 {
        None
    } else {
        let meta_offset = be64_at(bytes, bytes.len() - 8);
        if meta_offset > bytes.len() - 8 {
            None
        } else {
            match decoded_metas_from(bytes.subrange(meta_offset, bytes.len() - 8), 0) {
                Some(metas) => Some(TableView { bytes, metas, meta_offset }),
                None => None,
            }
        }
    }
}

/// A sorted string table.
pub struct SsTable {
    /// The file of the table.
    file: FileObject,
    /// The index: one record for each data block.
    block_metas: Vec<BlockMeta>,
    /// Where in the file the index starts.
    block_meta_offset: usize,
    /// The identifier that the table was opened or built with.
    id: usize,
}

impl View for SsTable {
    type V = TableView;

    closed spec fn view(&self) -> TableView {
        TableView {
            bytes: self.file@,
            metas: meta_views(self.block_metas@),
            meta_offset: self.block_meta_offset as int,
        }
    }
}

impl SsTable {
    /// The identifier of the table.
    pub closed spec fn sst_id(&self) -> int {
        self.id as int
    }

    /// Open SSTable from a file.
    pub fn open(id: usize, file: FileObject) -> (r: Result<SsTable, StorageError>)
        ensures
            match opened(file@) {
                Some(table) => r is Ok && r.unwrap()@ == table && r.unwrap().sst_id() == id,
                None => r == Err::<SsTable, StorageError>(StorageError::CorruptMeta),
            },
    {
        let total_size: u64 = file.size();
        if total_size < 8 {
            return Err(StorageError::CorruptMeta);
        }
        let trailer: Vec<u8> = match file.read(total_size - 8, 8) {
            Ok(bytes) => bytes,
            Err(_) => { return Err(StorageError::CorruptMeta); },
        };
        proof {
            lemma_be_at_local(trailer@, 0, file@, total_size - 8, 8);
        }
        let block_meta_offset: u64 = read_u64(trailer.as_slice(), 0);
        if block_meta_offset > total_size - 8 {
            return Err(StorageError::CorruptMeta);
        }
        let meta_bytes: Vec<u8> = match file.read(
            block_meta_offset,
            total_size - 8 - block_meta_offset,
        ) {
            Ok(bytes) => bytes,
            Err(_) => { return Err(StorageError::CorruptMeta); },
        };
        let block_metas: Vec<BlockMeta> = match BlockMeta::decode_block_meta(
            meta_bytes.as_slice(),
        ) {
            Ok(metas) => metas,
            Err(e) => { return Err(e); },
        };
        Ok(SsTable { file, block_metas, block_meta_offset: block_meta_offset as usize, id })
    }

    /// The identifier of the table.
    pub fn id(&self) -> (id: usize)
        ensures
            id == self.sst_id(),
    {
        self.id
    }

    /// The file of the table.
    pub fn file(&self) -> (file: &FileObject)
        ensures
            file@ == self@.bytes,
    {
        &self.file
    }

    /// Read a block from the file.
    pub fn read_block(&self, block_idx: usize) -> (r: Result<Arc<Block>, StorageError>)
        ensures
            match self@.block(block_idx as int) {
                Some(l) => r is Ok && r.unwrap()@ == l && r.unwrap().inv(),
                None => r == Err::<Arc<Block>, StorageError>(self@.block_error(block_idx as int)),
            },
    {
        if block_idx >= self.block_metas.len() {
            return Err(StorageError::NoSuchBlock);
        }
        let start_offset: usize = self.block_metas[block_idx].offset;
        let end_offset: usize = if block_idx + 1 < self.block_metas.len() {
            self.block_metas[block_idx + 1].offset
        } else {
            self.block_meta_offset
        };
        if start_offset > end_offset {
            return Err(StorageError::ReadOutOfRange);
        }
        let bytes: Vec<u8> = match self.file.read(
            start_offset as u64,
            (end_offset - start_offset) as u64,
        ) {
            Ok(bytes) => bytes,
            Err(e) => { return Err(e); },
        };
        match Block::decode(bytes.as_slice()) {
            Ok(block) => Ok(Arc::new(block)),
            Err(e) => Err(e),
        }
    }

    /// Read a block with a block cache in front of the file. `cached` is
    /// what the cache holds for this table and block: where it holds a
    /// block, that block is the answer and the file is not read; where it
    /// holds none, the block is read from the file, and is the cache's to
    /// keep.
    pub fn read_block_cached(&self, block_idx: usize, cached: Option<Arc<Block>>) -> (r: Result<
        Arc<Block>,
        StorageError,
    >)
        ensures
            cached matches Some(hit) ==> r == Ok::<Arc<Block>, StorageError>(hit),
            cached is None ==> match self@.block(block_idx as int) {
                Some(l) => r is Ok && r.unwrap()@ == l && r.unwrap().inv(),
                None => r == Err::<Arc<Block>, StorageError>(self@.block_error(block_idx as int)),
            },
    {
        match cached {
            Some(hit) => Ok(hit),
            None => self.read_block(block_idx),
        }
    }

    /// Find the block that may contain `key`: the last one whose first key
    /// is not beyond `key`, where the first keys ascend.
    pub fn find_block_idx(&self, key: &[u8]) -> (idx: usize)
        ensures
            self@.candidate_block(key@, idx as int),
    {
        let n: usize = self.block_metas.len();
        if n == 0 {
            return 0;
        }
        let ghost metas = self@.metas;
        let mut lo: usize = 0;
        let mut hi: usize = n - 1;
        while lo < hi
            invariant
                lo <= hi < n,
                n == self.block_metas@.len(),
                metas == self@.metas,
                metas.len() == n,
                lo == 0 || lex_le(metas[lo as int].first_key, key@),
                hi == n - 1 || lex_lt(key@, metas[hi as int].first_key),
            decreases hi - lo,
        {
            let mid: usize = lo + (hi - lo) / 2;
            let mid_key: &[u8] = bytes_as_slice(&self.block_metas[mid].first_key);
            if !self.compare_bytes(key, mid_key) {
                hi = mid;
            } else {
                let next_key: &[u8] = bytes_as_slice(&self.block_metas[mid + 1].first_key);
                if !self.compare_bytes(key, next_key) {
                    return mid;
                }
                lo = mid + 1;
            }
        }
        let last_key: &[u8] = bytes_as_slice(&self.block_metas[lo].first_key);
        proof {
            crate::key_order::lemma_lex_total(key@, last_key@);
        }
        lo
    }

    /// Get number of data blocks.
    pub fn num_of_blocks(&self) -> (n: usize)
        ensures
            n == self@.metas.len(),
    {
        self.block_metas.len()
    }

    /// Whether `left` sorts at or after `right`.
    fn compare_bytes(&self, left: &[u8], right: &[u8]) -> (at_or_after: bool)
        ensures
            at_or_after == lex_le(right@, left@),
    {
        !key_lt(left, right)
    }
}

} // verus!
