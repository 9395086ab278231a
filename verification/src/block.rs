//! The block: a run of key-value entries with an offset table for random
//! access, and its byte layout.
//!
//! ```text
//! | entry 0 | ... | entry N-1 | offset 0 | ... | offset N-1 | N |
//! ```
//!
//! An entry is a two-byte key length, the key, a two-byte value length and the
//! value. Offsets and `N` take two bytes each. All integers are big-endian.

pub mod builder;
pub mod iterator;

use crate::byte_buf::bytes_contents;
use crate::error::StorageError;
use crate::key_order::lex_le;
use crate::key_order::lex_lt;
use bytes::Bytes;
use vstd::prelude::*;
use vstd::slice::slice_subrange;
use vstd::slice::slice_to_vec;

pub use builder::BlockBuilder;
pub use iterator::BlockIterator;

verus! {

/// A key and its value, as the contracts speak of them.
pub type Entry = (Seq<u8>, Seq<u8>);

/// The key of the first entry, or no bytes where there is no entry.
pub open spec fn head_key(entries: Seq<Entry>) -> Seq<u8> {
    if entries.len() > 0 {
        entries[0].0
    } else {
        Seq::empty()
    }
}

/// The value of the first entry, or no bytes where there is no entry.
pub open spec fn head_value(entries: Seq<Entry>) -> Seq<u8> {
    if entries.len() > 0 {
        entries[0].1
    } else {
        Seq::empty()
    }
}

/// The entries after the first; an empty sequence stays empty.
pub open spec fn advance(entries: Seq<Entry>) -> Seq<Entry> {
    if entries.len() > 0 {
        entries.subrange(1, entries.len() as int)
    } else {
        entries
    }
}

/// `idx` is where a search for `target` stops: every entry before it has a
/// smaller key, and the entry at it, if there is one, has not.
pub open spec fn seek_position(entries: Seq<Entry>, target: Seq<u8>, idx: int) -> bool {
    &&& 0 <= idx <= entries.len()
    &&& forall|j: int| 0 <= j < idx ==> lex_lt((#[trigger] entries[j]).0, target)
    &&& idx < entries.len() ==> lex_le(target, entries[idx].0)
}

/// The bytes of one entry: key length, key, value length, value.
pub open spec fn entry_bytes(key: Seq<u8>, value: Seq<u8>) -> Seq<u8> {
    seq![(key.len() / 256) as u8, (key.len() % 256) as u8] + key + seq![
        (value.len() / 256) as u8,
        (value.len() % 256) as u8,
    ] + value
}

/// The number that two bytes spell, most significant byte first.
pub open spec fn be16(hi: u8, lo: u8) -> int {
    hi as int * 256 + lo as int
}

/// What a block holds: the data section and the offset of each entry in it.
pub struct BlockLayout {
    pub data: Seq<u8>,
    pub offsets: Seq<u16>,
}

impl BlockLayout {
    /// The key length that the entry header at `off` announces.
    pub open spec fn key_len_at(self, off: int) -> int {
        be16(self.data[off], self.data[off + 1])
    }

    /// Where the value length of the entry at `off` is written.
    pub open spec fn value_header_at(self, off: int) -> int {
        off + 2 + self.key_len_at(off)
    }

    /// The value length that the entry at `off` announces.
    pub open spec fn value_len_at(self, off: int) -> int {
        be16(self.data[self.value_header_at(off)], self.data[self.value_header_at(off) + 1])
    }

    /// One past the last byte of the entry at `off`.
    pub open spec fn end_at(self, off: int) -> int {
        self.value_header_at(off) + 2 + self.value_len_at(off)
    }

    /// The position that entry `i` must not reach beyond: the next entry's
    /// offset, or the end of the data section for the last entry.
    pub open spec fn limit(self, i: int) -> int {
        if i + 1 < self.offsets.len() {
            self.offsets[i + 1] as int
        } else {
            self.data.len() as int
        }
    }

    /// Entry `i` has both its headers and its payload before its limit.
    pub open spec fn entry_ok(self, i: int) -> bool {
        let off = self.offsets[i] as int;
        &&& off + 2 <= self.limit(i)
        &&& self.value_header_at(off) + 2 <= self.limit(i)
        &&& self.end_at(off) <= self.limit(i)
    }

    /// The entry count fits the two-byte trailer and every offset points to
    /// an entry that ends before the next one starts.
    pub open spec fn well_formed(self) -> bool {
        &&& self.offsets.len() <= 0xFFFF
        &&& forall|i: int| 0 <= i < self.offsets.len() ==> #[trigger] self.entry_ok(i)
    }

    /// The key of entry `i`.
    pub open spec fn key(self, i: int) -> Seq<u8> {
        let off = self.offsets[i] as int;
        self.data.subrange(off + 2, self.value_header_at(off))
    }

    /// The value of entry `i`.
    pub open spec fn value(self, i: int) -> Seq<u8> {
        let off = self.offsets[i] as int;
        self.data.subrange(self.value_header_at(off) + 2, self.end_at(off))
    }

    /// The entries in the order of the offset table.
    pub open spec fn entries(self) -> Seq<Entry> {
        Seq::new(self.offsets.len(), |i: int| (self.key(i), self.value(i)))
    }

    /// The offset table as bytes.
    pub open spec fn offset_bytes(self) -> Seq<u8> {
        Seq::new(
            2 * self.offsets.len(),
            |j: int|
                if j % 2 == 0 {
                    (self.offsets[j / 2] / 256) as u8
                } else {
                    (self.offsets[j / 2] % 256) as u8
                },
        )
    }

    /// The entry count as bytes.
    pub open spec fn count_bytes(self) -> Seq<u8> {
        seq![(self.offsets.len() / 256) as u8, (self.offsets.len() % 256) as u8]
    }

    /// The byte layout of the block.
    pub open spec fn encoded(self) -> Seq<u8> {
        self.data + self.offset_bytes() + self.count_bytes()
    }

    /// The block without entries.
    pub open spec fn empty() -> BlockLayout {
        BlockLayout { data: Seq::empty(), offsets: Seq::empty() }
    }

    /// The block with one more entry at the end of its data section.
    pub open spec fn with_entry(self, key: Seq<u8>, value: Seq<u8>) -> BlockLayout {
        BlockLayout {
            data: self.data + entry_bytes(key, value),
            offsets: self.offsets.push(self.data.len() as u16),
        }
    }

    /// In a well-formed block no entry reaches beyond the data section.
    pub proof fn lemma_limit_in_data(self, i: int)
        requires
            self.well_formed(),
            0 <= i < self.offsets.len(),
        ensures
            self.limit(i) <= self.data.len(),
            self.offsets[i] + 4 <= self.limit(i),
        decreases self.offsets.len() - i,
    {
        assert(self.entry_ok(i));
        if i + 1 < self.offsets.len() {
            self.lemma_limit_in_data(i + 1);
            assert(self.entry_ok(i + 1));
        }
    }

    /// Appending an entry keeps the block well formed and adds the entry
    /// after those it had.
    pub proof fn lemma_with_entry(self, key: Seq<u8>, value: Seq<u8>)
        requires
            self.well_formed(),
            self.data.len() <= 0xFFFF,
            self.offsets.len() < 0xFFFF,
            key.len() <= 0xFFFF,
            value.len() <= 0xFFFF,
        ensures
            self.with_entry(key, value).well_formed(),
            self.with_entry(key, value).entries() == self.entries().push((key, value)),
    {
        let n = self.offsets.len() as int;
        let d = self.data.len() as int;
        let w = self.with_entry(key, value);
        let eb = entry_bytes(key, value);
        let kl = key.len() as int;
        assert(eb.len() == 4 + key.len() + value.len());
        assert(eb[0] == (key.len() / 256) as u8 && eb[1] == (key.len() % 256) as u8);
        assert(eb[2 + kl] == (value.len() / 256) as u8);
        assert(eb[3 + kl] == (value.len() % 256) as u8);
        assert(w.data[d] == eb[0] && w.data[d + 1] == eb[1]);
        assert(w.key_len_at(d) == key.len());
        assert(w.data[d + 2 + kl] == eb[2 + kl]);
        assert(w.data[d + 3 + kl] == eb[3 + kl]);
        assert(w.value_len_at(d) == value.len());
        assert(w.entry_ok(n));
        assert(w.key(n) =~= key);
        assert(w.value(n) =~= value);
        assert forall|i: int| 0 <= i < n implies #[trigger] w.entry_ok(i) && w.key(i) == self.key(i)
            && w.value(i) == self.value(i) by {
            self.lemma_limit_in_data(i);
            assert(self.entry_ok(i));
            let off = self.offsets[i] as int;
            assert(w.offsets[i] == self.offsets[i]);
            assert(w.limit(i) == self.limit(i));
            assert(w.data[off] == self.data[off] && w.data[off + 1] == self.data[off + 1]);
            let vh = self.value_header_at(off);
            assert(w.data[vh] == self.data[vh] && w.data[vh + 1] == self.data[vh + 1]);
            assert(w.key(i) =~= self.key(i));
            assert(w.value(i) =~= self.value(i));
        }
        let pushed = self.entries().push((key, value));
        assert(w.entries().len() == pushed.len());
        assert forall|i: int| 0 <= i < n + 1 implies w.entries()[i] == pushed[i] by {
            if i < n {
                assert(w.entry_ok(i));
            }
        }
        assert(w.entries() =~= pushed);
    }
}

/// The entry count that the last two bytes of a block announce.
pub open spec fn announced_count(bytes: Seq<u8>) -> int {
    be16(bytes[bytes.len() - 2], bytes[bytes.len() - 1])
}

/// The data section and offset table that `bytes` spell, read without any
/// check of the entries.
pub open spec fn split(bytes: Seq<u8>) -> BlockLayout {
    let n = announced_count(bytes);
    let data_len = bytes.len() - 2 - 2 * n;
    BlockLayout {
        data: bytes.subrange(0, data_len),
        offsets: Seq::new(
            n as nat,
            |i: int| be16(bytes[data_len + 2 * i], bytes[data_len + 2 * i + 1]) as u16,
        ),
    }
}

/// The block that `bytes` spell, if they spell one: there is room for the
/// trailer and the offset table that it announces, and the entries are well
/// formed.
pub open spec fn decoded(bytes: Seq<u8>) -> Option<BlockLayout> {
    if bytes.len() >= 2 && bytes.len() >= 2 + 2 * announced_count(bytes) && split(
        bytes,
    ).well_formed() {
        Some(split(bytes))
    } else {
        None
    }
}

/// Decoding the bytes of a well-formed block gives the block back.
pub proof fn lemma_decode_encode(l: BlockLayout)
    requires
        l.well_formed(),
    ensures
        decoded(l.encoded()) == Some(l),
{
    let bytes = l.encoded();
    let n = l.offsets.len() as int;
    assert(bytes.len() == l.data.len() + 2 * n + 2);
    assert(bytes[bytes.len() - 2] == (n / 256) as u8);
    assert(bytes[bytes.len() - 1] == (n % 256) as u8);
    assert(announced_count(bytes) == n);
    let s = split(bytes);
    assert(s.data =~= l.data);
    assert forall|i: int| 0 <= i < n implies s.offsets[i] == l.offsets[i] by {
        let d = l.data.len() as int;
        assert(bytes[d + 2 * i] == l.offset_bytes()[2 * i]);
        assert(bytes[d + 2 * i + 1] == l.offset_bytes()[2 * i + 1]);
        assert((2 * i) / 2 == i && (2 * i) % 2 == 0);
        assert((2 * i + 1) / 2 == i && (2 * i + 1) % 2 == 1);
    }
    assert(s.offsets =~= l.offsets);
    assert(s == l);
}

/// Encoding the block that some bytes spell gives those bytes back.
pub proof fn lemma_encode_decode(bytes: Seq<u8>)
    requires
        decoded(bytes) is Some,
    ensures
        decoded(bytes).unwrap().encoded() == bytes,
{
    let l = split(bytes);
    let n = announced_count(bytes);
    let d = bytes.len() - 2 - 2 * n;
    let e = l.encoded();
    assert(e.len() == bytes.len());
    assert forall|j: int| 0 <= j < bytes.len() implies e[j] == bytes[j] by {
        if j < d {
        } else if j < d + 2 * n {
            let k = j - d;
            let i = k / 2;
            assert(e[j] == l.offset_bytes()[k]);
            let hi = bytes[d + 2 * i];
            let lo = bytes[d + 2 * i + 1];
            assert(be16(hi, lo) / 256 == hi as int && be16(hi, lo) % 256 == lo as int);
            if k % 2 == 0 {
                assert(j == d + 2 * i);
            } else {
                assert(j == d + 2 * i + 1);
            }
        } else {
            let hi = bytes[bytes.len() - 2];
            let lo = bytes[bytes.len() - 1];
            assert(be16(hi, lo) / 256 == hi as int && be16(hi, lo) % 256 == lo as int);
            assert(e[j] == l.count_bytes()[j - d - 2 * n]);
        }
    }
    assert(e =~= bytes);
}

/// A run of key-value entries with an offset table: the unit of reading and
/// caching.
pub struct Block {
    data: Vec<u8>,
    offsets: Vec<u16>,
}

impl View for Block {
    type V = BlockLayout;

    closed spec fn view(&self) -> BlockLayout {
        BlockLayout { data: self.data@, offsets: self.offsets@ }
    }
}

/// Reads the two-byte number at `pos`.
pub(crate) fn read_u16(data: &[u8], pos: usize) -> (v: usize)
    requires
        pos + 2 <= data@.len(),
    ensures
        v == be16(data@[pos as int], data@[pos + 1]),
{
    let hi: usize = data[pos] as usize;
    let lo: usize = data[pos + 1] as usize;
    hi * 256 + lo
}

impl Block {
    /// Every block that exists is well formed.
    pub open spec fn inv(&self) -> bool {
        self@.well_formed()
    }

    /// The byte layout of the block.
    pub fn encode(&self) -> (bytes: Bytes)
        requires
            self.inv(),
        ensures
            bytes_contents(bytes) == self@.encoded(),
    {
        let mut encoded: Vec<u8> = Vec::new();
        let mut i: usize = 0;
        while i < self.data.len()
            invariant
                i <= self.data@.len(),
                encoded@ == self.data@.subrange(0, i as int),
            decreases self.data@.len() - i,
        {
            encoded.push(self.data[i]);
            i += 1;
        }
        assert(encoded@ == self.data@);
        let ghost l = self@;
        let mut i: usize = 0;
        while i < self.offsets.len()
            invariant
                l == self@,
                i <= self.offsets@.len(),
                encoded@ == self.data@ + l.offset_bytes().subrange(0, 2 * i),
            decreases self.offsets@.len() - i,
        {
            let off: u16 = self.offsets[i];
            encoded.push((off / 256) as u8);
            encoded.push((off % 256) as u8);
            proof {
                let ob = l.offset_bytes();
                assert((2 * i) / 2 == i && (2 * i) % 2 == 0);
                assert((2 * i + 1) / 2 == i && (2 * i + 1) % 2 == 1);
                assert(ob.subrange(0, 2 * (i + 1)) =~= ob.subrange(0, 2 * i).push(ob[2 * i]).push(
                    ob[2 * i + 1],
                ));
            }
            i += 1;
        }
        let n: usize = self.offsets.len();
        encoded.push((n / 256) as u8);
        encoded.push((n % 256) as u8);
        proof {
            let ob = l.offset_bytes();
            assert(ob.subrange(0, 2 * n) =~= ob);
            assert(encoded@ =~= l.encoded());
        }
        Bytes::copy_from_slice(encoded.as_slice())
    }

    /// Reads a block from its byte layout. Bytes that spell no block are
    /// refused.
    pub fn decode(data: &[u8]) -> (r: Result<Block, StorageError>)
        ensures
            match decoded(data@) {
                Some(l) => r is Ok && r.unwrap()@ == l && r.unwrap().inv(),
                None => r == Err::<Block, StorageError>(StorageError::CorruptBlock),
            },
    {
        let len: usize = data.len();
        if len < 2 {
            return Err(StorageError::CorruptBlock);
        }
        let num: usize = read_u16(data, len - 2);
        if len - 2 < 2 * num {
            return Err(StorageError::CorruptBlock);
        }
        let data_end: usize = len - 2 - 2 * num;
        let ghost l = split(data@);
        let decoded_data: Vec<u8> = slice_to_vec(slice_subrange(data, 0, data_end));
        let mut decoded_offsets: Vec<u16> = Vec::new();
        let mut i: usize = 0;
        while i < num
            invariant
                i <= num,
                num == l.offsets.len(),
                len == data@.len(),
                data_end + 2 * num + 2 == len,
                l == split(data@),
                num == announced_count(data@),
                decoded_offsets@ == l.offsets.subrange(0, i as int),
            decreases num - i,
        {
            let offset: usize = read_u16(data, data_end + 2 * i);
            decoded_offsets.push(offset as u16);
            assert(decoded_offsets@ =~= l.offsets.subrange(0, i + 1));
            i += 1;
        }
        assert(decoded_offsets@ =~= l.offsets);
        assert(decoded_data@ == l.data);
        // Checked from the last entry to the first, so that each limit is
        // known to lie inside the data section before it is used.
        let mut i: usize = num;
        let mut limit: usize = data_end;
        while i > 0
            invariant
                i <= num,
                num == l.offsets.len(),
                num <= 0xFFFF,
                len == data@.len(),
                len >= 2 + 2 * num,
                l == split(data@),
                num == announced_count(data@),
                decoded_offsets@ == l.offsets,
                decoded_data@ == l.data,
                data_end == l.data.len(),
                limit <= data_end,
                i > 0 ==> limit == l.limit(i - 1),
                forall|j: int| i <= j < num ==> #[trigger] l.entry_ok(j),
            decreases i,
        {
            let off: usize = decoded_offsets[i - 1] as usize;
            if off + 2 > limit {
                assert(!l.entry_ok(i - 1));
                return Err(StorageError::CorruptBlock);
            }
            let key_len: usize = read_u16(decoded_data.as_slice(), off);
            let value_header: usize = off + 2 + key_len;
            if value_header + 2 > limit {
                assert(!l.entry_ok(i - 1));
                return Err(StorageError::CorruptBlock);
            }
            let value_len: usize = read_u16(decoded_data.as_slice(), value_header);
            if value_header + 2 + value_len > limit {
                assert(!l.entry_ok(i - 1));
                return Err(StorageError::CorruptBlock);
            }
            assert(l.entry_ok(i - 1));
            limit = off;
            i -= 1;
        }
        Ok(Block { data: decoded_data, offsets: decoded_offsets })
    }
}

} // verus!
