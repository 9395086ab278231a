//! Reading back what was written: the index records, and the table as a
//! whole.

use super::decoded_metas_from;
use super::meta_bytes;
use super::metas_bytes;
use super::opened;
use super::MetaRecord;
use super::TableView;
use crate::wire::be64_at;
use crate::wire::be64_bytes;
use crate::wire::lemma_be64_round_trip;
use crate::wire::lemma_be_at_local;
use vstd::prelude::*;

verus! {

/// The offset of every record fits `usize`, and the length of every first
/// key fits eight bytes.
pub open spec fn encodable(metas: Seq<MetaRecord>) -> bool {
    forall|i: int|
        0 <= i < metas.len() ==> 0 <= (#[trigger] metas[i]).offset <= usize::MAX
            && metas[i].first_key.len() <= u64::MAX
}

/// The bytes of a run of records are those of the first, then those of the
/// rest.
pub proof fn lemma_metas_bytes_front(metas: Seq<MetaRecord>)
    requires
        metas.len() > 0,
    ensures
        metas_bytes(metas) == meta_bytes(metas[0]) + metas_bytes(
            metas.subrange(1, metas.len() as int),
        ),
    decreases metas.len(),
{
    let rest = metas.subrange(1, metas.len() as int);
    if metas.len() == 1 {
        assert(metas.drop_last() =~= Seq::<MetaRecord>::empty());
        assert(rest =~= Seq::<MetaRecord>::empty());
        assert(metas_bytes(metas) =~= meta_bytes(metas[0]) + metas_bytes(rest));
    } else {
        let front = metas.drop_last();
        lemma_metas_bytes_front(front);
        assert(front.subrange(1, front.len() as int) =~= rest.drop_last());
        assert(rest.last() == metas.last());
        assert(front[0] == metas[0]);
        assert((meta_bytes(metas[0]) + metas_bytes(rest.drop_last())) + meta_bytes(metas.last())
            =~= meta_bytes(metas[0]) + (metas_bytes(rest.drop_last()) + meta_bytes(metas.last())));
    }
}

/// Where the bytes from `pos` on are those of a run of records, decoding
/// from `pos` gives the records.
pub proof fn lemma_decode_metas_at(bytes: Seq<u8>, pos: int, metas: Seq<MetaRecord>)
    requires
        encodable(metas),
        0 <= pos <= bytes.len(),
        bytes.subrange(pos, bytes.len() as int) == metas_bytes(metas),
    ensures
        decoded_metas_from(bytes, pos) == Some(metas),
    decreases metas.len(),
{
    let tail = bytes.subrange(pos, bytes.len() as int);
    if metas.len() == 0 {
        assert(tail.len() == 0);
    } else {
        let first = metas[0];
        let rest = metas.subrange(1, metas.len() as int);
        lemma_metas_bytes_front(metas);
        let kl = first.first_key.len() as int;
        let head = meta_bytes(first);
        lemma_be64_round_trip(first.offset);
        lemma_be64_round_trip(kl);
        assert(head.len() == 16 + kl);
        assert(tail.len() == head.len() + metas_bytes(rest).len());
        assert forall|j: int| 0 <= j < 16 + kl implies bytes[pos + j] == head[j] by {
            assert(tail[j] == bytes[pos + j]);
        }
        assert(be64_at(bytes, pos) == first.offset) by {
            assert forall|j: int| pos <= j < pos + 8 implies #[trigger] bytes[j] == be64_bytes(
                first.offset,
            )[j - pos + 0] by {
                assert(bytes[pos + (j - pos)] == head[j - pos]);
            }
            lemma_be_at_local(bytes, pos, be64_bytes(first.offset), 0, 8);
        }
        assert(be64_at(bytes, pos + 8) == kl) by {
            assert forall|j: int| pos + 8 <= j < pos + 16 implies #[trigger] bytes[j] == be64_bytes(
                kl,
            )[j - (pos + 8) + 0] by {
                assert(bytes[pos + (j - pos)] == head[j - pos]);
            }
            lemma_be_at_local(bytes, pos + 8, be64_bytes(kl), 0, 8);
        }
        assert(bytes.subrange(pos + 16, pos + 16 + kl) =~= first.first_key) by {
            assert forall|j: int| 0 <= j < kl implies bytes[pos + 16 + j] == first.first_key[j] by {
                assert(bytes[pos + (16 + j)] == head[16 + j]);
            }
        }
        let next = pos + 16 + kl;
        assert(bytes.subrange(next, bytes.len() as int) =~= metas_bytes(rest)) by {
            assert forall|j: int| 0 <= j < metas_bytes(rest).len() implies bytes[next + j]
                == metas_bytes(rest)[j] by {
                assert(tail[16 + kl + j] == bytes[pos + (16 + kl + j)]);
            }
        }
        assert(encodable(rest)) by {
            assert forall|i: int| 0 <= i < rest.len() implies 0 <= (#[trigger] rest[i]).offset
                <= usize::MAX && rest[i].first_key.len() <= u64::MAX by {
                assert(rest[i] == metas[i + 1]);
            }
        }
        lemma_decode_metas_at(bytes, next, rest);
        assert(seq![first] + rest =~= metas);
    }
}

/// Decoding the bytes of a run of records gives the records back.
pub proof fn lemma_decode_encoded_metas(metas: Seq<MetaRecord>)
    requires
        encodable(metas),
    ensures
        decoded_metas_from(metas_bytes(metas), 0) == Some(metas),
{
    let bytes = metas_bytes(metas);
    assert(bytes.subrange(0, bytes.len() as int) =~= bytes);
    lemma_decode_metas_at(bytes, 0, metas);
}

impl TableView {
    /// The file is the blocks, then the index records, then the offset of
    /// the index.
    pub open spec fn laid_out(self) -> bool {
        &&& 0 <= self.meta_offset <= self.bytes.len()
        &&& self.meta_offset <= u64::MAX
        &&& self.bytes == self.bytes.subrange(0, self.meta_offset) + metas_bytes(self.metas)
            + be64_bytes(self.meta_offset)
    }

    /// A file that is laid out as a table opens as that table.
    pub proof fn lemma_opens_as_laid_out(self)
        requires
            self.laid_out(),
            encodable(self.metas),
        ensures
            opened(self.bytes) == Some(self),
    {
        let blocks = self.bytes.subrange(0, self.meta_offset);
        let index = metas_bytes(self.metas);
        let trailer = be64_bytes(self.meta_offset);
        let len = self.bytes.len() as int;
        lemma_be64_round_trip(self.meta_offset);
        assert(len == self.meta_offset + index.len() + 8);
        assert forall|j: int| len - 8 <= j < len implies #[trigger] self.bytes[j] == trailer[j - (len
            - 8) + 0] by {
            assert(self.bytes[j] == (blocks + index + trailer)[j]);
        }
        lemma_be_at_local(self.bytes, len - 8, trailer, 0, 8);
        assert(self.bytes.subrange(self.meta_offset, len - 8) =~= index) by {
            assert forall|j: int| 0 <= j < index.len() implies self.bytes[self.meta_offset + j]
                == index[j] by {
                assert(self.bytes[self.meta_offset + j] == (blocks + index + trailer)[self.meta_offset
                    + j]);
            }
        }
        lemma_decode_encoded_metas(self.metas);
    }

    /// In a sound table the first keys are short enough to be written.
    pub proof fn lemma_sound_first_keys(self, i: int)
        requires
            self.sound(),
            0 <= i < self.metas.len(),
        ensures
            self.metas[i].first_key.len() <= 0xFFFF,
    {
        assert(self.block_sound(i));
        let l = self.block(i).unwrap();
        assert(l.entry_ok(0));
        l.lemma_limit_in_data(0);
    }
}

} // verus!
