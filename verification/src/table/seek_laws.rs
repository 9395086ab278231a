//! Where a search in a table ends, said of the table as one run of entries:
//! the laws of `seek_lands`, proved for tables whose blocks are sound and
//! whose entries ascend.

use super::TableView;
use crate::block::seek_position;
use crate::block::Entry;
use crate::key_order::lemma_lex_le_transitive;
use crate::key_order::lemma_lex_total;
use crate::key_order::lex_le;
use crate::key_order::lex_lt;
use crate::sorted_run::sorted;
use crate::sorted_run::strictly_sorted;
use vstd::prelude::*;

verus! {

impl TableView {
    /// The first keys of the blocks ascend.
    pub open spec fn first_keys_sorted(self) -> bool {
        forall|i: int, j: int|
            0 <= i < j < self.metas.len() ==> lex_le(
                (#[trigger] self.metas[i]).first_key,
                (#[trigger] self.metas[j]).first_key,
            )
    }

    /// Where the first keys ascend, the block to start a search in is the
    /// last whose first key is not beyond `target`, or block 0 where every
    /// first key is beyond it: the first key of every block after it is
    /// beyond `target`, and, unless all are, that of every block up to it
    /// is not.
    pub proof fn lemma_candidate_is_last(self, target: Seq<u8>, c: int)
        requires
            self.first_keys_sorted(),
            self.metas.len() > 0,
            self.candidate_block(target, c),
        ensures
            forall|j: int|
                c < j < self.metas.len() ==> lex_lt(target, (#[trigger] self.metas[j]).first_key),
            lex_le(self.metas[c].first_key, target) ==> forall|j: int|
                0 <= j <= c ==> lex_le((#[trigger] self.metas[j]).first_key, target),
            !lex_le(self.metas[c].first_key, target) ==> c == 0,
    {
        assert forall|j: int| c < j < self.metas.len() implies lex_lt(
            target,
            (#[trigger] self.metas[j]).first_key,
        ) by {
            if lex_le(self.metas[c].first_key, target) {
                if j > c + 1 {
                    assert(lex_lt(target, self.metas[c + 1].first_key));
                    lemma_lex_total(target, self.metas[c + 1].first_key);
                    assert(lex_le(self.metas[c + 1].first_key, self.metas[j].first_key));
                    lemma_lex_le_transitive(
                        target,
                        self.metas[c + 1].first_key,
                        self.metas[j].first_key,
                    );
                }
            } else {
                assert(lex_le(self.metas[0].first_key, self.metas[j].first_key));
                lemma_lex_total(target, self.metas[0].first_key);
                lemma_lex_le_transitive(target, self.metas[0].first_key, self.metas[j].first_key);
            }
        }
        if lex_le(self.metas[c].first_key, target) {
            assert forall|j: int| 0 <= j <= c implies lex_le(
                (#[trigger] self.metas[j]).first_key,
                target,
            ) by {
                if j < c {
                    assert(lex_le(self.metas[j].first_key, self.metas[c].first_key));
                    lemma_lex_le_transitive(
                        self.metas[j].first_key,
                        self.metas[c].first_key,
                        target,
                    );
                }
            }
        }
    }

    /// The entries of the blocks before block `b`, in order.
    pub open spec fn entries_upto(self, b: int) -> Seq<Entry>
        decreases b,
    {
        if b <= 0 {
            Seq::empty()
        } else {
            self.entries_upto(b - 1) + self.block(b - 1).unwrap().entries()
        }
    }

    /// The entries of a sound table are those before block `b`, then those
    /// from block `b` on.
    pub proof fn lemma_flatten(self, b: int)
        requires
            self.sound(),
            0 <= b <= self.metas.len(),
        ensures
            self.entries_from(0) == self.entries_upto(b) + self.entries_from(b),
        decreases b,
    {
        if b == 0 {
            assert(self.entries_upto(0) + self.entries_from(0) =~= self.entries_from(0));
        } else {
            self.lemma_flatten(b - 1);
            assert(self.block_sound(b - 1));
            let l = self.block(b - 1).unwrap().entries();
            assert(self.entries_from(b - 1) == l + self.entries_from(b));
            assert(self.entries_upto(b - 1) + (l + self.entries_from(b)) =~= (self.entries_upto(
                b - 1,
            ) + l) + self.entries_from(b));
        }
    }

    /// What is pending at an entry of a sound table is a tail of the
    /// table's entries; where those are sorted, so is the tail.
    pub proof fn lemma_pending_is_tail(self, b: int, e: int)
        requires
            self.sound(),
            0 <= b < self.metas.len(),
            0 <= e < self.block(b).unwrap().entries().len(),
        ensures
            0 <= self.entries_upto(b).len() + e <= self.entries_from(0).len(),
            self.entries_at(b, e) == self.entries_from(0).subrange(
                self.entries_upto(b).len() + e,
                self.entries_from(0).len() as int,
            ),
            sorted(self.entries_from(0)) ==> sorted(self.entries_at(b, e)),
    {
        let all = self.entries_from(0);
        let found = self.block(b).unwrap().entries();
        self.lemma_flatten(b);
        assert(self.block_sound(b));
        assert(all == self.entries_upto(b) + (found + self.entries_from(b + 1)));
        let g = self.entries_upto(b).len() + e;
        assert(self.entries_at(b, e) =~= all.subrange(g, all.len() as int));
        if sorted(all) {
            crate::sorted_run::lemma_tail_sorted(all, g);
        }
    }

    /// Where a search for `target` ends in a sound table whose entries
    /// ascend: what is pending from there is a tail of the table's entries;
    /// its first key is not before `target`; and no entry of the table with
    /// a key that is not before `target` has a smaller key. Where nothing
    /// is pending, every key of the table is before `target`.
    pub proof fn lemma_seek_finds_smallest(self, target: Seq<u8>, c: int, b: int, e: int)
        requires
            self.sound(),
            sorted(self.entries_from(0)),
            self.seek_lands(target, c, b, e),
        ensures
            0 <= self.entries_upto(b).len() + e <= self.entries_from(0).len(),
            self.entries_at(b, e) == self.entries_from(0).subrange(
                self.entries_upto(b).len() + e,
                self.entries_from(0).len() as int,
            ),
            self.entries_at(b, e).len() > 0 ==> lex_le(target, self.entries_at(b, e)[0].0),
            forall|i: int|
                0 <= i < self.entries_from(0).len() && lex_le(
                    target,
                    (#[trigger] self.entries_from(0)[i]).0,
                ) ==> self.entries_at(b, e).len() > 0 && lex_le(
                    self.entries_at(b, e)[0].0,
                    self.entries_from(0)[i].0,
                ),
    {
        let all = self.entries_from(0);
        let n = self.metas.len() as int;
        let found = self.block(c).unwrap().entries();
        let before = self.entries_upto(c);
        let off = before.len() as int;
        self.lemma_flatten(c);
        assert(self.block_sound(c));
        assert(self.entries_from(c) == found + self.entries_from(c + 1));
        assert(all == before + (found + self.entries_from(c + 1)));
        assert(self.metas[c].first_key == found[0].0);
        // an entry of an earlier block is not beyond the first key of block c
        assert forall|i: int| 0 <= i < off implies lex_le((#[trigger] all[i]).0, found[0].0) by {
            assert(all[off] == found[0]);
        }
        assert forall|j: int| 0 <= j < found.len() implies all[off + j] == #[trigger] found[j] by {}
        let pending = self.entries_at(b, e);
        let g = self.entries_upto(b).len() + e;
        if b == c {
            if e < found.len() {
                assert(pending == found.subrange(e, found.len() as int) + self.entries_from(c + 1));
                assert(pending =~= all.subrange(g, all.len() as int));
                assert(pending[0] == found[e]);
                assert(all[g] == found[e]);
                assert forall|i: int| 0 <= i < all.len() && lex_le(
                    target,
                    (#[trigger] all[i]).0,
                ) implies lex_le(pending[0].0, all[i].0) by {
                    if i > g {
                        assert(lex_le(all[g].0, all[i].0));
                    } else if i == g {
                        lemma_lex_total(all[g].0, all[g].0);
                    } else if i >= off {
                        assert(all[off + (i - off)] == found[i - off]);
                        assert(lex_lt(found[i - off].0, target));
                    } else {
                        // an earlier block: its key is the target, and so is the first key here
                        lemma_lex_total(target, found[0].0);
                        lemma_lex_le_transitive(target, all[i].0, found[0].0);
                        if e > 0 {
                            assert(lex_lt(found[0].0, target));
                        }
                        lemma_lex_total(target, all[i].0);
                        lemma_lex_total(all[i].0, found[0].0);
                    }
                }
            } else {
                assert(c + 1 >= n);
                assert(self.entries_from(c + 1) =~= Seq::<Entry>::empty());
                assert(pending =~= all.subrange(g, all.len() as int));
                assert(lex_lt(found[0].0, target));
                assert forall|i: int| 0 <= i < all.len() implies !lex_le(
                    target,
                    (#[trigger] all[i]).0,
                ) by {
                    if i >= off {
                        assert(all[off + (i - off)] == found[i - off]);
                        assert(lex_lt(found[i - off].0, target));
                    } else {
                        if lex_le(target, all[i].0) {
                            lemma_lex_le_transitive(target, all[i].0, found[0].0);
                        }
                    }
                }
            }
        } else {
            assert(b == c + 1);
            assert(self.block_sound(c + 1));
            let next = self.block(c + 1).unwrap().entries();
            self.lemma_flatten(c + 1);
            assert(self.entries_upto(c + 1) == before + found);
            assert(next.subrange(0, next.len() as int) =~= next);
            assert(pending == self.entries_from(c + 1));
            assert(pending =~= all.subrange(g, all.len() as int));
            assert(lex_lt(found[0].0, target));
            assert(self.metas[c + 1].first_key == next[0].0);
            lemma_lex_total(target, found[0].0);
            lemma_lex_total(target, next[0].0);
            assert(all[g] == next[0]);
            assert forall|i: int| 0 <= i < all.len() && lex_le(
                target,
                (#[trigger] all[i]).0,
            ) implies lex_le(pending[0].0, all[i].0) by {
                if i > g {
                    assert(lex_le(all[g].0, all[i].0));
                } else if i == g {
                    lemma_lex_total(all[g].0, all[g].0);
                } else if i >= off {
                    assert(all[off + (i - off)] == found[i - off]);
                    assert(lex_lt(found[i - off].0, target));
                } else {
                    lemma_lex_le_transitive(target, all[i].0, found[0].0);
                }
            }
        }
    }

    /// Where a search for `target` ends in a sound table whose entries
    /// ascend strictly: at the first entry whose key is not before
    /// `target`, or past the last entry where there is none.
    pub proof fn lemma_seek_finds_first(self, target: Seq<u8>, c: int, b: int, e: int)
        requires
            self.sound(),
            strictly_sorted(self.entries_from(0)),
            self.seek_lands(target, c, b, e),
        ensures
            seek_position(self.entries_from(0), target, self.entries_upto(b).len() + e),
            self.entries_at(b, e) == self.entries_from(0).subrange(
                self.entries_upto(b).len() + e,
                self.entries_from(0).len() as int,
            ),
    {
        let all = self.entries_from(0);
        let g = self.entries_upto(b).len() + e;
        crate::sorted_run::lemma_strictly_sorted_is_sorted(all);
        self.lemma_seek_finds_smallest(target, c, b, e);
        let pending = self.entries_at(b, e);
        assert forall|j: int| 0 <= j < g implies lex_lt((#[trigger] all[j]).0, target) by {
            if lex_le(target, all[j].0) {
                assert(pending[0] == all[g]);
                assert(lex_lt(all[j].0, all[g].0));
            }
        }
        if g < all.len() {
            assert(pending[0] == all[g]);
        }
    }
}

} // verus!
