//! The k-way merge as a state machine over plain sequences: what the merge
//! iterator shows, said without the iterator.
//!
//! A state is the entries that each source has yet to show, and which source
//! is the current one. Among sources, the one with the smaller first key
//! comes first; of two with the same first key, the one with the smaller
//! index.

use crate::block::advance;
use crate::block::head_key;
use crate::block::Entry;
use crate::key_order::lemma_lex_total;
use crate::key_order::lemma_lex_transitive;
use crate::key_order::lex_lt;
use vstd::prelude::*;

verus! {

/// Source `i` comes before source `j`: its first key is smaller, or the
/// first keys are the same and `i` is the smaller index.
pub open spec fn comes_before(sources: Seq<Seq<Entry>>, i: int, j: int) -> bool {
    let ki = head_key(sources[i]);
    let kj = head_key(sources[j]);
    lex_lt(ki, kj) || (ki == kj && i < j)
}

/// Of two different sources exactly one comes before the other.
pub proof fn lemma_before_total(sources: Seq<Seq<Entry>>, i: int, j: int)
    ensures
        i != j ==> comes_before(sources, i, j) || comes_before(sources, j, i),
        !(comes_before(sources, i, j) && comes_before(sources, j, i)),
        !comes_before(sources, i, i),
{
    lemma_lex_total(head_key(sources[i]), head_key(sources[j]));
    lemma_lex_total(head_key(sources[i]), head_key(sources[i]));
}

/// `comes_before` is transitive.
pub proof fn lemma_before_transitive(sources: Seq<Seq<Entry>>, i: int, j: int, k: int)
    requires
        comes_before(sources, i, j),
        comes_before(sources, j, k),
    ensures
        comes_before(sources, i, k),
{
    let ki = head_key(sources[i]);
    let kj = head_key(sources[j]);
    let kk = head_key(sources[k]);
    lemma_lex_total(ki, kj);
    lemma_lex_total(kj, kk);
    if lex_lt(ki, kj) && lex_lt(kj, kk) {
        lemma_lex_transitive(ki, kj, kk);
    }
}

/// Where `i` does not come after `j` and `j` not after `k`, `i` does not
/// come after `k`.
pub proof fn lemma_not_after_transitive(sources: Seq<Seq<Entry>>, i: int, j: int, k: int)
    requires
        !comes_before(sources, j, i),
        !comes_before(sources, k, j),
    ensures
        !comes_before(sources, k, i),
{
    lemma_before_total(sources, i, j);
    lemma_before_total(sources, j, k);
    lemma_before_total(sources, i, k);
    if i != j && j != k && comes_before(sources, k, i) {
        lemma_before_transitive(sources, k, i, j);
    }
}

/// The number of entries in all the sources together.
pub open spec fn total_len(sources: Seq<Seq<Entry>>) -> nat
    decreases sources.len(),
{
    if sources.len() == 0 {
        0
    } else {
        total_len(sources.drop_last()) + sources.last().len()
    }
}

/// Replacing one source changes the total by the difference of the lengths.
pub proof fn lemma_total_len_update(sources: Seq<Seq<Entry>>, i: int, entries: Seq<Entry>)
    requires
        0 <= i < sources.len(),
    ensures
        total_len(sources.update(i, entries)) + sources[i].len() == total_len(sources)
            + entries.len(),
    decreases sources.len(),
{
    let updated = sources.update(i, entries);
    if i == sources.len() - 1 {
        assert(updated.drop_last() =~= sources.drop_last());
    } else {
        assert(updated.drop_last() =~= sources.drop_last().update(i, entries));
        lemma_total_len_update(sources.drop_last(), i, entries);
    }
}

/// The entries that the sources of a merge have yet to show, and the source
/// whose first entry the merge shows.
pub struct MergeState {
    pub sources: Seq<Seq<Entry>>,
    pub current: int,
}

impl MergeState {
    /// Source `i` has an entry to show and is not the current one.
    pub open spec fn waiting(self, i: int) -> bool {
        0 <= i < self.sources.len() && i != self.current && self.sources[i].len() > 0
    }

    /// Source `t` waits, and comes before every other that waits.
    pub open spec fn is_first_waiting(self, t: int) -> bool {
        &&& self.waiting(t)
        &&& forall|j: int| #[trigger] self.waiting(j) && j != t ==> comes_before(self.sources, t, j)
    }

    /// The waiting source that comes before the others.
    pub open spec fn first_waiting(self) -> int {
        choose|t: int| self.is_first_waiting(t)
    }

    /// The number of entries in all the sources together.
    pub open spec fn total(self) -> nat {
        total_len(self.sources)
    }

    /// The state after source `i` has moved to its next entry.
    pub open spec fn advanced(self, i: int) -> MergeState {
        MergeState { sources: self.sources.update(i, advance(self.sources[i])), current: self.current }
    }

    /// The state after source `i` has left the merge.
    pub open spec fn dropped(self, i: int) -> MergeState {
        MergeState { sources: self.sources.update(i, Seq::empty()), current: self.current }
    }

    /// `after` is what a move leaves that fails as the waiting sources move
    /// past the current key: the first of them that shows the key was to
    /// move on; either it failed, and has left the merge, or it moved, and
    /// the failure came later in the same way.
    pub open spec fn lost_while_skipping(self, after: MergeState) -> bool
        decreases self.total(),
    {
        let t = self.first_waiting();
        if self.is_first_waiting(t) && head_key(self.sources[t]) == head_key(
            self.sources[self.current],
        ) {
            proof {
                lemma_total_len_update(self.sources, t, advance(self.sources[t]));
            }
            after == self.dropped(t) || self.advanced(t).lost_while_skipping(after)
        } else {
            false
        }
    }

    /// `after` is what a move leaves that fails at the current source: the
    /// waiting sources have moved past the current key and are as that
    /// left them; the current source is what its failure made of it; and
    /// where it has ended, the first of the waiting sources, if there is
    /// one, is the current source now.
    pub open spec fn lost_at_current(self, after: MergeState) -> bool {
        let skipped = self.skip_duplicates();
        let stayed = MergeState { sources: after.sources, current: self.current };
        &&& after.sources.len() == skipped.sources.len()
        &&& forall|i: int|
            0 <= i < after.sources.len() && i != self.current ==> #[trigger] after.sources[i]
                == skipped.sources[i]
        &&& after.current == if after.sources[self.current].len() == 0 && stayed.is_first_waiting(
            stayed.first_waiting(),
        ) {
            stayed.first_waiting()
        } else {
            self.current
        }
    }

    /// The state after the waiting sources have moved past the key of the
    /// current one: as long as the first of them shows that key, it moves
    /// on.
    pub open spec fn skip_duplicates(self) -> MergeState
        decreases self.total(),
    {
        let t = self.first_waiting();
        if self.is_first_waiting(t) && head_key(self.sources[t]) == head_key(
            self.sources[self.current],
        ) {
            proof {
                lemma_total_len_update(self.sources, t, advance(self.sources[t]));
            }
            self.advanced(t).skip_duplicates()
        } else {
            self
        }
    }

    /// The state after the first of the waiting sources has taken the
    /// place of the current source where that has ended or now comes after
    /// it.
    pub open spec fn reselected(self) -> MergeState {
        let t = self.first_waiting();
        if self.is_first_waiting(t) && (self.sources[self.current].len() == 0 || comes_before(
            self.sources,
            t,
            self.current,
        )) {
            MergeState { sources: self.sources, current: t }
        } else {
            self
        }
    }

    /// The state after the first of the waiting sources has taken the
    /// place of the current source where that has ended.
    pub open spec fn given_way(self) -> MergeState {
        let t = self.first_waiting();
        if self.sources[self.current].len() == 0 && self.is_first_waiting(t) {
            MergeState { sources: self.sources, current: t }
        } else {
            self
        }
    }

    /// The state after one move of the merge: the waiting sources skip the
    /// current key, the current source moves on, and the first of the
    /// waiting sources becomes the current one where the current source
    /// has ended or now comes after it.
    pub open spec fn step(self) -> MergeState {
        let moved = self.skip_duplicates().advanced(self.current);
        let t = moved.first_waiting();
        if moved.is_first_waiting(t) && (moved.sources[moved.current].len() == 0 || comes_before(
            moved.sources,
            t,
            moved.current,
        )) {
            MergeState { sources: moved.sources, current: t }
        } else {
            moved
        }
    }

    /// The current source is one of the sources.
    pub open spec fn well_formed(self) -> bool {
        0 <= self.current < self.sources.len()
    }

    /// The current source comes before every source that waits; where it
    /// has ended, none waits.
    pub open spec fn in_order(self) -> bool {
        &&& self.well_formed()
        &&& forall|j: int| #[trigger]
            self.waiting(j) ==> self.sources[self.current].len() > 0 && comes_before(
                self.sources,
                self.current,
                j,
            )
    }

    /// What the merge shows from this state on: the first entry of the
    /// current source, then what it shows after a move. Nothing where the
    /// current source has ended.
    pub open spec fn merged(self) -> Seq<Entry>
        decreases self.total(),
    {
        if self.well_formed() && self.sources[self.current].len() > 0 {
            proof {
                self.lemma_step_shrinks();
            }
            seq![self.sources[self.current][0]] + self.step().merged()
        } else {
            Seq::empty()
        }
    }

    /// Skipping duplicates keeps the current source and the number of
    /// sources, and adds no entry.
    pub proof fn lemma_skip_keeps(self)
        requires
            self.well_formed(),
        ensures
            self.skip_duplicates().current == self.current,
            self.skip_duplicates().sources.len() == self.sources.len(),
            self.skip_duplicates().sources[self.current] == self.sources[self.current],
            self.skip_duplicates().total() <= self.total(),
        decreases self.total(),
    {
        let t = self.first_waiting();
        if self.is_first_waiting(t) && head_key(self.sources[t]) == head_key(
            self.sources[self.current],
        ) {
            lemma_total_len_update(self.sources, t, advance(self.sources[t]));
            self.advanced(t).lemma_skip_keeps();
        }
    }

    /// A move takes at least one entry away, and keeps the state well
    /// formed.
    pub proof fn lemma_step_shrinks(self)
        requires
            self.well_formed(),
            self.sources[self.current].len() > 0,
        ensures
            self.step().total() < self.total(),
            self.step().well_formed(),
            self.step().sources.len() == self.sources.len(),
    {
        self.lemma_skip_keeps();
        let skipped = self.skip_duplicates();
        lemma_total_len_update(skipped.sources, self.current, advance(skipped.sources[self.current]));
    }

    /// At most one source is the first of those waiting.
    pub proof fn lemma_first_waiting_unique(self, t: int)
        requires
            self.is_first_waiting(t),
        ensures
            self.first_waiting() == t,
    {
        let c = self.first_waiting();
        if c != t {
            assert(self.waiting(c));
            assert(self.waiting(t));
            lemma_before_total(self.sources, c, t);
        }
    }
}

} // verus!
