//! What the k-way merge shows of sources that ascend: the laws of the state
//! machine, proved for every state that is in order.

use super::merge_state::comes_before;
use super::merge_state::lemma_before_total;
use super::merge_state::lemma_before_transitive;
use super::merge_state::lemma_total_len_update;
use super::merge_state::MergeState;
use crate::block::advance;
use crate::block::head_key;
use crate::block::Entry;
use crate::key_order::lemma_lex_total;
use crate::key_order::lemma_lex_transitive;
use crate::key_order::lex_lt;
use crate::key_order::lex_le;
use crate::sorted_run::has_key;
use crate::sorted_run::lemma_advance_keeps_sorted;
use crate::sorted_run::lemma_cons_sorted;
use crate::sorted_run::sorted;
use crate::sorted_run::lemma_advance_members;
use crate::sorted_run::lemma_advance_sorted;
use crate::sorted_run::lemma_keys_beyond_bound;
use crate::sorted_run::lemma_keys_beyond_head;
use crate::sorted_run::strictly_sorted;
use vstd::prelude::*;

verus! {

/// Every source ascends strictly.
pub open spec fn all_strictly_sorted(sources: Seq<Seq<Entry>>) -> bool {
    forall|i: int| 0 <= i < sources.len() ==> strictly_sorted(#[trigger] sources[i])
}

/// Every source is sorted.
pub open spec fn all_sorted(sources: Seq<Seq<Entry>>) -> bool {
    forall|i: int| 0 <= i < sources.len() ==> sorted(#[trigger] sources[i])
}

/// Some source has the key `key`.
pub open spec fn any_has_key(sources: Seq<Seq<Entry>>, key: Seq<u8>) -> bool {
    exists|i: int| 0 <= i < sources.len() && has_key(#[trigger] sources[i], key)
}

/// `entry` is an entry of source `i`, and no source with a smaller index
/// has its key.
pub open spec fn is_lowest_with(sources: Seq<Seq<Entry>>, entry: Entry, i: int) -> bool {
    &&& 0 <= i < sources.len()
    &&& sources[i].contains(entry)
    &&& forall|j: int| 0 <= j < i ==> !has_key(#[trigger] sources[j], entry.0)
}

/// `entry` comes from the source with the smallest index among those that
/// have its key.
pub open spec fn from_lowest(sources: Seq<Seq<Entry>>, entry: Entry) -> bool {
    exists|i: int| #[trigger] is_lowest_with(sources, entry, i)
}

/// The sources after each that shows `key` has moved past it.
pub open spec fn without_head_key(sources: Seq<Seq<Entry>>, key: Seq<u8>) -> Seq<Seq<Entry>> {
    Seq::new(
        sources.len(),
        |i: int|
            if sources[i].len() > 0 && sources[i][0].0 == key {
                advance(sources[i])
            } else {
                sources[i]
            },
    )
}

impl MergeState {
    /// Among the sources below `n` that wait, one comes before the others.
    proof fn lemma_first_below(self, n: int) -> (t: int)
        requires
            0 <= n <= self.sources.len(),
            exists|j: int| 0 <= j < n && self.waiting(j),
        ensures
            0 <= t < n,
            self.waiting(t),
            forall|j: int|
                0 <= j < n && #[trigger] self.waiting(j) && j != t ==> comes_before(
                    self.sources,
                    t,
                    j,
                ),
        decreases n,
    {
        let last = n - 1;
        if exists|j: int| 0 <= j < last && self.waiting(j) {
            let b = self.lemma_first_below(last);
            if self.waiting(last) && comes_before(self.sources, last, b) {
                assert forall|j: int| 0 <= j < n && #[trigger] self.waiting(j) && j
                    != last implies comes_before(self.sources, last, j) by {
                    if j != b {
                        lemma_before_transitive(self.sources, last, b, j);
                    }
                }
                last
            } else {
                lemma_before_total(self.sources, last, b);
                b
            }
        } else {
            let w = choose|j: int| 0 <= j < n && self.waiting(j);
            assert(w == last);
            last
        }
    }

    /// Where a source waits, one of those that wait is the first.
    pub proof fn lemma_first_waiting_exists(self)
        requires
            exists|j: int| self.waiting(j),
        ensures
            self.is_first_waiting(self.first_waiting()),
    {
        let w = choose|j: int| self.waiting(j);
        let t = self.lemma_first_below(self.sources.len() as int);
        assert(self.is_first_waiting(t));
    }

    /// Skipping duplicates keeps a state in order and its sources sorted.
    pub proof fn lemma_skip_keeps_order(self)
        requires
            self.in_order(),
            all_sorted(self.sources),
            self.sources[self.current].len() > 0,
        ensures
            self.skip_duplicates().in_order(),
            all_sorted(self.skip_duplicates().sources),
            self.skip_duplicates().current == self.current,
            self.skip_duplicates().sources.len() == self.sources.len(),
            self.skip_duplicates().sources[self.current] == self.sources[self.current],
        decreases self.total(),
    {
        let k = self.sources[self.current][0].0;
        let cur = self.current;
        let t = self.first_waiting();
        if self.is_first_waiting(t) && head_key(self.sources[t]) == k {
            let next = self.advanced(t);
            lemma_total_len_update(self.sources, t, advance(self.sources[t]));
            lemma_advance_keeps_sorted(self.sources[t]);
            assert(all_sorted(next.sources)) by {
                assert forall|i: int| 0 <= i < next.sources.len() implies sorted(
                    #[trigger] next.sources[i],
                ) by {
                    assert(sorted(self.sources[i]));
                }
            }
            assert(comes_before(self.sources, cur, t));
            lemma_lex_total(k, k);
            assert forall|j: int| #[trigger] next.waiting(j) implies next.sources[cur].len() > 0
                && comes_before(next.sources, cur, j) by {
                if j == t {
                    lemma_lex_total(k, advance(self.sources[t])[0].0);
                } else {
                    assert(self.waiting(j));
                }
            }
            next.lemma_skip_keeps_order();
        }
    }

    /// A move keeps a state in order and its sources sorted, and what it
    /// shows next has a key that is not before the one it showed.
    pub proof fn lemma_step_keeps_order(self)
        requires
            self.in_order(),
            all_sorted(self.sources),
            self.sources[self.current].len() > 0,
        ensures
            self.step().in_order(),
            all_sorted(self.step().sources),
            self.step().sources[self.step().current].len() > 0 ==> lex_le(
                self.sources[self.current][0].0,
                self.step().sources[self.step().current][0].0,
            ),
    {
        let k = self.sources[self.current][0].0;
        let cur = self.current;
        self.lemma_skip_keeps_order();
        let skipped = self.skip_duplicates();
        let moved = skipped.advanced(cur);
        lemma_advance_keeps_sorted(skipped.sources[cur]);
        assert(all_sorted(moved.sources)) by {
            assert forall|i: int| 0 <= i < moved.sources.len() implies sorted(
                #[trigger] moved.sources[i],
            ) by {
                assert(sorted(skipped.sources[i]));
            }
        }
        let t = moved.first_waiting();
        if moved.is_first_waiting(t) {
            assert(skipped.waiting(t));
            assert(comes_before(skipped.sources, cur, t));
            lemma_lex_total(k, moved.sources[t][0].0);
            if moved.sources[cur].len() == 0 || comes_before(moved.sources, t, cur) {
                let result = MergeState { sources: moved.sources, current: t };
                assert(self.step() == result);
                assert forall|j: int| #[trigger] result.waiting(j) implies result.sources[t].len() > 0
                    && comes_before(result.sources, t, j) by {
                    if j != cur {
                        assert(moved.waiting(j));
                    }
                }
            } else {
                assert(self.step() == moved);
                lemma_before_total(moved.sources, t, cur);
                assert forall|j: int| #[trigger] moved.waiting(j) implies moved.sources[cur].len() > 0
                    && comes_before(moved.sources, cur, j) by {
                    if j != t {
                        lemma_before_transitive(moved.sources, cur, t, j);
                    }
                }
            }
        } else {
            assert(self.step() == moved);
            assert forall|j: int| !moved.waiting(j) by {
                if moved.waiting(j) {
                    moved.lemma_first_waiting_exists();
                }
            }
        }
    }

    /// What the merge shows of sorted sources, from a state that is in
    /// order, is sorted, whether or not a key comes twice in a source.
    pub proof fn lemma_merged_sorted(self)
        requires
            self.in_order(),
            all_sorted(self.sources),
        ensures
            sorted(self.merged()),
        decreases self.total(),
    {
        if self.sources[self.current].len() > 0 {
            let head = self.sources[self.current][0];
            let next = self.step();
            self.lemma_step_shrinks();
            self.lemma_step_keeps_order();
            next.lemma_merged_sorted();
            let rest = next.merged();
            if rest.len() > 0 {
                assert(rest[0] == next.sources[next.current][0]);
            }
            lemma_cons_sorted(head, rest);
        }
    }

    /// In a state that is in order, with sources that ascend, skipping
    /// duplicates moves each waiting source that shows the current key
    /// past it, and changes nothing else.
    pub proof fn lemma_skip_in_order(self)
        requires
            self.in_order(),
            all_strictly_sorted(self.sources),
            self.sources[self.current].len() > 0,
        ensures
            self.skip_duplicates().current == self.current,
            self.skip_duplicates().sources.len() == self.sources.len(),
            forall|i: int|
                0 <= i < self.sources.len() ==> #[trigger] self.skip_duplicates().sources[i] == (if i
                    != self.current && self.sources[i].len() > 0 && self.sources[i][0].0
                    == self.sources[self.current][0].0 {
                    advance(self.sources[i])
                } else {
                    self.sources[i]
                }),
        decreases self.total(),
    {
        let k = self.sources[self.current][0].0;
        let cur = self.current;
        let t = self.first_waiting();
        if exists|j: int| self.waiting(j) {
            self.lemma_first_waiting_exists();
            assert(self.waiting(t));
            assert(comes_before(self.sources, cur, t));
            let kt = self.sources[t][0].0;
            lemma_lex_total(k, kt);
            if kt == k {
                let next = self.advanced(t);
                lemma_total_len_update(self.sources, t, advance(self.sources[t]));
                lemma_advance_sorted(self.sources[t]);
                assert(all_strictly_sorted(next.sources)) by {
                    assert forall|i: int| 0 <= i < next.sources.len() implies strictly_sorted(
                        #[trigger] next.sources[i],
                    ) by {
                        assert(strictly_sorted(self.sources[i]));
                    }
                }
                assert(next.in_order()) by {
                    assert forall|j: int| #[trigger] next.waiting(j) implies next.sources[next.current].len()
                        > 0 && comes_before(next.sources, next.current, j) by {
                        if j == t {
                            let moved = advance(self.sources[t]);
                            assert(has_key(moved, moved[0].0));
                            lemma_keys_beyond_head(self.sources[t], moved[0].0);
                        } else {
                            assert(self.waiting(j));
                        }
                    }
                }
                next.lemma_skip_in_order();
                assert(self.skip_duplicates() == next.skip_duplicates());
                assert forall|i: int| 0 <= i < self.sources.len() implies #[trigger] self.skip_duplicates().sources[i]
                    == (if i != cur && self.sources[i].len() > 0 && self.sources[i][0].0 == k {
                    advance(self.sources[i])
                } else {
                    self.sources[i]
                }) by {
                    if i == t {
                        let moved = advance(self.sources[t]);
                        if moved.len() > 0 {
                            assert(has_key(moved, moved[0].0));
                            lemma_keys_beyond_head(self.sources[t], moved[0].0);
                            lemma_lex_total(k, moved[0].0);
                        }
                    }
                }
            } else {
                assert forall|i: int| 0 <= i < self.sources.len() && i != cur && self.sources[i].len()
                    > 0 implies self.sources[i][0].0 != k by {
                    assert(self.waiting(i));
                    if i != t {
                        assert(comes_before(self.sources, t, i));
                        let ki = self.sources[i][0].0;
                        lemma_lex_total(k, ki);
                        lemma_lex_total(kt, ki);
                        if lex_lt(kt, ki) {
                            lemma_lex_transitive(k, kt, ki);
                        }
                    }
                }
            }
        } else {
            assert forall|i: int| 0 <= i < self.sources.len() && i != cur implies self.sources[i].len()
                == 0 by {
                if self.sources[i].len() > 0 {
                    assert(self.waiting(i));
                }
            }
        }
    }

    /// A move keeps a state in order and its sources ascending, and takes
    /// the current key away from every source that shows it.
    pub proof fn lemma_step_in_order(self)
        requires
            self.in_order(),
            all_strictly_sorted(self.sources),
            self.sources[self.current].len() > 0,
        ensures
            self.step().in_order(),
            all_strictly_sorted(self.step().sources),
            self.step().sources == without_head_key(
                self.sources,
                self.sources[self.current][0].0,
            ),
            forall|i: int, x: Seq<u8>|
                0 <= i < self.sources.len() && #[trigger] has_key(self.step().sources[i], x) ==> lex_lt(
                    self.sources[self.current][0].0,
                    x,
                ),
    {
        let k = self.sources[self.current][0].0;
        let cur = self.current;
        let n = self.sources.len() as int;
        self.lemma_skip_in_order();
        let skipped = self.skip_duplicates();
        let moved = skipped.advanced(cur);
        let target = without_head_key(self.sources, k);
        assert(moved.sources =~= target);
        assert(self.step().sources == moved.sources);
        assert forall|i: int| 0 <= i < n implies strictly_sorted(#[trigger] moved.sources[i]) by {
            assert(strictly_sorted(self.sources[i]));
            lemma_advance_sorted(self.sources[i]);
        }
        // every key that is left is beyond the current key
        assert forall|i: int, x: Seq<u8>| 0 <= i < n && #[trigger] has_key(
            moved.sources[i],
            x,
        ) implies lex_lt(k, x) by {
            assert(strictly_sorted(self.sources[i]));
            if self.sources[i].len() > 0 && self.sources[i][0].0 == k {
                lemma_keys_beyond_head(self.sources[i], x);
            } else {
                let w = choose|w: int| 0 <= w < moved.sources[i].len() && (#[trigger] moved.sources[i][w]).0
                    == x;
                assert(self.waiting(i));
                assert(comes_before(self.sources, cur, i));
                lemma_lex_total(k, self.sources[i][0].0);
                lemma_keys_beyond_bound(self.sources[i], k, x);
            }
        }
        let t = moved.first_waiting();
        if exists|j: int| moved.waiting(j) {
            moved.lemma_first_waiting_exists();
            if moved.sources[cur].len() == 0 || comes_before(moved.sources, t, cur) {
                let result = MergeState { sources: moved.sources, current: t };
                assert(self.step() == result);
                assert forall|j: int| #[trigger] result.waiting(j) implies result.sources[t].len() > 0
                    && comes_before(result.sources, t, j) by {
                    if j != cur {
                        assert(moved.waiting(j));
                    }
                }
            } else {
                assert(self.step() == moved);
                lemma_before_total(moved.sources, t, cur);
                assert forall|j: int| #[trigger] moved.waiting(j) implies moved.sources[cur].len() > 0
                    && comes_before(moved.sources, cur, j) by {
                    if j != t {
                        lemma_before_transitive(moved.sources, cur, t, j);
                    }
                }
            }
        } else {
            assert(!moved.waiting(t));
            assert(self.step() == moved);
        }
    }

    /// What the merge shows of sources that ascend, from a state that is in
    /// order: its keys ascend, so none comes twice; it has every key that a
    /// source has, and no other; and each entry is that of the source with
    /// the smallest index among those that have the key.
    pub proof fn lemma_merged(self)
        requires
            self.in_order(),
            all_strictly_sorted(self.sources),
        ensures
            strictly_sorted(self.merged()),
            forall|k: Seq<u8>|
                #![trigger has_key(self.merged(), k)]
                #![trigger any_has_key(self.sources, k)]
                has_key(self.merged(), k) <==> any_has_key(self.sources, k),
            forall|i: int|
                0 <= i < self.merged().len() ==> from_lowest(self.sources, #[trigger] self.merged()[i]),
        decreases self.total(),
    {
        let out = self.merged();
        let cur = self.current;
        let n = self.sources.len() as int;
        if self.sources[cur].len() == 0 {
            assert forall|k: Seq<u8>| !any_has_key(self.sources, k) by {
                if any_has_key(self.sources, k) {
                    let i = choose|i: int| 0 <= i < n && has_key(#[trigger] self.sources[i], k);
                    assert(self.sources[i].len() > 0);
                    assert(self.waiting(i));
                }
            }
        } else {
            let head = self.sources[cur][0];
            let k = head.0;
            let next = self.step();
            let rest = next.merged();
            self.lemma_step_shrinks();
            self.lemma_step_in_order();
            next.lemma_merged();
            assert(out == seq![head] + rest);
            assert(advance(out) =~= rest);
            // a source keeps its keys but the current key, and gains no entry
            assert forall|i: int, x: Seq<u8>|
                #![trigger has_key(self.sources[i], x)]
                #![trigger has_key(next.sources[i], x)]
                0 <= i < n implies (has_key(self.sources[i], x) <==> (self.sources[i].len() > 0
                && self.sources[i][0].0 == k && x == k) || has_key(next.sources[i], x)) by {
                if self.sources[i].len() > 0 && self.sources[i][0].0 == k {
                    lemma_advance_members(self.sources[i], x, head);
                    if has_key(next.sources[i], x) && x == k {
                        assert(lex_lt(k, x));
                        lemma_lex_total(k, x);
                    }
                }
            }
            assert forall|i: int, e: Entry| 0 <= i < n && #[trigger] next.sources[i].contains(
                e,
            ) implies self.sources[i].contains(e) by {
                if self.sources[i].len() > 0 && self.sources[i][0].0 == k {
                    lemma_advance_members(self.sources[i], e.0, e);
                }
            }
            assert(has_key(self.sources[cur], k));
            // every key of the rest is beyond the key that is shown
            assert forall|x: Seq<u8>| has_key(rest, x) implies lex_lt(k, x) by {
                assert(any_has_key(next.sources, x));
                let i = choose|i: int| 0 <= i < n && has_key(#[trigger] next.sources[i], x);
            }
            assert forall|i: int, j: int| 0 <= i < j < out.len() implies lex_lt(
                (#[trigger] out[i]).0,
                (#[trigger] out[j]).0,
            ) by {
                assert(out[j] == rest[j - 1]);
                assert(has_key(rest, rest[j - 1].0));
                if i > 0 {
                    assert(out[i] == rest[i - 1]);
                }
            }
            assert forall|x: Seq<u8>|
                #![trigger has_key(out, x)]
                #![trigger any_has_key(self.sources, x)]
                has_key(out, x) <==> any_has_key(self.sources, x) by {
                lemma_advance_members(out, x, head);
                if any_has_key(self.sources, x) {
                    let i = choose|i: int| 0 <= i < n && has_key(#[trigger] self.sources[i], x);
                    if x != k {
                        assert(has_key(next.sources[i], x));
                        assert(any_has_key(next.sources, x));
                    }
                }
                if has_key(rest, x) {
                    assert(any_has_key(next.sources, x));
                    let i = choose|i: int| 0 <= i < n && has_key(#[trigger] next.sources[i], x);
                    assert(has_key(self.sources[i], x));
                }
            }
            assert forall|i: int| 0 <= i < out.len() implies from_lowest(
                self.sources,
                #[trigger] out[i],
            ) by {
                if i == 0 {
                    assert(self.sources[cur].contains(head));
                    assert forall|j: int| 0 <= j < cur implies !has_key(
                        #[trigger] self.sources[j],
                        k,
                    ) by {
                        if has_key(self.sources[j], k) {
                            assert(self.waiting(j));
                            assert(comes_before(self.sources, cur, j));
                            assert(strictly_sorted(self.sources[j]));
                            lemma_keys_beyond_bound(self.sources[j], k, k);
                            lemma_lex_total(k, k);
                        }
                    }
                    assert(is_lowest_with(self.sources, head, cur));
                } else {
                    let e = rest[i - 1];
                    assert(out[i] == e);
                    assert(from_lowest(next.sources, e));
                    let w = choose|w: int| #[trigger] is_lowest_with(next.sources, e, w);
                    assert(next.sources[w].contains(e));
                    let q = choose|q: int| 0 <= q < next.sources[w].len() && next.sources[w][q] == e;
                    assert(has_key(next.sources[w], e.0));
                    assert(lex_lt(k, e.0));
                    lemma_lex_total(k, e.0);
                    assert forall|j: int| 0 <= j < w implies !has_key(
                        #[trigger] self.sources[j],
                        e.0,
                    ) by {
                        assert(!has_key(next.sources[j], e.0));
                    }
                    assert(is_lowest_with(self.sources, e, w));
                }
            }
        }
    }
}

} // verus!
