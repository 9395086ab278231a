//! The k-way merge of iterators of one type. Where several sources show the
//! same key, the one with the smallest index is shown and the others move
//! past that key.

use super::merge_state::comes_before;
use super::merge_state::lemma_before_total;
use super::merge_state::lemma_total_len_update;
use super::merge_state::MergeState;
use super::source_heap::all_inv;
use super::source_heap::all_never_fail;
use super::source_heap::ordered_except;
use super::source_heap::holds;
use super::source_heap::in_range;
use super::source_heap::lemma_root_is_first;
use super::source_heap::less;
use super::source_heap::ordered;
use super::source_heap::pendings;
use super::source_heap::pop_root;
use super::source_heap::sift_down;
use super::source_heap::sift_up;
use super::StorageIterator;
use crate::block::advance;
use crate::block::Entry;
use crate::error::StorageError;
use crate::key_order::key_eq;
use vstd::prelude::*;

verus! {

/// The state of a merge whose heap holds `heap` and whose current source is
/// `current`: a source that is neither in the heap nor the current one has
/// left the merge and counts as ended.
pub open spec fn merge_view(pending: Seq<Seq<Entry>>, heap: Seq<usize>, current: int) -> MergeState {
    MergeState {
        sources: Seq::new(
            pending.len(),
            |i: int|
                if i == current || holds(heap, i) {
                    pending[i]
                } else {
                    Seq::empty()
                },
        ),
        current,
    }
}

/// The current source is one of the sources, and the heap holds sources
/// that have an entry to show, none of them twice and none the current one.
pub open spec fn heap_sound(pending: Seq<Seq<Entry>>, heap: Seq<usize>, current: int) -> bool {
    &&& 0 <= current < pending.len()
    &&& in_range(heap, pending.len() as int)
    &&& heap.no_duplicates()
    &&& forall|p: int|
        0 <= p < heap.len() ==> (#[trigger] heap[p]) != current && pending[heap[p] as int].len() > 0
}

/// The sources that wait are those in the heap.
pub proof fn lemma_waiting_is_in_heap(
    pending: Seq<Seq<Entry>>,
    heap: Seq<usize>,
    current: int,
    j: int,
)
    requires
        heap_sound(pending, heap, current),
    ensures
        merge_view(pending, heap, current).waiting(j) <==> 0 <= j < pending.len() && holds(
            heap,
            j,
        ),
        0 <= j < pending.len() && holds(heap, j) ==> merge_view(
            pending,
            heap,
            current,
        ).sources[j] == pending[j],
{
    if 0 <= j < pending.len() && holds(heap, j) {
        let p = choose|p: int| 0 <= p < heap.len() && (#[trigger] heap[p]) == j;
        assert(heap[p] != current && pending[heap[p] as int].len() > 0);
    }
}

/// In an ordered heap the source in the first slot is the first of those
/// that wait; with an empty heap none waits.
pub proof fn lemma_heap_top(pending: Seq<Seq<Entry>>, heap: Seq<usize>, current: int)
    requires
        heap_sound(pending, heap, current),
        ordered(pending, heap),
    ensures
        heap.len() > 0 ==> merge_view(pending, heap, current).is_first_waiting(heap[0] as int)
            && merge_view(pending, heap, current).first_waiting() == heap[0],
        heap.len() == 0 ==> forall|t: int| !merge_view(pending, heap, current).is_first_waiting(t),
{
    let s = merge_view(pending, heap, current);
    if heap.len() > 0 {
        let top = heap[0] as int;
        assert(holds(heap, heap[0] as int));
        lemma_waiting_is_in_heap(pending, heap, current, top);
        assert forall|j: int| #[trigger] s.waiting(j) && j != top implies comes_before(
            s.sources,
            top,
            j,
        ) by {
            lemma_waiting_is_in_heap(pending, heap, current, j);
            let p = choose|p: int| 0 <= p < heap.len() && (#[trigger] heap[p]) == j;
            lemma_root_is_first(pending, heap, p);
            lemma_before_total(pending, top, j);
        }
        s.lemma_first_waiting_unique(top);
    } else {
        assert forall|t: int| !s.is_first_waiting(t) by {
            lemma_waiting_is_in_heap(pending, heap, current, t);
        }
    }
}

/// Merge multiple iterators of the same type. If the same key occurs multiple times in some
/// iterators, prefer the one with smaller index.
pub struct MergeIterator<I: StorageIterator> {
    /// The sources, each at the index that ranks it.
    iters: Vec<Box<I>>,
    /// The sources that wait, as a heap of their indices.
    heap: Vec<usize>,
    /// The index of the source whose entry is shown.
    current: usize,
}

impl<I: StorageIterator> MergeIterator<I> {
    /// The merge as a state over plain sequences.
    pub closed spec fn state(&self) -> MergeState {
        merge_view(pendings(self.iters@), self.heap@, self.current as int)
    }

    /// Merges the iterators. At least one of them has to be valid. The
    /// merge starts in order: at the source that comes first.
    pub fn create(iters: Vec<Box<I>>) -> (it: MergeIterator<I>)
        requires
            all_inv(iters@),
            exists|i: int| 0 <= i < iters@.len() && (#[trigger] iters@[i]).pending().len() > 0,
        ensures
            it.inv(),
            it.state().sources == pendings(iters@),
            it.state().in_order(),
            it.state().sources[it.state().current].len() > 0,
            it.never_fails() == all_never_fail(iters@),
    {
        let ghost pending = pendings(iters@);
        let mut heap: Vec<usize> = Vec::new();
        let mut idx: usize = 0;
        while idx < iters.len()
            invariant
                idx <= iters@.len(),
                all_inv(iters@),
                pending == pendings(iters@),
                in_range(heap@, iters@.len() as int),
                heap@.no_duplicates(),
                ordered(pending, heap@),
                forall|p: int|
                    0 <= p < heap@.len() ==> (#[trigger] heap@[p]) < idx && pending[heap@[p] as int].len()
                        > 0,
                forall|i: int|
                    0 <= i < idx && (#[trigger] pending[i]).len() > 0 ==> holds(heap@, i),
            decreases iters@.len() - idx,
        {
            if iters[idx].is_valid() {
                let ghost before = heap@;
                heap.push(idx);
                proof {
                    let h = heap@;
                    assert(h.no_duplicates());
                    assert forall|c: int| 1 <= c < h.len() - 1 implies !comes_before(
                        pending,
                        (#[trigger] h[c]) as int,
                        h[super::source_heap::parent(c)] as int,
                    ) by {
                        assert(!comes_before(
                            pending,
                            before[c] as int,
                            before[super::source_heap::parent(c)] as int,
                        ));
                    }
                    assert forall|x: int| holds(before, x) implies holds(h, x) by {
                        let p = choose|p: int| 0 <= p < before.len() && (#[trigger] before[p]) == x;
                        assert(h[p] == x);
                    }
                    assert(h[h.len() - 1] == idx);
                }
                let ghost pushed = heap@;
                sift_up(&iters, &mut heap);
                proof {
                    let h = heap@;
                    assert forall|p: int| 0 <= p < h.len() implies (#[trigger] h[p]) < idx + 1
                        && pending[h[p] as int].len() > 0 by {
                        assert(holds(h, h[p] as int));
                        assert(holds(pushed, h[p] as int));
                        let q = choose|q: int| 0 <= q < pushed.len() && (#[trigger] pushed[q]) == h[p];
                        if q < before.len() {
                            assert(before[q] == pushed[q]);
                        }
                    }
                    assert forall|i: int| 0 <= i < idx + 1 && (#[trigger] pending[i]).len()
                        > 0 implies holds(h, i) by {
                        assert(holds(pushed, i));
                    }
                }
            }
            idx += 1;
        }
        proof {
            let w = choose|i: int| 0 <= i < iters@.len() && (#[trigger] iters@[i]).pending().len() > 0;
            assert(pending[w].len() > 0);
            assert(holds(heap@, w as int));
        }
        let ghost full = heap@;
        let current: usize = pop_root(&iters, &mut heap);
        let it = MergeIterator { iters, heap, current };
        proof {
            let h = it.heap@;
            assert(holds(full, current as int));
            assert forall|p: int| 0 <= p < h.len() implies (#[trigger] h[p]) != current && pending[h[p] as int].len()
                > 0 by {
                assert(holds(h, h[p] as int));
                assert(holds(full, h[p] as int));
                let q = choose|q: int| 0 <= q < full.len() && (#[trigger] full[q]) == h[p];
            }
            assert(heap_sound(pending, h, current as int));
            let s = it.state();
            assert(s.sources =~= pending) by {
                assert forall|i: int| 0 <= i < pending.len() implies s.sources[i] == pending[i] by {
                    if !(i == current || holds(h, i)) {
                        if pending[i].len() > 0 {
                            assert(holds(full, i));
                        }
                        assert(pending[i] =~= Seq::<Entry>::empty());
                    }
                }
            }
            assert forall|j: int| #[trigger] s.waiting(j) implies comes_before(
                s.sources,
                s.current,
                j,
            ) by {
                lemma_waiting_is_in_heap(pending, h, current as int, j);
                assert(holds(full, j));
                let q = choose|q: int| 0 <= q < full.len() && (#[trigger] full[q]) == j;
                lemma_root_is_first(pending, full, q);
                lemma_before_total(pending, current as int, j);
            }
        }
        it
    }
}

impl<I: StorageIterator> StorageIterator for MergeIterator<I> {
    /// Every source is sound, the heap is sound and in order, and where
    /// the current source has ended no source waits.
    closed spec fn inv(&self) -> bool {
        let pending = pendings(self.iters@);
        &&& all_inv(self.iters@)
        &&& heap_sound(pending, self.heap@, self.current as int)
        &&& ordered(pending, self.heap@)
        &&& pending[self.current as int].len() == 0 ==> self.heap@.len() == 0
    }

    /// What the merge shows from its state on.
    open spec fn pending(&self) -> Seq<Entry> {
        self.state().merged()
    }

    /// No source ever fails.
    closed spec fn never_fails(&self) -> bool {
        all_never_fail(self.iters@)
    }

    fn value(&self) -> (v: &[u8]) {
        self.iters[self.current].value()
    }

    fn key(&self) -> (k: &[u8]) {
        self.iters[self.current].key()
    }

    fn is_valid(&self) -> (valid: bool) {
        self.iters[self.current].is_valid()
    }

    /// Moves the merge by one step. Where a source fails, its failure is
    /// handed back: a waiting source that fails leaves the merge, and so
    /// does the current source where it fails and has ended.
    fn next(&mut self) -> (r: Result<(), StorageError>)
        ensures
            r is Ok ==> final(self).state() == old(self).state().step(),
            r is Err ==> old(self).state().lost_while_skipping(final(self).state())
                || old(self).state().lost_at_current(final(self).state()),
    {
        let cur: usize = self.current;
        let ghost entry = self.state();
        let ghost n = self.iters@.len();
        loop
            invariant
                self.inv(),
                self.current == cur,
                self.iters@.len() == n,
                self.state().skip_duplicates() == entry.skip_duplicates(),
                entry == old(self).state(),
                old(self).never_fails() ==> self.never_fails(),
                forall|f: MergeState| #[trigger]
                    self.state().lost_while_skipping(f) ==> entry.lost_while_skipping(f),
            ensures
                self.inv(),
                self.current == cur,
                self.iters@.len() == n,
                self.state() == entry.skip_duplicates(),
                old(self).never_fails() ==> self.never_fails(),
            decreases self.state().total(),
        {
            proof {
                lemma_heap_top(pendings(self.iters@), self.heap@, cur as int);
            }
            if self.heap.len() == 0 {
                break ;
            }
            let t: usize = self.heap[0];
            if !key_eq(self.iters[t].key(), self.iters[cur].key()) {
                break ;
            }
            let ghost before = self.state();
            let ghost pend_before = pendings(self.iters@);
            let ghost never = self.never_fails();
            let moved = self.iters[t].next();
            proof {
                let pend = pendings(self.iters@);
                assert forall|i: int| 0 <= i < n && i != t implies pend[i] == pend_before[i] by {}
                assert forall|c: int|
                    1 <= c < self.heap@.len() && super::source_heap::parent(c) != 0 implies !comes_before(
                    pend,
                    (#[trigger] self.heap@[c]) as int,
                    self.heap@[super::source_heap::parent(c)] as int,
                ) by {
                    assert(self.heap@[c] != t);
                    assert(self.heap@[super::source_heap::parent(c)] != t);
                    assert(!comes_before(
                        pend_before,
                        self.heap@[c] as int,
                        self.heap@[super::source_heap::parent(c)] as int,
                    ));
                }
                assert forall|p: int| 0 <= p < self.heap@.len() implies (#[trigger] self.heap@[p])
                    != cur && (p > 0 ==> pend[self.heap@[p] as int].len() > 0) by {
                    if p > 0 {
                        assert(self.heap@[p] != self.heap@[0]);
                        assert(pend_before[self.heap@[p] as int].len() > 0);
                    }
                }
                assert(holds(self.heap@, t as int));
                let called = self.state();
                assert(called.dropped(t as int).sources =~= before.dropped(t as int).sources);
                if moved is Ok {
                    assert(called.sources =~= before.advanced(t as int).sources);
                }
                if never {
                    assert(self.never_fails());
                }
            }
            match self.after_waiting_moved(moved) {
                Err(e) => {
                    proof {
                        assert(before.lost_while_skipping(self.state()));
                        assert(entry.lost_while_skipping(self.state()));
                    }
                    return Err(e);
                },
                Ok(_) => {},
            }
            proof {
                let after = self.state();
                assert(after == before.advanced(t as int));
                lemma_total_len_update(before.sources, t as int, advance(before.sources[t as int]));
                assert forall|f: MergeState| #[trigger]
                    after.lost_while_skipping(f) implies entry.lost_while_skipping(f) by {
                    assert(before.lost_while_skipping(f));
                }
            }
        }
        let ghost skipped = self.state();
        let ghost pend_before = pendings(self.iters@);
        let ghost never = self.never_fails();
        let moved = self.iters[cur].next();
        proof {
            let pend = pendings(self.iters@);
            assert forall|i: int| 0 <= i < n && i != cur implies pend[i] == pend_before[i] by {}
            assert forall|c: int| 1 <= c < self.heap@.len() implies !comes_before(
                pend,
                (#[trigger] self.heap@[c]) as int,
                self.heap@[super::source_heap::parent(c)] as int,
            ) by {
                assert(self.heap@[c] != cur);
                assert(self.heap@[super::source_heap::parent(c)] != cur);
                assert(!comes_before(
                    pend_before,
                    self.heap@[c] as int,
                    self.heap@[super::source_heap::parent(c)] as int,
                ));
            }
            assert(heap_sound(pend, self.heap@, cur as int));
            entry.lemma_skip_keeps();
            let called = self.state();
            assert forall|i: int| 0 <= i < n && i != cur implies #[trigger] called.sources[i]
                == skipped.sources[i] by {}
            if moved is Ok {
                assert(called.sources =~= skipped.advanced(cur as int).sources);
                assert(called == entry.skip_duplicates().advanced(entry.current));
            }
            if never {
                assert(self.never_fails());
            }
        }
        let ghost called = self.state();
        let r = self.after_current_moved(moved);
        proof {
            if r is Err {
                let after = self.state();
                let stayed = MergeState { sources: after.sources, current: cur as int };
                assert(stayed == called);
                assert(entry.lost_at_current(after));
            }
        }
        r
    }
}

impl<I: StorageIterator> MergeIterator<I> {
    /// The source in the first slot of the heap.
    spec fn top(&self) -> int {
        self.heap@[0] as int
    }

    /// The merge as it is right after the source in the first slot of the
    /// heap was asked to move: that source may have ended, and may have
    /// lost its place in the heap order; all else is as `inv` says.
    spec fn waiting_moved(&self) -> bool {
        let pending = pendings(self.iters@);
        &&& all_inv(self.iters@)
        &&& self.current < self.iters@.len()
        &&& pending[self.current as int].len() > 0
        &&& in_range(self.heap@, self.iters@.len() as int)
        &&& self.heap@.no_duplicates()
        &&& self.heap@.len() > 0
        &&& forall|p: int|
            0 <= p < self.heap@.len() ==> (#[trigger] self.heap@[p]) != self.current && (p > 0
                ==> pending[self.heap@[p] as int].len() > 0)
        &&& ordered_except(pending, self.heap@, 0)
    }

    /// The merge as it is right after the current source was asked to
    /// move: that source may have ended while others wait; all else is as
    /// `inv` says.
    spec fn current_moved(&self) -> bool {
        let pending = pendings(self.iters@);
        &&& all_inv(self.iters@)
        &&& heap_sound(pending, self.heap@, self.current as int)
        &&& ordered(pending, self.heap@)
    }

    /// What the merge does once the first waiting source has been asked to
    /// move past the current key, given how that went. A source that
    /// failed leaves the merge, and its failure is handed back. A source
    /// that moved and has ended leaves the heap; one that moved and shows
    /// an entry finds its place in the heap again. Either way the merge
    /// shows what it showed.
    fn after_waiting_moved(&mut self, moved: Result<(), StorageError>) -> (r: Result<
        (),
        StorageError,
    >)
        requires
            old(self).waiting_moved(),
        ensures
            final(self).inv(),
            final(self).never_fails() == old(self).never_fails(),
            moved matches Err(e) ==> r == Err::<(), StorageError>(e),
            moved is Err ==> final(self).state() == old(self).state().dropped(old(self).top()),
            moved is Ok ==> r is Ok && final(self).state() == old(self).state(),
    {
        let ghost pend = pendings(self.iters@);
        let ghost h0 = self.heap@;
        let ghost cur = self.current as int;
        let ghost n = self.iters@.len() as int;
        let t: usize = self.heap[0];
        let failed: bool = match moved {
            Ok(_) => false,
            Err(_) => true,
        };
        let leaves: bool = failed || !self.iters[t].is_valid();
        if leaves {
            let _ = pop_root(&self.iters, &mut self.heap);
        } else {
            sift_down(&self.iters, &mut self.heap);
        }
        proof {
            let h = self.heap@;
            assert(holds(h0, t as int));
            assert forall|p: int| 0 <= p < h.len() implies (#[trigger] h[p]) != cur && pend[h[p] as int].len()
                > 0 by {
                assert(holds(h, h[p] as int));
                assert(holds(h0, h[p] as int));
                let q = choose|q: int| 0 <= q < h0.len() && (#[trigger] h0[q]) == h[p];
                assert(h0[q] != cur);
                if q > 0 {
                    assert(pend[h0[q] as int].len() > 0);
                }
            }
            let before = old(self).state();
            let after = self.state();
            if failed {
                assert(after.sources =~= before.dropped(t as int).sources) by {
                    assert forall|i: int| 0 <= i < n implies after.sources[i] == before.dropped(
                        t as int,
                    ).sources[i] by {
                        if i != t {
                            assert(holds(h, i) <==> holds(h0, i));
                        }
                    }
                }
            } else {
                assert(after.sources =~= before.sources) by {
                    assert forall|i: int| 0 <= i < n implies after.sources[i]
                        == before.sources[i] by {
                        if i == t {
                            if !holds(h, t as int) {
                                assert(pend[i] =~= Seq::<Entry>::empty());
                            }
                        } else {
                            assert(holds(h, i) <==> holds(h0, i));
                        }
                    }
                }
            }
        }
        moved
    }

    /// What the merge does once the current source has been asked to move,
    /// given how that went. Where the source failed, its failure is handed
    /// back, and the first waiting source takes its place if it has ended.
    /// Where it moved, the first waiting source takes its place if it has
    /// ended or now comes after that one.
    fn after_current_moved(&mut self, moved: Result<(), StorageError>) -> (r: Result<
        (),
        StorageError,
    >)
        requires
            old(self).current_moved(),
        ensures
            final(self).inv(),
            final(self).never_fails() == old(self).never_fails(),
            moved matches Err(e) ==> r == Err::<(), StorageError>(e),
            moved is Err ==> final(self).state() == old(self).state().given_way(),
            moved is Ok ==> r is Ok && final(self).state() == old(self).state().reselected(),
    {
        let cur: usize = self.current;
        let ghost n = self.iters@.len();
        let ghost pend = pendings(self.iters@);
        proof {
            lemma_heap_top(pend, self.heap@, cur as int);
        }
        if !self.iters[cur].is_valid() {
            if self.heap.len() > 0 {
                self.replace_current();
            }
            return moved;
        }
        match moved {
            Err(e) => { return Err(e); },
            Ok(_) => {},
        }
        if self.heap.len() > 0 {
            let t: usize = self.heap[0];
            if less(&self.iters, t, cur) {
                let ghost h0 = self.heap@;
                self.heap[0] = cur;
                self.current = t;
                proof {
                    let h1 = self.heap@;
                    assert forall|p: int| 0 <= p < h1.len() implies (#[trigger] h1[p]) < n && h1[p] != t
                        && pend[h1[p] as int].len() > 0 by {
                        if p != 0 {
                            assert(h0[p] != h0[0]);
                            assert(h0[p] != cur && pend[h0[p] as int].len() > 0);
                        }
                    }
                    assert(h1.no_duplicates()) by {
                        assert forall|p: int, q: int|
                            0 <= p < h1.len() && 0 <= q < h1.len() && p != q implies h1[p] != h1[q] by {
                            if p != 0 {
                                assert(h0[p] != cur);
                            }
                            if q != 0 {
                                assert(h0[q] != cur);
                            }
                        }
                    }
                    assert forall|c: int|
                        1 <= c < h1.len() && super::source_heap::parent(c) != 0 implies !comes_before(
                        pend,
                        (#[trigger] h1[c]) as int,
                        h1[super::source_heap::parent(c)] as int,
                    ) by {
                        assert(!comes_before(
                            pend,
                            h0[c] as int,
                            h0[super::source_heap::parent(c)] as int,
                        ));
                    }
                }
                let ghost h1 = self.heap@;
                sift_down(&self.iters, &mut self.heap);
                proof {
                    let h2 = self.heap@;
                    assert forall|p: int| 0 <= p < h2.len() implies (#[trigger] h2[p]) != t && pend[h2[p] as int].len()
                        > 0 by {
                        assert(holds(h2, h2[p] as int));
                        assert(holds(h1, h2[p] as int));
                        let q = choose|q: int| 0 <= q < h1.len() && (#[trigger] h1[q]) == h2[p];
                    }
                    let after = self.state();
                    let moved_state = merge_view(pend, h0, cur as int);
                    assert(after.sources =~= moved_state.sources) by {
                        assert forall|i: int| 0 <= i < n implies after.sources[i]
                            == moved_state.sources[i] by {
                            assert(holds(h2, i) <==> holds(h1, i));
                            if holds(h1, i) {
                                let q = choose|q: int| 0 <= q < h1.len() && (#[trigger] h1[q]) == i;
                                if q != 0 {
                                    assert(h0[q] == i);
                                }
                            }
                            if holds(h0, i) {
                                let q = choose|q: int| 0 <= q < h0.len() && (#[trigger] h0[q]) == i;
                                if q != 0 {
                                    assert(h1[q] == i);
                                }
                            }
                            assert(h1[0] == cur);
                            assert(h0[0] == t);
                        }
                    }
                }
            }
        }
        Ok(())
    }

    /// The first of the waiting sources takes the place of the current
    /// source, which has ended.
    fn replace_current(&mut self)
        requires
            all_inv(old(self).iters@),
            heap_sound(pendings(old(self).iters@), old(self).heap@, old(self).current as int),
            ordered(pendings(old(self).iters@), old(self).heap@),
            old(self).heap@.len() > 0,
            pendings(old(self).iters@)[old(self).current as int].len() == 0,
        ensures
            final(self).inv(),
            final(self).iters@ == old(self).iters@,
            final(self).current == old(self).heap@[0],
            final(self).state().sources == old(self).state().sources,
    {
        let ghost pend = pendings(self.iters@);
        let ghost h0 = self.heap@;
        let ghost cur = self.current as int;
        let t: usize = pop_root(&self.iters, &mut self.heap);
        self.current = t;
        proof {
            let h = self.heap@;
            assert(holds(h0, t as int));
            assert forall|p: int| 0 <= p < h.len() implies (#[trigger] h[p]) != t && pend[h[p] as int].len()
                > 0 by {
                assert(holds(h, h[p] as int));
                assert(holds(h0, h[p] as int));
                let q = choose|q: int| 0 <= q < h0.len() && (#[trigger] h0[q]) == h[p];
            }
            assert(h0[0] != cur && pend[h0[0] as int].len() > 0);
            let after = self.state();
            let before = old(self).state();
            assert(after.sources =~= before.sources) by {
                assert forall|i: int| 0 <= i < pend.len() implies after.sources[i]
                    == before.sources[i] by {
                    if i == cur {
                        assert(pend[i] =~= Seq::<Entry>::empty());
                    }
                }
            }
        }
    }
}

} // verus!
