//! A binary min-heap of source indices, ordered by the first key that each
//! source shows and then by the index. The heap holds indices only: the
//! sources stay where they are.

use super::merge_state::comes_before;
use super::merge_state::lemma_before_total;
use super::merge_state::lemma_not_after_transitive;
use super::StorageIterator;
use crate::block::Entry;
use crate::key_order::key_lt;
use crate::key_order::lemma_lex_total;
use vstd::prelude::*;

verus! {

/// What each of the iterators has yet to show.
pub open spec fn pendings<I: StorageIterator>(iters: Seq<Box<I>>) -> Seq<Seq<Entry>> {
    Seq::new(iters.len(), |i: int| iters[i].pending())
}

/// Every iterator is sound.
pub open spec fn all_inv<I: StorageIterator>(iters: Seq<Box<I>>) -> bool {
    forall|i: int| 0 <= i < iters.len() ==> (#[trigger] iters[i]).inv()
}

/// No iterator ever fails.
pub open spec fn all_never_fail<I: StorageIterator>(iters: Seq<Box<I>>) -> bool {
    forall|i: int| 0 <= i < iters.len() ==> (#[trigger] iters[i]).never_fails()
}

/// The slot above slot `p`.
pub open spec fn parent(p: int) -> int {
    (p - 1) / 2
}

/// Every slot holds an index below `n`.
pub open spec fn in_range(heap: Seq<usize>, n: int) -> bool {
    forall|p: int| 0 <= p < heap.len() ==> (#[trigger] heap[p]) < n
}

/// No slot holds a source that comes before the source in the slot above
/// it, save where the slot above is `hole`.
pub open spec fn ordered_except(sources: Seq<Seq<Entry>>, heap: Seq<usize>, hole: int) -> bool {
    forall|c: int|
        1 <= c < heap.len() && parent(c) != hole ==> !comes_before(
            sources,
            (#[trigger] heap[c]) as int,
            heap[parent(c)] as int,
        )
}

/// The heap order holds in every slot.
pub open spec fn ordered(sources: Seq<Seq<Entry>>, heap: Seq<usize>) -> bool {
    ordered_except(sources, heap, -1)
}

/// Some slot of the heap holds the index `i`.
pub open spec fn holds(heap: Seq<usize>, i: int) -> bool {
    exists|p: int| 0 <= p < heap.len() && (#[trigger] heap[p]) == i
}

/// The two heaps hold the same indices.
pub open spec fn same_members(a: Seq<usize>, b: Seq<usize>) -> bool {
    &&& a.len() == b.len()
    &&& forall|i: int| #![trigger holds(a, i)] #![trigger holds(b, i)] holds(a, i) <==> holds(b, i)
}

/// In an ordered heap no source comes before the one in the first slot.
pub proof fn lemma_root_is_first(sources: Seq<Seq<Entry>>, heap: Seq<usize>, p: int)
    requires
        ordered(sources, heap),
        0 <= p < heap.len(),
    ensures
        !comes_before(sources, heap[p] as int, heap[0] as int),
    decreases p,
{
    if p == 0 {
        lemma_before_total(sources, heap[0] as int, heap[0] as int);
    } else {
        lemma_root_is_first(sources, heap, parent(p));
        assert(!comes_before(sources, heap[p] as int, heap[parent(p)] as int));
        lemma_not_after_transitive(
            sources,
            heap[0] as int,
            heap[parent(p)] as int,
            heap[p] as int,
        );
    }
}

/// Whether source `i` comes before source `j`.
pub(crate) fn less<I: StorageIterator>(iters: &Vec<Box<I>>, i: usize, j: usize) -> (r: bool)
    requires
        i < iters@.len(),
        j < iters@.len(),
        all_inv(iters@),
    ensures
        r == comes_before(pendings(iters@), i as int, j as int),
{
    let ki: &[u8] = iters[i].key();
    let kj: &[u8] = iters[j].key();
    proof {
        lemma_lex_total(ki@, kj@);
    }
    if key_lt(ki, kj) {
        true
    } else if key_lt(kj, ki) {
        false
    } else {
        i < j
    }
}

/// Exchanges what two slots hold.
fn swap_slots(heap: &mut Vec<usize>, p: usize, q: usize)
    requires
        p < old(heap)@.len(),
        q < old(heap)@.len(),
        old(heap)@.no_duplicates(),
    ensures
        final(heap)@ == old(heap)@.update(p as int, old(heap)@[q as int]).update(
            q as int,
            old(heap)@[p as int],
        ),
        final(heap)@.no_duplicates(),
        same_members(old(heap)@, final(heap)@),
{
    let a: usize = heap[p];
    let b: usize = heap[q];
    heap[p] = b;
    heap[q] = a;
    proof {
        let before = old(heap)@;
        let after = heap@;
        assert forall|x: int| holds(before, x) <==> holds(after, x) by {
            if holds(before, x) {
                let i = choose|i: int| 0 <= i < before.len() && (#[trigger] before[i]) == x;
                let k = if i == p as int {
                    q as int
                } else if i == q as int {
                    p as int
                } else {
                    i
                };
                assert(after[k] == x);
            }
            if holds(after, x) {
                let i = choose|i: int| 0 <= i < after.len() && (#[trigger] after[i]) == x;
                let k = if i == p as int {
                    q as int
                } else if i == q as int {
                    p as int
                } else {
                    i
                };
                assert(before[k] == x);
            }
        }
    }
}

/// Restores the heap order where only the first slot may break it: what it
/// holds sinks until nothing below it comes before it.
pub(crate) fn sift_down<I: StorageIterator>(iters: &Vec<Box<I>>, heap: &mut Vec<usize>)
    requires
        all_inv(iters@),
        in_range(old(heap)@, iters@.len() as int),
        old(heap)@.no_duplicates(),
        old(heap)@.len() > 0,
        ordered_except(pendings(iters@), old(heap)@, 0),
    ensures
        ordered(pendings(iters@), final(heap)@),
        in_range(final(heap)@, iters@.len() as int),
        final(heap)@.no_duplicates(),
        same_members(old(heap)@, final(heap)@),
{
    let ghost sources = pendings(iters@);
    let n: usize = heap.len();
    let mut pos: usize = 0;
    loop
        invariant
            all_inv(iters@),
            sources == pendings(iters@),
            n == heap@.len(),
            pos < n,
            in_range(heap@, iters@.len() as int),
            heap@.no_duplicates(),
            same_members(old(heap)@, heap@),
            ordered_except(sources, heap@, pos as int),
            pos > 0 ==> forall|c: int|
                1 <= c < n && parent(c) == pos ==> !comes_before(
                    sources,
                    (#[trigger] heap@[c]) as int,
                    heap@[parent(pos as int)] as int,
                ),
        ensures
            n == heap@.len(),
            in_range(heap@, iters@.len() as int),
            heap@.no_duplicates(),
            same_members(old(heap)@, heap@),
            ordered(sources, heap@),
        decreases n - pos,
    {
        if n < 2 || pos > (n - 2) / 2 {
            break ;
        }
        let left: usize = 2 * pos + 1;
        let right: usize = left + 1;
        let mut m: usize = left;
        if right < n && less(iters, heap[right], heap[left]) {
            m = right;
        }
        let ghost h = heap@;
        let ghost other = if m == left {
            right as int
        } else {
            left as int
        };
        proof {
            lemma_before_total(sources, h[left as int] as int, h[right as int] as int);
            assert(other < n ==> !comes_before(sources, h[other] as int, h[m as int] as int));
        }
        if !less(iters, heap[m], heap[pos]) {
            proof {
                assert forall|c: int| 1 <= c < n && parent(c) == pos implies !comes_before(
                    sources,
                    (#[trigger] h[c]) as int,
                    h[parent(c)] as int,
                ) by {
                    if c == other {
                        lemma_not_after_transitive(
                            sources,
                            h[pos as int] as int,
                            h[m as int] as int,
                            h[other] as int,
                        );
                    }
                }
            }
            break ;
        }
        swap_slots(heap, pos, m);
        proof {
            let h2 = heap@;
            lemma_before_total(sources, h[m as int] as int, h[pos as int] as int);
            assert forall|c: int| 1 <= c < n && parent(c) != m implies !comes_before(
                sources,
                (#[trigger] h2[c]) as int,
                h2[parent(c)] as int,
            ) by {
                if c == pos {
                    assert(!comes_before(sources, h[m as int] as int, h[parent(pos as int)] as int));
                } else if c == m {
                } else if c == other {
                } else {
                    assert(!comes_before(sources, h[c] as int, h[parent(c)] as int));
                }
            }
            assert forall|c: int| 1 <= c < n && parent(c) == m implies !comes_before(
                sources,
                (#[trigger] h2[c]) as int,
                h2[parent(m as int)] as int,
            ) by {
                assert(!comes_before(sources, h[c] as int, h[parent(c)] as int));
            }
            assert(in_range(h2, iters@.len() as int)) by {
                assert forall|p: int| 0 <= p < h2.len() implies (#[trigger] h2[p]) < iters@.len() by {
                    if p == pos {
                        assert(h[m as int] < iters@.len());
                    } else if p == m {
                        assert(h[pos as int] < iters@.len());
                    } else {
                        assert(h[p] < iters@.len());
                    }
                }
            }
        }
        pos = m;
    }
}

/// Restores the heap order where only the last slot may break it: what it
/// holds rises until it no longer comes before what is above it.
pub(crate) fn sift_up<I: StorageIterator>(iters: &Vec<Box<I>>, heap: &mut Vec<usize>)
    requires
        all_inv(iters@),
        in_range(old(heap)@, iters@.len() as int),
        old(heap)@.no_duplicates(),
        old(heap)@.len() > 0,
        forall|c: int|
            1 <= c < old(heap)@.len() - 1 ==> !comes_before(
                pendings(iters@),
                (#[trigger] old(heap)@[c]) as int,
                old(heap)@[parent(c)] as int,
            ),
    ensures
        ordered(pendings(iters@), final(heap)@),
        in_range(final(heap)@, iters@.len() as int),
        final(heap)@.no_duplicates(),
        same_members(old(heap)@, final(heap)@),
{
    let ghost sources = pendings(iters@);
    let n: usize = heap.len();
    let mut pos: usize = n - 1;
    loop
        invariant
            all_inv(iters@),
            sources == pendings(iters@),
            n == heap@.len(),
            pos < n,
            in_range(heap@, iters@.len() as int),
            heap@.no_duplicates(),
            same_members(old(heap)@, heap@),
            forall|c: int|
                1 <= c < n && c != pos ==> !comes_before(
                    sources,
                    (#[trigger] heap@[c]) as int,
                    heap@[parent(c)] as int,
                ),
            pos > 0 ==> forall|c: int|
                1 <= c < n && parent(c) == pos ==> !comes_before(
                    sources,
                    (#[trigger] heap@[c]) as int,
                    heap@[parent(pos as int)] as int,
                ),
        ensures
            n == heap@.len(),
            in_range(heap@, iters@.len() as int),
            heap@.no_duplicates(),
            same_members(old(heap)@, heap@),
            ordered(sources, heap@),
        decreases pos,
    {
        if pos == 0 {
            break ;
        }
        let up: usize = (pos - 1) / 2;
        if !less(iters, heap[pos], heap[up]) {
            break ;
        }
        let ghost h = heap@;
        swap_slots(heap, pos, up);
        proof {
            let h2 = heap@;
            let x = h[pos as int] as int;
            let y = h[up as int] as int;
            lemma_before_total(sources, x, y);
            assert forall|c: int| 1 <= c < n && c != up implies !comes_before(
                sources,
                (#[trigger] h2[c]) as int,
                h2[parent(c)] as int,
            ) by {
                if c == pos {
                } else if parent(c) == up {
                    assert(!comes_before(sources, h[c] as int, y));
                    lemma_not_after_transitive(sources, x, y, h[c] as int);
                } else if parent(c) == pos {
                    assert(!comes_before(sources, h[c] as int, h[parent(pos as int)] as int));
                } else {
                    assert(!comes_before(sources, h[c] as int, h[parent(c)] as int));
                }
            }
            if up > 0 {
                let top = h[parent(up as int)] as int;
                assert(!comes_before(sources, h[up as int] as int, top));
                assert forall|c: int| 1 <= c < n && parent(c) == up implies !comes_before(
                    sources,
                    (#[trigger] h2[c]) as int,
                    h2[parent(up as int)] as int,
                ) by {
                    if c == pos {
                    } else {
                        assert(!comes_before(sources, h[c] as int, y));
                        lemma_not_after_transitive(sources, top, y, h[c] as int);
                    }
                }
            }
            assert(in_range(h2, iters@.len() as int)) by {
                assert forall|p: int| 0 <= p < h2.len() implies (#[trigger] h2[p]) < iters@.len() by {
                    if p == pos {
                        assert(h[up as int] < iters@.len());
                    } else if p == up {
                        assert(h[pos as int] < iters@.len());
                    } else {
                        assert(h[p] < iters@.len());
                    }
                }
            }
        }
        pos = up;
    }
}

/// Takes the source in the first slot out of the heap. The order has to
/// hold below the first slot; it holds everywhere afterwards.
pub(crate) fn pop_root<I: StorageIterator>(iters: &Vec<Box<I>>, heap: &mut Vec<usize>) -> (top:
    usize)
    requires
        all_inv(iters@),
        in_range(old(heap)@, iters@.len() as int),
        old(heap)@.no_duplicates(),
        old(heap)@.len() > 0,
        ordered_except(pendings(iters@), old(heap)@, 0),
    ensures
        top == old(heap)@[0],
        ordered(pendings(iters@), final(heap)@),
        in_range(final(heap)@, iters@.len() as int),
        final(heap)@.no_duplicates(),
        final(heap)@.len() == old(heap)@.len() - 1,
        forall|i: int|
            #![trigger holds(final(heap)@, i)]
            #![trigger holds(old(heap)@, i)]
            holds(final(heap)@, i) <==> holds(old(heap)@, i) && i != top,
{
    let ghost before = heap@;
    let last: usize = match heap.pop() {
        Some(last) => last,
        None => 0,
    };
    if heap.len() == 0 {
        proof {
            assert forall|x: int| holds(heap@, x) <==> holds(before, x) && x != last by {
                if holds(before, x) {
                    let i = choose|i: int| 0 <= i < before.len() && (#[trigger] before[i]) == x;
                    assert(i == 0);
                }
            }
        }
        return last;
    }
    let top: usize = heap[0];
    heap[0] = last;
    proof {
        let h = heap@;
        let n = before.len() as int;
        assert(h.len() == n - 1);
        assert forall|p: int| 0 <= p < h.len() implies (#[trigger] h[p]) < iters@.len() by {
            if p == 0 {
                assert(before[n - 1] < iters@.len());
            } else {
                assert(before[p] < iters@.len());
            }
        }
        assert forall|c: int| 1 <= c < h.len() && parent(c) != 0 implies !comes_before(
            pendings(iters@),
            (#[trigger] h[c]) as int,
            h[parent(c)] as int,
        ) by {
            assert(!comes_before(pendings(iters@), before[c] as int, before[parent(c)] as int));
        }
        assert forall|x: int| holds(h, x) <==> holds(before, x) && x != top by {
            if holds(h, x) {
                let i = choose|i: int| 0 <= i < h.len() && (#[trigger] h[i]) == x;
                if i == 0 {
                    assert(before[n - 1] == x);
                } else {
                    assert(before[i] == x);
                }
            }
            if holds(before, x) && x != top {
                let i = choose|i: int| 0 <= i < before.len() && (#[trigger] before[i]) == x;
                if i == n - 1 {
                    assert(h[0] == x);
                } else {
                    assert(h[i] == x);
                }
            }
        }
    }
    let ghost mid = heap@;
    sift_down(iters, heap);
    proof {
        assert forall|x: int| holds(heap@, x) <==> holds(before, x) && x != top by {
            assert(holds(heap@, x) <==> holds(mid, x));
        }
    }
    top
}

} // verus!
