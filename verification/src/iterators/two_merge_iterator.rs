//! The merge of two iterators, which may be of different types. Where both
//! show the same key, the first one's entry is shown and the second moves
//! past it.

use super::StorageIterator;
use crate::block::advance;
use crate::block::Entry;
use crate::error::StorageError;
use crate::key_order::key_eq;
use crate::key_order::key_lt;
use crate::key_order::lemma_lex_total;
use crate::key_order::lemma_lex_transitive;
use crate::key_order::lex_le;
use crate::key_order::lex_lt;
use crate::sorted_run::has_key;
use crate::sorted_run::lemma_advance_members;
use crate::sorted_run::lemma_advance_sorted;
use crate::sorted_run::lemma_keys_beyond_bound;
use crate::sorted_run::lemma_keys_beyond_head;
use crate::key_order::lemma_lex_le_transitive;
use crate::sorted_run::lemma_advance_keeps_sorted;
use crate::sorted_run::lemma_cons_sorted;
use crate::sorted_run::sorted;
use crate::sorted_run::strictly_sorted;
use vstd::prelude::*;

verus! {

/// The entry that is shown is the first one's: the first source has an
/// entry, and the second has none or its key is not smaller.
pub open spec fn first_leads(pa: Seq<Entry>, pb: Seq<Entry>) -> bool {
    pa.len() > 0 && (pb.len() == 0 || lex_le(pa[0].0, pb[0].0))
}

/// Both sources show an entry, with the same key.
pub open spec fn tied(pa: Seq<Entry>, pb: Seq<Entry>) -> bool {
    pa.len() > 0 && pb.len() > 0 && pa[0].0 == pb[0].0
}

/// What the second source has left once it has moved past a tie with the
/// first.
pub open spec fn untied(pa: Seq<Entry>, pb: Seq<Entry>) -> Seq<Entry> {
    if tied(pa, pb) {
        advance(pb)
    } else {
        pb
    }
}

/// What the two sources have left after one move of the merge: the source
/// whose entry was shown moves on, and then the second moves past a tie.
pub open spec fn two_step(pa: Seq<Entry>, pb: Seq<Entry>) -> (Seq<Entry>, Seq<Entry>) {
    if first_leads(pa, pb) {
        (advance(pa), untied(advance(pa), pb))
    } else {
        (pa, untied(pa, advance(pb)))
    }
}

/// `after` is what a move of the merge that fails leaves of the sources
/// `pa` and `pb`. Where the first source led: it failed and the second is
/// as it was, or it moved on into a tie and the second failed to move past
/// that. Where the second source led, the first is as it was.
pub open spec fn two_step_lost(pa: Seq<Entry>, pb: Seq<Entry>, after: (Seq<Entry>, Seq<Entry>)) -> bool {
    if first_leads(pa, pb) {
        after.1 == pb || (after.0 == advance(pa) && tied(advance(pa), pb))
    } else {
        after.0 == pa
    }
}

/// What the merge of two sources shows: the entry that leads, then what it
/// shows after a move.
pub open spec fn merged_two(pa: Seq<Entry>, pb: Seq<Entry>) -> Seq<Entry>
    decreases pa.len() + pb.len(),
{
    if pa.len() == 0 && pb.len() == 0 {
        Seq::empty()
    } else {
        let head = if first_leads(pa, pb) {
            pa[0]
        } else {
            pb[0]
        };
        seq![head] + merged_two(two_step(pa, pb).0, two_step(pa, pb).1)
    }
}

/// The merge of two ascending runs that are not tied at their start: it
/// ascends, it has the keys of both runs and no others, and each of its
/// entries is the first run's where the first run has the key, and the
/// second's where only the second has it.
pub proof fn lemma_merged_two(pa: Seq<Entry>, pb: Seq<Entry>)
    requires
        strictly_sorted(pa),
        strictly_sorted(pb),
        !tied(pa, pb),
    ensures
        strictly_sorted(merged_two(pa, pb)),
        forall|k: Seq<u8>|
            #![trigger has_key(merged_two(pa, pb), k)]
            has_key(merged_two(pa, pb), k) <==> has_key(pa, k) || has_key(pb, k),
        forall|i: int|
            0 <= i < merged_two(pa, pb).len() ==> pa.contains(#[trigger] merged_two(pa, pb)[i]) || (
            !has_key(pa, merged_two(pa, pb)[i].0) && pb.contains(merged_two(pa, pb)[i])),
    decreases pa.len() + pb.len(),
{
    let out = merged_two(pa, pb);
    if pa.len() == 0 && pb.len() == 0 {
        assert forall|k: Seq<u8>| #![trigger has_key(out, k)] !has_key(out, k) && !has_key(pa, k)
            && !has_key(pb, k) by {}
    } else {
        let leads = first_leads(pa, pb);
        let head = if leads {
            pa[0]
        } else {
            pb[0]
        };
        let na = two_step(pa, pb).0;
        let nb = two_step(pa, pb).1;
        let rest = merged_two(na, nb);
        // what moves is an ascending run, and the two are not tied afterwards
        lemma_advance_sorted(pa);
        lemma_advance_sorted(pb);
        if leads {
            lemma_advance_sorted(untied(advance(pa), pb));
            if tied(advance(pa), pb) && advance(pb).len() > 0 {
                lemma_keys_beyond_head(pb, advance(pb)[0].0);
                assert(has_key(advance(pb), advance(pb)[0].0));
                lemma_lex_total(pb[0].0, advance(pb)[0].0);
            }
        } else {
            lemma_advance_sorted(advance(pb));
            if tied(pa, advance(pb)) && advance(advance(pb)).len() > 0 {
                let pb1 = advance(pb);
                lemma_keys_beyond_head(pb1, advance(pb1)[0].0);
                assert(has_key(advance(pb1), advance(pb1)[0].0));
                lemma_lex_total(pb1[0].0, advance(pb1)[0].0);
            }
        }
        lemma_merged_two(na, nb);
        // every key that is left is beyond the key that is shown
        assert forall|k: Seq<u8>| has_key(na, k) || has_key(nb, k) implies lex_lt(head.0, k) by {
            lemma_two_step_beyond(pa, pb, k);
        }
        assert(out == seq![head] + rest);
        assert forall|i: int, j: int| 0 <= i < j < out.len() implies lex_lt(
            (#[trigger] out[i]).0,
            (#[trigger] out[j]).0,
        ) by {
            assert(out[j] == rest[j - 1]);
            assert(has_key(rest, rest[j - 1].0));
            if i > 0 {
                assert(out[i] == rest[i - 1]);
            }
        }
        assert forall|k: Seq<u8>| #![trigger has_key(out, k)] has_key(out, k) <==> has_key(pa, k)
            || has_key(pb, k) by {
            lemma_advance_members(out, k, head);
            assert(advance(out) =~= rest);
            lemma_two_step_keys(pa, pb, k);
        }
        assert forall|i: int| 0 <= i < out.len() implies pa.contains(#[trigger] out[i]) || (!has_key(
            pa,
            out[i].0,
        ) && pb.contains(out[i])) by {
            if i == 0 {
                if !leads && pa.len() > 0 {
                    lemma_lex_total(pa[0].0, pb[0].0);
                    if has_key(pa, pb[0].0) {
                        lemma_keys_beyond_head(pa, pb[0].0);
                    }
                }
                if !leads && pa.len() == 0 {
                    assert(!has_key(pa, pb[0].0));
                }
            } else {
                let e = rest[i - 1];
                assert(out[i] == e);
                lemma_two_step_entries(pa, pb, e);
                assert(has_key(rest, e.0));
                if !na.contains(e) {
                    assert(nb.contains(e));
                    let w = choose|w: int| 0 <= w < nb.len() && nb[w] == e;
                    assert(has_key(nb, e.0));
                    lemma_two_step_beyond(pa, pb, e.0);
                    if leads {
                        lemma_advance_members(pa, e.0, e);
                        lemma_lex_total(pa[0].0, e.0);
                    }
                }
            }
        }
    }
}

/// After a move of the merge of two ascending runs that are not tied,
/// every key that is left is beyond the key that was shown.
proof fn lemma_two_step_beyond(pa: Seq<Entry>, pb: Seq<Entry>, k: Seq<u8>)
    requires
        strictly_sorted(pa),
        strictly_sorted(pb),
        !tied(pa, pb),
        pa.len() > 0 || pb.len() > 0,
        has_key(two_step(pa, pb).0, k) || has_key(two_step(pa, pb).1, k),
    ensures
        lex_lt(
            if first_leads(pa, pb) {
                pa[0].0
            } else {
                pb[0].0
            },
            k,
        ),
{
    let na = two_step(pa, pb).0;
    let nb = two_step(pa, pb).1;
    if first_leads(pa, pb) {
        if has_key(na, k) {
            lemma_keys_beyond_head(pa, k);
        } else {
            // a key of the second run, whose first key is beyond that of the first
            lemma_lex_total(pa[0].0, pb[0].0);
            if tied(advance(pa), pb) {
                lemma_advance_members(pb, k, pb[0]);
                lemma_keys_beyond_head(pb, k);
                lemma_lex_transitive(pa[0].0, pb[0].0, k);
            } else {
                lemma_keys_beyond_bound(pb, pa[0].0, k);
            }
        }
    } else {
        if has_key(nb, k) {
            let pb1 = advance(pb);
            if tied(pa, pb1) {
                lemma_advance_members(pb1, k, pb1[0]);
            }
            lemma_keys_beyond_head(pb, k);
        } else {
            lemma_lex_total(pa[0].0, pb[0].0);
            lemma_keys_beyond_bound(pa, pb[0].0, k);
        }
    }
}

/// A move of the merge of two ascending runs takes away no key but the one
/// that was shown.
proof fn lemma_two_step_keys(pa: Seq<Entry>, pb: Seq<Entry>, k: Seq<u8>)
    requires
        pa.len() > 0 || pb.len() > 0,
    ensures
        has_key(pa, k) || has_key(pb, k) <==> k == (if first_leads(pa, pb) {
            pa[0].0
        } else {
            pb[0].0
        }) || has_key(two_step(pa, pb).0, k) || has_key(two_step(pa, pb).1, k),
{
    if first_leads(pa, pb) {
        lemma_advance_members(pa, k, pa[0]);
        let na = advance(pa);
        if tied(na, pb) {
            lemma_advance_members(pb, k, pb[0]);
            assert(has_key(na, na[0].0));
        }
    } else {
        lemma_advance_members(pb, k, pb[0]);
        let pb1 = advance(pb);
        if tied(pa, pb1) {
            lemma_advance_members(pb1, k, pb1[0]);
            assert(has_key(pa, pa[0].0));
        }
    }
}

/// A move of the merge of two runs adds no entry to either.
proof fn lemma_two_step_entries(pa: Seq<Entry>, pb: Seq<Entry>, e: Entry)
    ensures
        two_step(pa, pb).0.contains(e) ==> pa.contains(e),
        two_step(pa, pb).1.contains(e) ==> pb.contains(e),
{
    if pa.len() > 0 {
        lemma_advance_members(pa, e.0, e);
    }
    if pb.len() > 0 {
        lemma_advance_members(pb, e.0, e);
        let pb1 = advance(pb);
        if pb1.len() > 0 {
            lemma_advance_members(pb1, e.0, e);
        }
    }
}

/// What a merge of two ascending runs shows, as `create` starts it: it
/// ascends, it has the keys of both runs and no others, and the entry of a
/// key that the first run has is the first run's.
pub proof fn lemma_two_merge_prefers_first(pa: Seq<Entry>, pb: Seq<Entry>)
    requires
        strictly_sorted(pa),
        strictly_sorted(pb),
    ensures
        strictly_sorted(merged_two(pa, untied(pa, pb))),
        forall|k: Seq<u8>|
            #![trigger has_key(merged_two(pa, untied(pa, pb)), k)]
            has_key(merged_two(pa, untied(pa, pb)), k) <==> has_key(pa, k) || has_key(pb, k),
        forall|i: int|
            0 <= i < merged_two(pa, untied(pa, pb)).len() ==> pa.contains(
                #[trigger] merged_two(pa, untied(pa, pb))[i],
            ) || (!has_key(pa, merged_two(pa, untied(pa, pb))[i].0) && pb.contains(
                merged_two(pa, untied(pa, pb))[i],
            )),
{
    let ub = untied(pa, pb);
    let out = merged_two(pa, ub);
    lemma_advance_sorted(pb);
    if tied(pa, pb) && advance(pb).len() > 0 {
        lemma_keys_beyond_head(pb, advance(pb)[0].0);
        assert(has_key(advance(pb), advance(pb)[0].0));
        lemma_lex_total(pb[0].0, advance(pb)[0].0);
    }
    lemma_merged_two(pa, ub);
    assert forall|k: Seq<u8>| #![trigger has_key(out, k)] has_key(out, k) <==> has_key(pa, k)
        || has_key(pb, k) by {
        if tied(pa, pb) {
            lemma_advance_members(pb, k, pb[0]);
            assert(has_key(pa, pa[0].0));
        }
    }
    assert forall|i: int| 0 <= i < out.len() implies pa.contains(#[trigger] out[i]) || (!has_key(
        pa,
        out[i].0,
    ) && pb.contains(out[i])) by {
        if tied(pa, pb) {
            lemma_advance_members(pb, out[i].0, out[i]);
        }
    }
}

/// The merge of two sorted runs is sorted, whether or not a key comes
/// twice in a run.
pub proof fn lemma_merged_two_sorted(pa: Seq<Entry>, pb: Seq<Entry>)
    requires
        sorted(pa),
        sorted(pb),
    ensures
        sorted(merged_two(pa, pb)),
        merged_two(pa, pb).len() > 0 ==> merged_two(pa, pb)[0] == (if first_leads(pa, pb) {
            pa[0]
        } else {
            pb[0]
        }),
        (merged_two(pa, pb).len() > 0) == (pa.len() > 0 || pb.len() > 0),
    decreases pa.len() + pb.len(),
{
    if pa.len() > 0 || pb.len() > 0 {
        let leads = first_leads(pa, pb);
        let head = if leads {
            pa[0]
        } else {
            pb[0]
        };
        let na = two_step(pa, pb).0;
        let nb = two_step(pa, pb).1;
        lemma_advance_keeps_sorted(pa);
        lemma_advance_keeps_sorted(pb);
        lemma_advance_keeps_sorted(advance(pb));
        lemma_merged_two_sorted(na, nb);
        let rest = merged_two(na, nb);
        if rest.len() > 0 {
            // what leads next is a later entry of one of the runs
            if pa.len() > 0 && pb.len() > 0 {
                lemma_lex_total(pa[0].0, pb[0].0);
            }
            if leads {
                if nb.len() > 0 {
                    lemma_lex_le_transitive(pa[0].0, pb[0].0, nb[0].0);
                }
            } else {
                let pb1 = advance(pb);
                if nb.len() > 0 && pb1.len() > 0 {
                    lemma_lex_le_transitive(pb[0].0, pb1[0].0, nb[0].0);
                }
            }
            lemma_lex_total(head.0, rest[0].0);
        }
        lemma_cons_sorted(head, rest);
    }
}

/// Merges two iterators of different types into one. If the two iterators have the same key, only
/// produce the key once and prefer the entry from A.
pub struct TwoMergeIterator<A: StorageIterator, B: StorageIterator> {
    a: A,
    b: B,
}

impl<A: StorageIterator, B: StorageIterator> TwoMergeIterator<A, B> {
    /// What the two sources have yet to show.
    pub closed spec fn sources(&self) -> (Seq<Entry>, Seq<Entry>) {
        (self.a.pending(), self.b.pending())
    }

    /// Merges `a` and `b`. Where both start at the same key, `b` moves
    /// past it first; that move is the one thing that can fail.
    pub fn create(a: A, b: B) -> (r: Result<TwoMergeIterator<A, B>, StorageError>)
        requires
            a.inv(),
            b.inv(),
        ensures
            !tied(a.pending(), b.pending()) ==> r is Ok,
            a.never_fails() && b.never_fails() ==> r is Ok && r.unwrap().never_fails(),
            r is Ok ==> r.unwrap().inv() && r.unwrap().sources() == (
                a.pending(),
                untied(a.pending(), b.pending()),
            ),
    {
        let mut res = TwoMergeIterator { a, b };
        match res.after_move(Ok(()), true) {
            Ok(_) => Ok(res),
            Err(e) => Err(e),
        }
    }

    /// Whether the entry that is shown is that of `a`.
    fn a_leads(&self) -> (leads: bool)
        requires
            self.inv(),
        ensures
            leads == first_leads(self.sources().0, self.sources().1),
    {
        if !self.a.is_valid() {
            false
        } else if !self.b.is_valid() {
            true
        } else {
            !key_lt(self.b.key(), self.a.key())
        }
    }

    /// What the merge does once a source has been asked to move, given how
    /// that went. A failure is handed back as it is, and nothing else is
    /// done. After a move that went well, and where `may_tie` says so, `b`
    /// is asked to move past a tie with `a`, and how that goes decides in
    /// the same way; without a tie there is nothing to do.
    fn after_move(&mut self, moved: Result<(), StorageError>, may_tie: bool) -> (r: Result<
        (),
        StorageError,
    >)
        requires
            old(self).inv(),
        ensures
            final(self).inv(),
            moved matches Err(e) ==> r == Err::<(), StorageError>(e) && *final(self) == *old(self),
            moved is Ok && !(may_tie && tied(old(self).sources().0, old(self).sources().1)) ==> r
                is Ok && *final(self) == *old(self),
            moved is Ok && may_tie && tied(old(self).sources().0, old(self).sources().1)
                ==> final(self).sources().0 == old(self).sources().0,
            moved is Ok && may_tie && tied(old(self).sources().0, old(self).sources().1) && r is Ok
                ==> final(self).sources().1 == advance(old(self).sources().1),
            old(self).never_fails() ==> final(self).never_fails(),
            moved is Ok && old(self).never_fails() ==> r is Ok,
        decreases
                (if may_tie {
                    1nat
                } else {
                    0nat
                }),
    {
        match moved {
            Err(e) => Err(e),
            Ok(_) => {
                if may_tie && self.a.is_valid() && self.b.is_valid() && key_eq(
                    self.a.key(),
                    self.b.key(),
                ) {
                    let again = self.b.next();
                    self.after_move(again, false)
                } else {
                    Ok(())
                }
            },
        }
    }
}

impl<A: StorageIterator, B: StorageIterator> StorageIterator for TwoMergeIterator<A, B> {
    /// Both sources are sound.
    closed spec fn inv(&self) -> bool {
        self.a.inv() && self.b.inv()
    }

    /// What the merge shows from here on.
    open spec fn pending(&self) -> Seq<Entry> {
        merged_two(self.sources().0, self.sources().1)
    }

    /// Neither source ever fails.
    closed spec fn never_fails(&self) -> bool {
        self.a.never_fails() && self.b.never_fails()
    }

    fn value(&self) -> (v: &[u8]) {
        if self.a_leads() {
            self.a.value()
        } else {
            self.b.value()
        }
    }

    fn key(&self) -> (k: &[u8]) {
        if self.a_leads() {
            self.a.key()
        } else {
            self.b.key()
        }
    }

    fn is_valid(&self) -> (valid: bool) {
        self.b.is_valid() || self.a.is_valid()
    }

    /// Moves the source whose entry was shown, then moves `b` past a tie.
    /// Where a source fails, its failure is handed back. Where both
    /// sources have ended there is nothing to move, and nothing fails.
    fn next(&mut self) -> (r: Result<(), StorageError>)
        ensures
            r is Ok ==> final(self).sources() == two_step(
                old(self).sources().0,
                old(self).sources().1,
            ),
            r is Err ==> two_step_lost(
                old(self).sources().0,
                old(self).sources().1,
                final(self).sources(),
            ),
            old(self).sources().0.len() == 0 && old(self).sources().1.len() == 0 ==> r is Ok
                && *final(self) == *old(self),
    {
        let ghost pa = self.a.pending();
        let ghost pb = self.b.pending();
        if !self.a.is_valid() && !self.b.is_valid() {
            assert(merged_two(pa, pb) =~= Seq::<Entry>::empty());
            return Ok(());
        }
        let moved = if self.a_leads() {
            self.a.next()
        } else {
            self.b.next()
        };
        let r = self.after_move(moved, true);
        proof {
            if r is Ok {
                let step = two_step(pa, pb);
                assert(self.sources() == step);
                let head = if first_leads(pa, pb) {
                    pa[0]
                } else {
                    pb[0]
                };
                let rest = merged_two(step.0, step.1);
                assert(advance(seq![head] + rest) =~= rest);
            }
        }
        r
    }
}

} // verus!
