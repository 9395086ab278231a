//! Runs of entries in key order: what it is for a run to ascend, to hold a
//! key, and what moving past the first entry keeps of both.

use crate::block::advance;
use crate::block::Entry;
use crate::key_order::lemma_lex_total;
use crate::key_order::lemma_lex_transitive;
use crate::key_order::lex_le;
use crate::key_order::lex_lt;
use vstd::prelude::*;

verus! {

/// Each key is before the next: the run ascends and no key occurs twice.
pub open spec fn strictly_sorted(run: Seq<Entry>) -> bool {
    forall|i: int, j: int|
        0 <= i < j < run.len() ==> lex_lt((#[trigger] run[i]).0, (#[trigger] run[j]).0)
}

/// No key is before the one ahead of it.
pub open spec fn sorted(run: Seq<Entry>) -> bool {
    forall|i: int, j: int|
        0 <= i < j < run.len() ==> lex_le((#[trigger] run[i]).0, (#[trigger] run[j]).0)
}

/// Some entry of the run has the key `key`.
pub open spec fn has_key(run: Seq<Entry>, key: Seq<u8>) -> bool {
    exists|i: int| 0 <= i < run.len() && (#[trigger] run[i]).0 == key
}

/// A run that ascends strictly is sorted.
pub proof fn lemma_strictly_sorted_is_sorted(run: Seq<Entry>)
    requires
        strictly_sorted(run),
    ensures
        sorted(run),
{
    assert forall|i: int, j: int| 0 <= i < j < run.len() implies lex_le(
        (#[trigger] run[i]).0,
        (#[trigger] run[j]).0,
    ) by {
        lemma_lex_total(run[i].0, run[j].0);
    }
}

/// A tail of a sorted run is sorted.
pub proof fn lemma_tail_sorted(run: Seq<Entry>, from: int)
    requires
        sorted(run),
        0 <= from <= run.len(),
    ensures
        sorted(run.subrange(from, run.len() as int)),
{
    let tail = run.subrange(from, run.len() as int);
    assert forall|i: int, j: int| 0 <= i < j < tail.len() implies lex_le(
        (#[trigger] tail[i]).0,
        (#[trigger] tail[j]).0,
    ) by {
        assert(tail[i] == run[from + i]);
        assert(tail[j] == run[from + j]);
    }
}

/// Moving past the first entry keeps a run sorted, and the entry that
/// comes next has a key that is not before the first.
pub proof fn lemma_advance_keeps_sorted(run: Seq<Entry>)
    requires
        sorted(run),
    ensures
        sorted(advance(run)),
        advance(run).len() > 0 ==> lex_le(run[0].0, advance(run)[0].0),
{
    if run.len() > 0 {
        lemma_tail_sorted(run, 1);
        if run.len() > 1 {
            assert(advance(run)[0] == run[1]);
        }
    }
}

/// A run that starts with an entry whose key is not beyond that of the
/// first entry of a sorted run, and goes on with that run, is sorted.
pub proof fn lemma_cons_sorted(head: Entry, rest: Seq<Entry>)
    requires
        sorted(rest),
        rest.len() > 0 ==> lex_le(head.0, rest[0].0),
    ensures
        sorted(seq![head] + rest),
{
    let run = seq![head] + rest;
    assert forall|i: int, j: int| 0 <= i < j < run.len() implies lex_le(
        (#[trigger] run[i]).0,
        (#[trigger] run[j]).0,
    ) by {
        assert(run[j] == rest[j - 1]);
        if i == 0 {
            if j > 1 {
                assert(lex_le(rest[0].0, rest[j - 1].0));
                crate::key_order::lemma_lex_le_transitive(head.0, rest[0].0, rest[j - 1].0);
            }
        } else {
            assert(run[i] == rest[i - 1]);
        }
    }
}

/// Moving past the first entry keeps the run ascending.
pub proof fn lemma_advance_sorted(run: Seq<Entry>)
    requires
        strictly_sorted(run),
    ensures
        strictly_sorted(advance(run)),
{
    let rest = advance(run);
    if run.len() > 0 {
        assert forall|i: int, j: int| 0 <= i < j < rest.len() implies lex_lt(
            (#[trigger] rest[i]).0,
            (#[trigger] rest[j]).0,
        ) by {
            assert(rest[i] == run[i + 1]);
            assert(rest[j] == run[j + 1]);
        }
    }
}

/// The keys and entries of a run are its first and those of the rest.
pub proof fn lemma_advance_members(run: Seq<Entry>, key: Seq<u8>, entry: Entry)
    requires
        run.len() > 0,
    ensures
        has_key(run, key) <==> run[0].0 == key || has_key(advance(run), key),
        run.contains(entry) <==> run[0] == entry || advance(run).contains(entry),
{
    let rest = advance(run);
    if has_key(run, key) {
        let i = choose|i: int| 0 <= i < run.len() && (#[trigger] run[i]).0 == key;
        if i > 0 {
            assert(rest[i - 1].0 == key);
        }
    }
    if has_key(rest, key) {
        let i = choose|i: int| 0 <= i < rest.len() && (#[trigger] rest[i]).0 == key;
        assert(run[i + 1].0 == key);
    }
    if run.contains(entry) {
        let i = choose|i: int| 0 <= i < run.len() && run[i] == entry;
        if i > 0 {
            assert(rest[i - 1] == entry);
        }
    }
    if rest.contains(entry) {
        let i = choose|i: int| 0 <= i < rest.len() && rest[i] == entry;
        assert(run[i + 1] == entry);
    }
    assert(run[0].0 == key ==> has_key(run, key));
    assert(run[0] == entry ==> run.contains(entry));
}

/// In an ascending run every key after the first is beyond the first.
pub proof fn lemma_keys_beyond_head(run: Seq<Entry>, key: Seq<u8>)
    requires
        strictly_sorted(run),
        run.len() > 0,
    ensures
        has_key(advance(run), key) ==> lex_lt(run[0].0, key),
        has_key(run, key) ==> lex_le(run[0].0, key),
{
    let rest = advance(run);
    if has_key(rest, key) {
        let i = choose|i: int| 0 <= i < rest.len() && (#[trigger] rest[i]).0 == key;
        assert(rest[i] == run[i + 1]);
        assert(lex_lt(run[0].0, run[i + 1].0));
    }
    if has_key(run, key) {
        let i = choose|i: int| 0 <= i < run.len() && (#[trigger] run[i]).0 == key;
        lemma_lex_total(run[0].0, key);
        if i > 0 {
            assert(lex_lt(run[0].0, run[i].0));
        }
    }
}

/// A run whose first key is beyond `bound`, and which ascends, has every
/// key beyond `bound`.
pub proof fn lemma_keys_beyond_bound(run: Seq<Entry>, bound: Seq<u8>, key: Seq<u8>)
    requires
        strictly_sorted(run),
        has_key(run, key),
        lex_lt(bound, run[0].0),
    ensures
        lex_lt(bound, key),
{
    lemma_keys_beyond_head(run, key);
    lemma_lex_total(run[0].0, key);
    if run[0].0 != key {
        lemma_lex_transitive(bound, run[0].0, key);
    }
}

} // verus!
