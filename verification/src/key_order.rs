//! Lexicographic order on byte strings.
//!
//! Keys are compared as sequences of unsigned bytes: the first differing byte
//! decides, and a proper prefix sorts before any of its extensions.

use vstd::prelude::*;

verus! {

/// Length of the longest common prefix of `a` and `b`, counted from `i`.
pub open spec fn common_prefix_from(a: Seq<u8>, b: Seq<u8>, i: int) -> int
    decreases a.len() - i,
{
    if 0 <= i < a.len() && i < b.len() && a[i] == b[i] {
        common_prefix_from(a, b, i + 1)
    } else {
        i
    }
}

/// Length of the longest common prefix of `a` and `b`.
pub open spec fn common_prefix(a: Seq<u8>, b: Seq<u8>) -> int {
    common_prefix_from(a, b, 0)
}

/// `a` sorts strictly before `b`.
pub open spec fn lex_lt(a: Seq<u8>, b: Seq<u8>) -> bool {
    let k = common_prefix(a, b);
    if k < a.len() && k < b.len() {
        a[k] < b[k]
    } else {
        a.len() < b.len()
    }
}

/// `a` sorts before `b` or equals it.
pub open spec fn lex_le(a: Seq<u8>, b: Seq<u8>) -> bool {
    !lex_lt(b, a)
}

/// What `common_prefix_from` returns: the first index at or after `i` where
/// the two strings stop agreeing.
pub proof fn lemma_common_prefix_from(a: Seq<u8>, b: Seq<u8>, i: int)
    requires
        0 <= i <= a.len(),
        i <= b.len(),
        forall|j: int| 0 <= j < i ==> a[j] == b[j],
    ensures
        i <= common_prefix_from(a, b, i) <= a.len(),
        common_prefix_from(a, b, i) <= b.len(),
        forall|j: int| 0 <= j < common_prefix_from(a, b, i) ==> a[j] == b[j],
        common_prefix_from(a, b, i) < a.len() && common_prefix_from(a, b, i) < b.len() ==> a[common_prefix_from(
            a,
            b,
            i,
        )] != b[common_prefix_from(a, b, i)],
    decreases a.len() - i,
{
    if i < a.len() && i < b.len() && a[i] == b[i] {
        lemma_common_prefix_from(a, b, i + 1);
    }
}

/// The common prefix is the only index with the properties of a first
/// difference.
pub proof fn lemma_common_prefix_unique(a: Seq<u8>, b: Seq<u8>, k: int)
    requires
        0 <= k <= a.len(),
        k <= b.len(),
        forall|j: int| 0 <= j < k ==> a[j] == b[j],
        k < a.len() && k < b.len() ==> a[k] != b[k],
    ensures
        common_prefix(a, b) == k,
{
    lemma_common_prefix_from(a, b, 0);
    let c = common_prefix(a, b);
    if c < k {
        assert(a[c] == b[c]);
    } else if k < c {
        assert(a[k] == b[k]);
    }
}

/// No key sorts before itself.
pub proof fn lemma_lex_irreflexive(a: Seq<u8>)
    ensures
        !lex_lt(a, a),
{
    lemma_common_prefix_unique(a, a, a.len() as int);
}

/// Of two different keys exactly one sorts before the other.
pub proof fn lemma_lex_total(a: Seq<u8>, b: Seq<u8>)
    ensures
        a == b || lex_lt(a, b) || lex_lt(b, a),
        !(lex_lt(a, b) && lex_lt(b, a)),
        a == b ==> !lex_lt(a, b),
{
    lemma_common_prefix_from(a, b, 0);
    let k = common_prefix(a, b);
    lemma_common_prefix_unique(b, a, k);
    if !lex_lt(a, b) && !lex_lt(b, a) {
        assert(a.len() == b.len());
        assert(k == a.len());
        assert(a =~= b);
    }
    if a == b {
        lemma_lex_irreflexive(a);
    }
}

/// The order is transitive.
pub proof fn lemma_lex_transitive(a: Seq<u8>, b: Seq<u8>, c: Seq<u8>)
    requires
        lex_lt(a, b),
        lex_lt(b, c),
    ensures
        lex_lt(a, c),
{
    lemma_common_prefix_from(a, b, 0);
    lemma_common_prefix_from(b, c, 0);
    let k1 = common_prefix(a, b);
    let k2 = common_prefix(b, c);
    let k = if k1 <= k2 { k1 } else { k2 };
    assert forall|j: int| 0 <= j < k implies a[j] == c[j] by {
        assert(a[j] == b[j]);
        assert(b[j] == c[j]);
    }
    if k1 < k2 {
        // a and b part ways first; b and c still agree there.
        assert(b[k1] == c[k1]);
        lemma_common_prefix_unique(a, c, k1);
    } else if k2 < k1 {
        assert(a[k2] == b[k2]);
        lemma_common_prefix_unique(a, c, k2);
    } else {
        lemma_common_prefix_unique(a, c, k);
    }
}

/// `lex_le` is transitive, also where one of the two steps is strict.
pub proof fn lemma_lex_le_transitive(a: Seq<u8>, b: Seq<u8>, c: Seq<u8>)
    requires
        lex_le(a, b),
        lex_le(b, c),
    ensures
        lex_le(a, c),
        lex_lt(a, b) || lex_lt(b, c) ==> lex_lt(a, c),
{
    lemma_lex_total(a, b);
    lemma_lex_total(b, c);
    lemma_lex_total(a, c);
    if a != b && b != c {
        lemma_lex_transitive(a, b, c);
    }
}

/// Whether `left` sorts strictly before `right`.
pub fn key_lt(left: &[u8], right: &[u8]) -> (r: bool)
    ensures
        r == lex_lt(left@, right@),
{
    let mut i: usize = 0;
    while i < left.len() && i < right.len() && left[i] == right[i]
        invariant
            i <= left@.len(),
            i <= right@.len(),
            forall|j: int| 0 <= j < i ==> left@[j] == right@[j],
        decreases left@.len() - i,
    {
        i += 1;
    }
    proof {
        lemma_common_prefix_unique(left@, right@, i as int);
    }
    if i < left.len() && i < right.len() {
        left[i] < right[i]
    } else {
        left.len() < right.len()
    }
}

/// Whether the two keys hold the same bytes.
pub fn key_eq(left: &[u8], right: &[u8]) -> (r: bool)
    ensures
        r == (left@ == right@),
{
    if left.len() != right.len() {
        return false;
    }
    let mut i: usize = 0;
    while i < left.len()
        invariant
            left@.len() == right@.len(),
            i <= left@.len(),
            forall|j: int| 0 <= j < i ==> left@[j] == right@[j],
        decreases left@.len() - i,
    {
        if left[i] != right[i] {
            return false;
        }
        i += 1;
    }
    assert(left@ =~= right@);
    true
}

} // verus!
