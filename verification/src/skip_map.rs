//! The `crossbeam_skiplist` crate as this library sees it: the ordered map
//! `SkipMap` with `Bytes` keys and values, a name for what such a map holds,
//! and contracts for the calls that the mem-table makes. None of these
//! contracts is proved here.
//!
//! The map orders its keys by `Bytes`'s own order, which is that of byte
//! slices: lexicographic over unsigned bytes.

use crate::block::Entry;
use crate::byte_buf::bytes_contents;
use crate::key_order::lex_le;
use crate::key_order::lex_lt;
use bytes::Bytes;
use crossbeam_skiplist::SkipMap;
use std::ops::Bound;
use vstd::prelude::*;

verus! {

/// `crossbeam_skiplist::SkipMap`, an ordered map.
#[verifier::external_type_specification]
#[verifier::external_body]
#[verifier::reject_recursive_types(K)]
#[verifier::reject_recursive_types(V)]
pub struct ExSkipMap<K, V>(crossbeam_skiplist::SkipMap<K, V>);

/// `std::ops::Bound`, one end of a range.
#[verifier::external_type_specification]
#[verifier::reject_recursive_types(T)]
pub struct ExBound<T>(std::ops::Bound<T>);

/// The keys that a map holds, each with its value.
pub uninterp spec fn skipmap_contents(m: SkipMap<Bytes, Bytes>) -> Map<Seq<u8>, Seq<u8>>;

/// The map that holds no key.
pub open spec fn no_entries() -> Map<Seq<u8>, Seq<u8>> {
    Map::empty()
}

/// `key` is not before the lower end of a range.
pub open spec fn above_lower(lower: Bound<&[u8]>, key: Seq<u8>) -> bool {
    match lower {
        Bound::Included(l) => lex_le(l@, key),
        Bound::Excluded(l) => lex_lt(l@, key),
        Bound::Unbounded => true,
    }
}

/// `key` is not beyond the upper end of a range.
pub open spec fn below_upper(upper: Bound<&[u8]>, key: Seq<u8>) -> bool {
    match upper {
        Bound::Included(u) => lex_le(key, u@),
        Bound::Excluded(u) => lex_lt(key, u@),
        Bound::Unbounded => true,
    }
}

/// The entries that a run of key-value buffers stands for.
pub open spec fn entry_views(items: Seq<(Bytes, Bytes)>) -> Seq<Entry> {
    Seq::new(items.len(), |i: int| (bytes_contents(items[i].0), bytes_contents(items[i].1)))
}

/// `entries` is the part of `contents` between `lower` and `upper`, in
/// ascending order of the keys: every entry is of the map and in the range,
/// every key of the map in the range has its entry, and each key is before
/// the next.
pub open spec fn is_scan_of(
    contents: Map<Seq<u8>, Seq<u8>>,
    lower: Bound<&[u8]>,
    upper: Bound<&[u8]>,
    entries: Seq<Entry>,
) -> bool {
    &&& forall|i: int, j: int|
        0 <= i < j < entries.len() ==> lex_lt(#[trigger] entries[i].0, #[trigger] entries[j].0)
    &&& forall|i: int|
        0 <= i < entries.len() ==> {
            let e = #[trigger] entries[i];
            &&& contents.dom().contains(e.0)
            &&& contents[e.0] == e.1
            &&& above_lower(lower, e.0)
            &&& below_upper(upper, e.0)
        }
    &&& forall|k: Seq<u8>|
        #[trigger] contents.dom().contains(k) && above_lower(lower, k) && below_upper(upper, k)
            ==> exists|i: int| 0 <= i < entries.len() && (#[trigger] entries[i]).0 == k
}

/// `SkipMap::new` makes a map that holds no key.
#[verifier::external_body]
pub(crate) fn skipmap_new() -> (m: SkipMap<Bytes, Bytes>)
    ensures
        skipmap_contents(m) == no_entries(),
{
    SkipMap::new()
}

/// `SkipMap::get` finds the entry of `key`, from which the value is cloned;
/// there is none where the map does not hold the key.
#[verifier::external_body]
pub(crate) fn skipmap_get(m: &SkipMap<Bytes, Bytes>, key: &[u8]) -> (r: Option<Bytes>)
    ensures
        match r {
            Some(value) => skipmap_contents(*m).dom().contains(key@) && bytes_contents(value)
                == skipmap_contents(*m)[key@],
            None => !skipmap_contents(*m).dom().contains(key@),
        },
{
    m.get(key).map(|entry| entry.value().clone())
}

/// `SkipMap::insert` puts `value` under `key`, in place of the value that
/// the key had, if it had one. The other keys keep theirs. The map itself
/// would take the call through a shared reference; it is asked for
/// exclusively here, so that what it holds changes only where that shows.
#[verifier::external_body]
pub(crate) fn skipmap_insert(m: &mut SkipMap<Bytes, Bytes>, key: Bytes, value: Bytes)
    ensures
        skipmap_contents(*final(m)) == skipmap_contents(*old(m)).insert(
            bytes_contents(key),
            bytes_contents(value),
        ),
{
    m.insert(key, value);
}

/// `SkipMap::range` walks the entries whose keys lie between the two
/// bounds, in ascending order of the keys and without leaving one out; each
/// is handed out as clones of its key and value. Bounds that admit no key
/// give no entry.
#[verifier::external_body]
pub(crate) fn skipmap_range(
    m: &SkipMap<Bytes, Bytes>,
    lower: Bound<&[u8]>,
    upper: Bound<&[u8]>,
) -> (items: Vec<(Bytes, Bytes)>)
    ensures
        is_scan_of(skipmap_contents(*m), lower, upper, entry_views(items@)),
{
    m.range::<[u8], _>((lower, upper)).map(|entry| (entry.key().clone(), entry.value().clone())).collect()
}

} // verus!
