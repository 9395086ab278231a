//! What every iterator of the storage core offers, and the iterators that
//! merge others.

pub mod merge_iterator;
pub mod merge_laws;
pub mod merge_state;
pub mod source_heap;
pub mod two_merge_iterator;

use crate::block::advance;
use crate::block::head_key;
use crate::block::head_value;
use crate::block::Entry;
use crate::error::StorageError;
use vstd::prelude::*;

pub use merge_iterator::MergeIterator;
pub use two_merge_iterator::TwoMergeIterator;

verus! {

/// A forward cursor over key-value entries.
///
/// The contracts speak of `pending`: the entries that the iterator has yet
/// to show, the current one first. The iterator is valid while that sequence
/// is not empty.
pub trait StorageIterator {
    /// What the iterator needs to hold of itself; every operation keeps it.
    spec fn inv(&self) -> bool;

    /// The entries from the current one on.
    spec fn pending(&self) -> Seq<Entry>;

    /// No move of this iterator fails, now or after any number of moves. An
    /// iterator that cannot tell says no.
    spec fn never_fails(&self) -> bool;

    /// The value of the current entry; no bytes where there is none.
    fn value(&self) -> (v: &[u8])
        requires
            self.inv(),
        ensures
            v@ == head_value(self.pending()),
    ;

    /// The key of the current entry; no bytes where there is none.
    fn key(&self) -> (k: &[u8])
        requires
            self.inv(),
        ensures
            k@ == head_key(self.pending()),
    ;

    /// Whether there is a current entry.
    fn is_valid(&self) -> (valid: bool)
        requires
            self.inv(),
        ensures
            valid == (self.pending().len() > 0),
    ;

    /// Moves to the next entry. Where the move fails the iterator stays
    /// usable, but nothing is promised of what it still holds. An iterator
    /// that never fails moves, and goes on never failing.
    fn next(&mut self) -> (r: Result<(), StorageError>)
        requires
            old(self).inv(),
        ensures
            final(self).inv(),
            r is Ok ==> final(self).pending() == advance(old(self).pending()),
            old(self).never_fails() ==> r is Ok && final(self).never_fails(),
    ;
}

} // verus!
