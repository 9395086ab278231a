//! The one error type of the storage core.

use vstd::prelude::*;

verus! {

/// Why an operation of the storage core failed.
#[derive(Clone, Copy, Debug, PartialEq, Eq, Structural)]
pub enum StorageError {
    /// The bytes of a block do not follow the block layout.
    CorruptBlock,
    /// The bytes of a block index do not follow the index layout.
    CorruptMeta,
    /// A read asked for bytes that the file does not hold.
    ReadOutOfRange,
    /// A table was asked for a block it does not have.
    NoSuchBlock,
}

} // verus!
