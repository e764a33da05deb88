use vstd::prelude::*;

verus! {

/// Why a store operation was refused.
#[derive(Clone, Copy, Debug, PartialEq, Eq, Structural)]
pub enum StoreError {
    /// The directory belongs to another chain instance: the genesis it holds
    /// differs from the one supplied at open.
    GenesisMismatch,
    /// The block offered is not the successor of the last persisted block.
    NonSequentialAppend,
    /// Persisted data does not decode.
    EncodingFailure,
    /// The underlying engine reported an I/O error.
    StorageIOFailure,
    /// The directory is already held open by a live handle.
    LockContention,
}

impl StoreError {
    /// Whether the hosting node has to abort its start on this error.
    pub fn is_fatal(&self) -> (fatal: bool)
        ensures
            fatal == (*self == StoreError::GenesisMismatch || *self == StoreError::EncodingFailure),
    {
        match self {
            StoreError::GenesisMismatch => true,
            StoreError::EncodingFailure => true,
            _ => false,
        }
    }
}

} // verus!
