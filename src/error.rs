//! The errors that reach the command boundary.
use crate::store::StorageError;
use vstd::prelude::*;

verus! {

#[derive(Debug, Clone, PartialEq, Eq)]
pub enum GatoError {
    Storage(StorageError),
    Decode,
    Compression,
    MergeConflict(String),
    GcError,
    ActiveBranchDeletionError,
    NoCommonBase,
    CorruptHistory,
}

} // verus!
