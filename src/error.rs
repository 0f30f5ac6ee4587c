use vstd::prelude::*;

verus! {

/// Failure kinds surfaced by the storage engine and the command layer.
#[derive(Debug, Clone, PartialEq, Eq)]
pub enum DbError {
    InvalidCommand(String),
    KeyNotFound(String),
    SaveFailed(String),
    LoadFailed(String),
    WalStoreFailed(String),
    SSTableReadFailed(String),
    SSTableWriteFailed(String),
}

} // verus!
