//! Errors of the file pipeline and the storage layer.
use vstd::prelude::*;

verus! {

/// Failures of the file pipeline.
#[derive(Debug, Clone, PartialEq, Eq)]
pub enum StorageError {
    FileNotFound(String),
    Encryption(String),
    ErasureCoding(String),
    InsufficientFragments { have: usize, need: usize },
    IntegrityCheckFailed,
    Io(String),
    Serialization(String),
    QuotaExceeded(String),
}

} // verus!
