use vstd::prelude::*;

verus! {

/// Error taxonomy of the vault.
#[derive(Debug, Clone)]
pub enum NeuralVaultError {
    /// Identifier absent, or the resolved record is tombstoned.
    DocumentNotFound(String),
    /// Collection absent.
    CollectionNotFound(String),
    /// Malformed predicate or operator.
    InvalidQuery(String),
    /// I/O failure or checksum mismatch indicating corruption.
    StorageError(String),
    /// A record's payload could not be encoded or decoded.
    SerializationError(String),
    /// Underlying I/O failure surfaced verbatim.
    IoError(String),
    /// A lock could not be taken.
    LockError(String),
    /// The position index is inconsistent.
    IndexError(String),
    /// Operation attempted before setup.
    NotInitialized,
    /// Startup path conflict.
    AlreadyExists(String),
    /// Invalid configuration.
    InvalidConfiguration(String),
    /// Transaction failure.
    TransactionError(String),
    /// Validation failure.
    ValidationError(String),
}

pub type NVResult<T> = Result<T, NeuralVaultError>;

} // verus!
