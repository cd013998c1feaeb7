//! Error types shared by the orchestrator core.

use vstd::prelude::*;

verus! {

/// An error from the general utility layer.
#[derive(Debug, Clone, PartialEq, Eq)]
pub enum MonoutilsError {
    /// A path failed validation; the payload describes the offending path.
    PathValidation(String),
    /// An I/O operation failed; the payload is the reported message.
    IoError(String),
    /// A failure reported by a collaborating subsystem, such as the shared
    /// database; the payload is its message.
    Custom(String),
}

/// The result of a utility-layer operation.
pub type MonoutilsResult<T> = Result<T, MonoutilsError>;

/// Wraps a value in a successful [`MonoutilsResult`].
pub fn ok_result<T>(value: T) -> (r: MonoutilsResult<T>)
    ensures
        r == MonoutilsResult::<T>::Ok(value),
{
    Result::Ok(value)
}

/// An error from the content-addressed block store.
#[derive(Debug, Clone, PartialEq, Eq)]
pub enum StoreError {
    /// The codec tag is not one of the supported codecs.
    UnsupportedCodec(u64),
    /// No block with the requested identifier exists in the store.
    BlockNotFound,
    /// The raw block exceeds the store's raw block size limit.
    RawBlockTooLarge,
    /// The node block exceeds the store's node block size limit.
    NodeBlockTooLarge,
}

/// The result of a store operation.
pub type StoreResult<T> = Result<T, StoreError>;

/// A reason a microVM configuration is invalid.
#[derive(Debug, Clone, PartialEq, Eq)]
pub enum InvalidMicroVMConfigError {
    /// The configured root filesystem path does not exist on the host.
    RootPathDoesNotExist(String),
    /// The configured number of virtual CPUs is zero.
    NumVCPUsIsZero,
    /// The configured amount of RAM is zero.
    RamIsZero,
}

/// An error from the orchestrator core.
#[derive(Debug, Clone, PartialEq, Eq)]
pub enum MonocoreError {
    /// A microVM configuration failed validation.
    InvalidMicroVMConfig(InvalidMicroVMConfigError),
    /// A path failed validation; the payload describes the offending path.
    PathValidation(String),
    /// A configuration was rejected; the payload names the first violation.
    InvalidConfig(String),
    /// The dependency graph of a configuration contains a cycle.
    DependencyCycle,
}

/// The result of an orchestrator-core operation.
pub type MonocoreResult<T> = Result<T, MonocoreError>;

} // verus!
