//! Errors of the provider.
use crate::primitives::B256;
use vstd::prelude::*;

verus! {

/// A state root that differs from the one expected, with the block it was
/// checked against.
#[derive(Clone, Copy, Debug, PartialEq, Eq, Structural)]
pub struct RootMismatch {
    pub got: B256,
    pub expected: B256,
    pub block_number: u64,
    pub block_hash: B256,
}

/// What can go wrong in a provider operation.
#[derive(Clone, Copy, Debug, PartialEq, Eq, Structural)]
pub enum ProviderError {
    /// No header is stored for this block number.
    HeaderNotFound(u64),
    /// A block's body names more transactions than are stored.
    BlockBodyTransactionCount,
    /// A transaction and its sender do not line up.
    MismatchOfTransactionAndSenderId { tx_id: u64 },
    /// A sender could not be recovered from a signature.
    SenderRecoveryError,
    /// The state root after inserting hashes is not the expected one.
    StateRootMismatch(RootMismatch),
    /// The state root after unwinding is not the parent block's.
    UnwindStateRootMismatch(RootMismatch),
    /// The static files do not serve this kind of data.
    UnsupportedProvider,
    /// A header appended to the static files does not follow the last one.
    UnexpectedStaticFileBlockNumber { expected: u64, got: u64 },
    /// Transaction numbers would pass `u64::MAX`.
    TransactionNumberOverflow,
}

} // verus!
