use vstd::prelude::*;
use crate::state::U256;

verus! {

/// A pair of values where one was found and another one was required.
#[derive(Debug, Clone, Copy, PartialEq, Eq, Structural)]
pub struct GotExpected {
    pub got: U256,
    pub expected: U256,
}

/// Ways in which a transaction can fail validation.
#[derive(Debug, Clone, Copy, PartialEq, Eq, Structural)]
pub enum InvalidTransactionError {
    /// The sender does not have enough funds to cover the transaction fees.
    InsufficientFunds(GotExpected),
    /// The nonce is lower than the account's nonce, or there is a nonce gap.
    NonceNotConsistent,
    /// The transaction is before Spurious Dragon and has a chain ID.
    OldLegacyChainId,
    /// The chain ID of the transaction does not match the network.
    ChainIdMismatch,
    /// EIP-2930 transactions are not enabled.
    Eip2930Disabled,
    /// EIP-1559 transactions are not enabled.
    Eip1559Disabled,
    /// EIP-4844 transactions are not enabled.
    Eip4844Disabled,
    /// EIP-7702 transactions are not enabled.
    Eip7702Disabled,
    /// The transaction type is not supported by the network configuration.
    TxTypeNotSupported,
    /// The gas of the transaction exceeds `u64::MAX`.
    GasUintOverflow,
    /// The transaction gives less gas than the invocation needs to start.
    GasTooLow,
    /// The transaction gas exceeds the limit.
    GasTooHigh,
    /// The priority fee is higher than the total fee cap.
    TipAboveFeeCap,
    /// The fee cap is below the base fee of the block.
    FeeCapTooLow,
    /// The sender of the transaction is a contract.
    SignerAccountHasBytecode,
}

/// Failure to turn a transaction into a pooled network transaction.
#[derive(Debug, Clone, Copy, PartialEq, Eq, Structural)]
pub enum TransactionConversionError {
    /// The transaction cannot be carried over the peer-to-peer network.
    UnsupportedForP2P,
}

/// Failure to convert a transaction with a recovered signer.
#[derive(Debug, Clone, Copy, PartialEq, Eq, Structural)]
pub enum TryFromRecoveredTransactionError {
    /// The transaction type is not supported.
    UnsupportedTransactionType(u8),
    /// A blob sidecar is missing for an EIP-4844 transaction.
    BlobSidecarMissing,
}

/// Errors of the chain view and of the fork tree engine.
#[derive(Debug, Clone, Copy, PartialEq, Eq, Structural)]
pub enum ProviderError {
    /// The identity does not resolve to any known block or state.
    NotFound,
    /// The mutation would break finality or connect to no known root.
    InvalidTransition,
}

} // verus!
