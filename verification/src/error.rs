//! Error types for coinstore operations.
//!
//! [`CoinStoreError`] is the single failure type for fallible store operations. Storage and
//! serialization failures carry a message string so the enum stays `Clone + PartialEq`.
use crate::bytes::Bytes32;
use crate::text::{push_decimal, push_hex, push_signed_decimal, spec_decimal, spec_hex, spec_signed_decimal};
use crate::types::CoinId;
use vstd::prelude::*;
use vstd::string::StringExecFns;

verus! {

/// Errors returned by the store and related APIs.
#[derive(Debug, Clone, PartialEq)]
pub enum CoinStoreError {
    /// Next block height does not equal `current_height + 1`.
    HeightMismatch { expected: u64, got: u64 },
    /// Block's parent hash does not match the stored chain tip hash.
    ParentHashMismatch { expected: Bytes32, got: Bytes32 },
    /// Optional state-root check failed after applying block effects.
    StateRootMismatch { expected: Bytes32, computed: Bytes32 },
    /// Removal referenced a coin id not present in the store.
    CoinNotFound(CoinId),
    /// Addition introduced a coin id that already exists.
    CoinAlreadyExists(CoinId),
    /// Spend of a coin that is already marked spent.
    DoubleSpend(CoinId),
    /// Number of spend updates did not match removals.
    SpendCountMismatch { expected: usize, actual: usize },
    /// Reward coin count invalid for height.
    InvalidRewardCoinCount { expected: String, got: usize },
    /// Hint length exceeds the limit.
    HintTooLong { length: usize, max: usize },
    /// Genesis was requested on an initialized store.
    GenesisAlreadyInitialized,
    /// Operation requires genesis but it has not run.
    NotInitialized,
    /// Rollback target height is strictly above the current chain tip.
    RollbackAboveTip { target: i64, current: u64 },
    /// Too many puzzle hashes in one batch request.
    PuzzleHashBatchTooLarge { size: usize, max: usize },
    /// Backend I/O failure.
    StorageError(String),
    /// Encode failure.
    SerializationError(String),
    /// Decode failure.
    DeserializationError(String),
}

#[verifier::external_type_specification]
#[verifier::external_body]
pub struct ExBincodeErrorKind(bincode::ErrorKind);

/// Calls `ToString::to_string` on a `bincode::Error`; nothing is claimed of the text.
#[verifier::external_body]
fn bincode_error_text(err: &Box<bincode::ErrorKind>) -> String {
    err.to_string()
}

impl CoinStoreError {
    /// Wrap a `bincode` decode error as [`CoinStoreError::DeserializationError`].
    pub fn from_bincode_deserialize(err: Box<bincode::ErrorKind>) -> (r: Self)
        ensures
            r is DeserializationError,
    {
        CoinStoreError::DeserializationError(bincode_error_text(&err))
    }

    /// Wrap a `bincode` encode error as [`CoinStoreError::SerializationError`].
    pub fn from_bincode_serialize(err: Box<bincode::ErrorKind>) -> (r: Self)
        ensures
            r is SerializationError,
    {
        CoinStoreError::SerializationError(bincode_error_text(&err))
    }
}

/// The message of an error: a fixed wording per variant, with numbers in decimal and hashes in
/// lowercase hexadecimal.
pub open spec fn spec_message(e: CoinStoreError) -> Seq<char> {
    match e {
        CoinStoreError::HeightMismatch { expected, got } => "block height "@ + spec_decimal(
            got as nat,
        ) + " does not follow current height "@ + spec_decimal(expected as nat),
        CoinStoreError::ParentHashMismatch { expected, got } => "parent hash mismatch: expected "@
            + spec_hex(expected@) + ", got "@ + spec_hex(got@),
        CoinStoreError::StateRootMismatch { expected, computed } => "state root mismatch: expected "@
            + spec_hex(expected@) + ", computed "@ + spec_hex(computed@),
        CoinStoreError::CoinNotFound(id) => "coin not found: "@ + spec_hex(id@),
        CoinStoreError::CoinAlreadyExists(id) => "coin already exists: "@ + spec_hex(id@),
        CoinStoreError::DoubleSpend(id) => "double spend: coin "@ + spec_hex(id@)
            + " already spent"@,
        CoinStoreError::SpendCountMismatch { expected, actual } => "spend count mismatch: expected "@
            + spec_decimal(expected as nat) + " updates, got "@ + spec_decimal(actual as nat),
        CoinStoreError::InvalidRewardCoinCount { expected, got } =>
            "invalid reward coin count: expected "@ + expected@ + ", got "@ + spec_decimal(
            got as nat,
        ),
        CoinStoreError::HintTooLong { length, max } => "hint too long: "@ + spec_decimal(
            length as nat,
        ) + " bytes exceeds maximum "@ + spec_decimal(max as nat),
        CoinStoreError::GenesisAlreadyInitialized => "genesis already initialized"@,
        CoinStoreError::NotInitialized => "coinstate not initialized (call init_genesis first)"@,
        CoinStoreError::RollbackAboveTip { target, current } =>
            "cannot rollback: target height "@ + spec_signed_decimal(target as int)
            + " above current height "@ + spec_decimal(current as nat),
        CoinStoreError::PuzzleHashBatchTooLarge { size, max } => "puzzle hash batch size "@
            + spec_decimal(size as nat) + " exceeds maximum "@ + spec_decimal(max as nat),
        CoinStoreError::StorageError(m) => "storage error: "@ + m@,
        CoinStoreError::SerializationError(m) => "serialization error: "@ + m@,
        CoinStoreError::DeserializationError(m) => "deserialization error: "@ + m@,
    }
}

impl CoinStoreError {
    /// The human-readable message of this error ([`spec_message`]).
    pub fn to_string(&self) -> (r: String)
        ensures
            r@ == spec_message(*self),
    {
        match self {
            CoinStoreError::HeightMismatch { expected, got } => {
                let mut s = String::from_str("block height ");
                push_decimal(&mut s, *got);
                s.append(" does not follow current height ");
                push_decimal(&mut s, *expected);
                s
            },
            CoinStoreError::ParentHashMismatch { expected, got } => {
                let mut s = String::from_str("parent hash mismatch: expected ");
                push_hex(&mut s, expected);
                s.append(", got ");
                push_hex(&mut s, got);
                s
            },
            CoinStoreError::StateRootMismatch { expected, computed } => {
                let mut s = String::from_str("state root mismatch: expected ");
                push_hex(&mut s, expected);
                s.append(", computed ");
                push_hex(&mut s, computed);
                s
            },
            CoinStoreError::CoinNotFound(id) => {
                let mut s = String::from_str("coin not found: ");
                push_hex(&mut s, id);
                s
            },
            CoinStoreError::CoinAlreadyExists(id) => {
                let mut s = String::from_str("coin already exists: ");
                push_hex(&mut s, id);
                s
            },
            CoinStoreError::DoubleSpend(id) => {
                let mut s = String::from_str("double spend: coin ");
                push_hex(&mut s, id);
                s.append(" already spent");
                s
            },
            CoinStoreError::SpendCountMismatch { expected, actual } => {
                let mut s = String::from_str("spend count mismatch: expected ");
                push_decimal(&mut s, *expected as u64);
                s.append(" updates, got ");
                push_decimal(&mut s, *actual as u64);
                s
            },
            CoinStoreError::InvalidRewardCoinCount { expected, got } => {
                let mut s = String::from_str("invalid reward coin count: expected ");
                s.append(expected.as_str());
                s.append(", got ");
                push_decimal(&mut s, *got as u64);
                s
            },
            CoinStoreError::HintTooLong { length, max } => {
                let mut s = String::from_str("hint too long: ");
                push_decimal(&mut s, *length as u64);
                s.append(" bytes exceeds maximum ");
                push_decimal(&mut s, *max as u64);
                s
            },
            CoinStoreError::GenesisAlreadyInitialized => String::from_str(
                "genesis already initialized",
            ),
            CoinStoreError::NotInitialized => String::from_str(
                "coinstate not initialized (call init_genesis first)",
            ),
            CoinStoreError::RollbackAboveTip { target, current } => {
                let mut s = String::from_str("cannot rollback: target height ");
                push_signed_decimal(&mut s, *target);
                s.append(" above current height ");
                push_decimal(&mut s, *current);
                s
            },
            CoinStoreError::PuzzleHashBatchTooLarge { size, max } => {
                let mut s = String::from_str("puzzle hash batch size ");
                push_decimal(&mut s, *size as u64);
                s.append(" exceeds maximum ");
                push_decimal(&mut s, *max as u64);
                s
            },
            CoinStoreError::StorageError(m) => String::from_str("storage error: ").concat(m.as_str()),
            CoinStoreError::SerializationError(m) => String::from_str("serialization error: ").concat(
                m.as_str(),
            ),
            CoinStoreError::DeserializationError(m) => String::from_str(
                "deserialization error: ",
            ).concat(m.as_str()),
        }
    }
}

} // verus!
