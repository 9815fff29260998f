//! Tests — Hint Validation
#![allow(unused_imports, unused_mut, dead_code, unused_variables)]
use std::collections::HashMap;
use dig_coinstore::coin_store::CoinStore;
use dig_coinstore::config::{CoinStoreConfig, StorageBackend};
use dig_coinstore::error::CoinStoreError;
use dig_coinstore::hints::{validate_hint, HintAction, HintError, MAX_HINT_LENGTH};
use dig_coinstore::merkle::{
    empty_hash, merkle_leaf_hash, merkle_node_hash, MerkleError, SparseMerkleTree, SMT_HEIGHT,
};
use dig_coinstore::{
    ApplyBlockResult, BlockData, Bytes32, Coin, CoinAddition, CoinId, CoinRecord, CoinState,
    CoinStoreSnapshot, CoinStoreStats, RollbackResult,
};

fn test_hash(seed: u8) -> Bytes32 {
    Bytes32::new([seed; 32])
}

fn test_coin(parent_seed: u8, puzzle_seed: u8, amount: u64) -> Coin {
    Coin::new(test_hash(parent_seed), test_hash(puzzle_seed), amount)
}

fn coins_map(s: &CoinStoreSnapshot) -> &'static HashMap<CoinId, CoinRecord> {
    Box::leak(Box::new(s.coins.iter().cloned().collect()))
}

fn hint_map(v: Vec<(CoinId, Vec<Bytes32>)>) -> HashMap<CoinId, Vec<Bytes32>> {
    v.into_iter().collect()
}
#[test]
fn vv_req_hnt_001_max_hint_length_constant() {
    assert_eq!(
        MAX_HINT_LENGTH, 32,
        "MAX_HINT_LENGTH must be 32"
    );
}
#[test]
fn vv_req_hnt_001_empty_hint_skipped() {
    let result = validate_hint(&[]);
    assert!(result.is_ok(), "Empty hint must not error");
    assert_eq!(
        result.unwrap(),
        HintAction::Skip,
        "Empty hint must return Skip"
    );
}
#[test]
fn vv_req_hnt_001_hint_too_long_33() {
    let hint = vec![0u8; 33];
    let result = validate_hint(&hint);
    assert!(result.is_err(), "33-byte hint must error");
    match result.unwrap_err() {
        dig_coinstore::hints::HintError::HintTooLong { length, max } => {
            assert_eq!(length, 33);
            assert_eq!(max, 32);
        }
    }
}
#[test]
fn vv_req_hnt_001_hint_too_long_64() {
    let hint = vec![0u8; 64];
    let result = validate_hint(&hint);
    assert!(result.is_err());
    match result.unwrap_err() {
        dig_coinstore::hints::HintError::HintTooLong { length, max } => {
            assert_eq!(length, 64);
            assert_eq!(max, 32);
        }
    }
}
#[test]
fn vv_req_hnt_001_hint_32_bytes_valid() {
    let hint = [0xABu8; 32];
    let result = validate_hint(&hint);
    assert!(result.is_ok());
    assert_eq!(result.unwrap(), HintAction::Store);
}
#[test]
fn vv_req_hnt_001_hint_1_byte_valid() {
    let result = validate_hint(&[0x42]);
    assert!(result.is_ok());
    assert_eq!(result.unwrap(), HintAction::Store);
}
#[test]
fn vv_req_hnt_001_hint_31_bytes_valid() {
    let hint = vec![0xCDu8; 31];
    let result = validate_hint(&hint);
    assert!(result.is_ok());
    assert_eq!(result.unwrap(), HintAction::Store);
}
#[test]
fn vv_req_hnt_001_hint_16_bytes_valid() {
    let hint = vec![0xEFu8; 16];
    let result = validate_hint(&hint);
    assert!(result.is_ok());
    assert_eq!(result.unwrap(), HintAction::Store);
}
