//! Tests — Reward Coin Count Assertion
#![allow(unused_imports, unused_mut, dead_code, unused_variables)]
use std::collections::HashMap;
use dig_coinstore::coin_store::CoinStore;
use dig_coinstore::config::{CoinStoreConfig, StorageBackend};
use dig_coinstore::error::CoinStoreError;
use dig_coinstore::hints::{validate_hint, HintAction, HintError, MAX_HINT_LENGTH};
use dig_coinstore::merkle::{
    empty_hash, merkle_leaf_hash, merkle_node_hash, MerkleError, SparseMerkleTree, SMT_HEIGHT,
};
use dig_coinstore::{
    ApplyBlockResult, BlockData, Bytes32, Coin, CoinAddition, CoinId, CoinRecord, CoinState,
    CoinStoreSnapshot, CoinStoreStats, RollbackResult,
};

fn test_hash(seed: u8) -> Bytes32 {
    Bytes32::new([seed; 32])
}

fn test_coin(parent_seed: u8, puzzle_seed: u8, amount: u64) -> Coin {
    Coin::new(test_hash(parent_seed), test_hash(puzzle_seed), amount)
}

fn coins_map(s: &CoinStoreSnapshot) -> &'static HashMap<CoinId, CoinRecord> {
    Box::leak(Box::new(s.coins.iter().cloned().collect()))
}

fn hint_map(v: Vec<(CoinId, Vec<Bytes32>)>) -> HashMap<CoinId, Vec<Bytes32>> {
    v.into_iter().collect()
}
fn make_block_with_coinbase(
    height: u64,
    parent_hash: Bytes32,
    block_hash: Bytes32,
    coinbase_coins: Vec<Coin>,
) -> BlockData {
    BlockData {
        height,
        timestamp: 1_700_000_000 + height * 18,
        block_hash,
        parent_hash,
        additions: vec![],
        removals: vec![],
        coinbase_coins,
        hints: vec![],
        expected_state_root: None,
    }
}
fn make_coinbase_coins(count: u8, height: u64) -> Vec<Coin> {
    (0..count)
        .map(|i| {
            test_coin(
                200 + height as u8 + i * 2,
                201 + i * 2,
                1_000_000_000_000 + i as u64 * 100,
            )
        })
        .collect()
}
#[test]
fn vv_req_blk_004_two_coinbase_succeeds() {
    let mut store = CoinStore::new("./coinstate").unwrap();
    store.init_genesis(vec![], 1_700_000_000).unwrap();

    let coinbase = make_coinbase_coins(2, 1);
    let block = make_block_with_coinbase(
        1,
        Bytes32::new([0u8; 32]),
        test_hash(0xB1),
        coinbase,
    );
    let result = store.apply_block(block);
    assert!(
        result.is_ok(),
        "2 coinbase coins (minimum) must succeed: {:?}",
        result.err()
    );
    assert_eq!(store.height(), 1);
}
#[test]
fn vv_req_blk_004_zero_coinbase_fails() {
    let mut store = CoinStore::new("./coinstate").unwrap();
    store.init_genesis(vec![], 1_700_000_000).unwrap();

    let block = make_block_with_coinbase(
        1,
        Bytes32::new([0u8; 32]),
        test_hash(0xB1),
        vec![],
    );
    let err = store.apply_block(block).unwrap_err();
    match err {
        CoinStoreError::InvalidRewardCoinCount { ref expected, got } => {
            assert!(
                expected.contains("2"),
                "Expected message should reference the minimum of 2, got: {}",
                expected
            );
            assert_eq!(got, 0, "Got field must be 0 for empty coinbase");
        }
        other => panic!("Expected InvalidRewardCoinCount, got: {:?}", other),
    }
}
#[test]
fn vv_req_blk_004_one_coinbase_fails() {
    let mut store = CoinStore::new("./coinstate").unwrap();
    store.init_genesis(vec![], 1_700_000_000).unwrap();

    let coinbase = make_coinbase_coins(1, 1);
    let block = make_block_with_coinbase(
        1,
        Bytes32::new([0u8; 32]),
        test_hash(0xB1),
        coinbase,
    );
    let err = store.apply_block(block).unwrap_err();
    match err {
        CoinStoreError::InvalidRewardCoinCount { ref expected, got } => {
            assert!(
                expected.contains("2"),
                "Expected message should reference the minimum of 2, got: {}",
                expected
            );
            assert_eq!(got, 1, "Got field must be 1 for single coinbase");
        }
        other => panic!("Expected InvalidRewardCoinCount, got: {:?}", other),
    }
}
#[test]
fn vv_req_blk_004_three_coinbase_succeeds() {
    let mut store = CoinStore::new("./coinstate").unwrap();
    store.init_genesis(vec![], 1_700_000_000).unwrap();

    let coinbase = make_coinbase_coins(3, 1);
    let block = make_block_with_coinbase(
        1,
        Bytes32::new([0u8; 32]),
        test_hash(0xB1),
        coinbase,
    );
    let result = store.apply_block(block);
    assert!(
        result.is_ok(),
        "3 coinbase coins must succeed: {:?}",
        result.err()
    );
}
#[test]
fn vv_req_blk_004_five_coinbase_succeeds() {
    let mut store = CoinStore::new("./coinstate").unwrap();
    store.init_genesis(vec![], 1_700_000_000).unwrap();

    let coinbase = make_coinbase_coins(5, 1);
    let block = make_block_with_coinbase(
        1,
        Bytes32::new([0u8; 32]),
        test_hash(0xB1),
        coinbase,
    );
    let result = store.apply_block(block);
    assert!(
        result.is_ok(),
        "5 coinbase coins must succeed: {:?}",
        result.err()
    );
}
