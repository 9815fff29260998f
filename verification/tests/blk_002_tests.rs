//! Tests — Height Continuity Validation
#![allow(unused_imports, unused_mut, dead_code, unused_variables)]
use std::collections::HashMap;
use dig_coinstore::coin_store::CoinStore;
use dig_coinstore::config::{CoinStoreConfig, StorageBackend};
use dig_coinstore::error::CoinStoreError;
use dig_coinstore::hints::{validate_hint, HintAction, HintError, MAX_HINT_LENGTH};
use dig_coinstore::merkle::{
    empty_hash, merkle_leaf_hash, merkle_node_hash, MerkleError, SparseMerkleTree, SMT_HEIGHT,
};
use dig_coinstore::{
    ApplyBlockResult, BlockData, Bytes32, Coin, CoinAddition, CoinId, CoinRecord, CoinState,
    CoinStoreSnapshot, CoinStoreStats, RollbackResult,
};

fn test_hash(seed: u8) -> Bytes32 {
    Bytes32::new([seed; 32])
}

fn test_coin(parent_seed: u8, puzzle_seed: u8, amount: u64) -> Coin {
    Coin::new(test_hash(parent_seed), test_hash(puzzle_seed), amount)
}

fn coins_map(s: &CoinStoreSnapshot) -> &'static HashMap<CoinId, CoinRecord> {
    Box::leak(Box::new(s.coins.iter().cloned().collect()))
}

fn hint_map(v: Vec<(CoinId, Vec<Bytes32>)>) -> HashMap<CoinId, Vec<Bytes32>> {
    v.into_iter().collect()
}
fn make_block(height: u64, parent_hash: Bytes32, block_hash: Bytes32) -> BlockData {
    let coinbase_coins = vec![
        test_coin(200 + height as u8, 201, 1_750_000_000_000),
        test_coin(202 + height as u8, 203, 250_000_000_000),
    ];
    BlockData {
        height,
        timestamp: 1_700_000_000 + height * 18,
        block_hash,
        parent_hash,
        additions: vec![],
        removals: vec![],
        coinbase_coins,
        hints: vec![],
        expected_state_root: None,
    }
}
#[test]
fn vv_req_blk_002_correct_height_succeeds() {
    let mut store = CoinStore::new("./coinstate").unwrap();
    store.init_genesis(vec![], 1_700_000_000).unwrap();

    let block = make_block(1, Bytes32::new([0u8; 32]), test_hash(0xB1));
    let result = store.apply_block(block);
    assert!(
        result.is_ok(),
        "Block at height 1 after genesis must succeed: {:?}",
        result.err()
    );
    assert_eq!(store.height(), 1);
}
#[test]
fn vv_req_blk_002_too_high_height_fails() {
    let mut store = CoinStore::new("./coinstate").unwrap();
    store.init_genesis(vec![], 1_700_000_000).unwrap();

    let block = make_block(5, Bytes32::new([0u8; 32]), test_hash(0xB5));
    let err = store.apply_block(block).unwrap_err();
    assert!(
        matches!(
            err,
            CoinStoreError::HeightMismatch {
                expected: 1,
                got: 5
            }
        ),
        "Expected HeightMismatch {{ expected: 1, got: 5 }}, got: {:?}",
        err
    );
}
#[test]
fn vv_req_blk_002_too_low_height_fails() {
    let mut store = CoinStore::new("./coinstate").unwrap();
    store.init_genesis(vec![], 1_700_000_000).unwrap();

    let block = make_block(0, Bytes32::new([0u8; 32]), test_hash(0xB0));
    let err = store.apply_block(block).unwrap_err();
    assert!(
        matches!(
            err,
            CoinStoreError::HeightMismatch {
                expected: 1,
                got: 0
            }
        ),
        "Expected HeightMismatch {{ expected: 1, got: 0 }}, got: {:?}",
        err
    );
}
#[test]
fn vv_req_blk_002_duplicate_height_fails() {
    let mut store = CoinStore::new("./coinstate").unwrap();
    store.init_genesis(vec![], 1_700_000_000).unwrap();

    let hash1 = test_hash(0xB1);
    let block1 = make_block(1, Bytes32::new([0u8; 32]), hash1);
    store.apply_block(block1).unwrap();
    assert_eq!(store.height(), 1);
    let block1_dup = make_block(1, hash1, test_hash(0xB2));
    let err = store.apply_block(block1_dup).unwrap_err();
    assert!(
        matches!(
            err,
            CoinStoreError::HeightMismatch {
                expected: 2,
                got: 1
            }
        ),
        "Expected HeightMismatch {{ expected: 2, got: 1 }}, got: {:?}",
        err
    );
}
#[test]
fn vv_req_blk_002_gap_of_two_fails() {
    let mut store = CoinStore::new("./coinstate").unwrap();
    store.init_genesis(vec![], 1_700_000_000).unwrap();

    let hash1 = test_hash(0xB1);
    let block1 = make_block(1, Bytes32::new([0u8; 32]), hash1);
    store.apply_block(block1).unwrap();
    assert_eq!(store.height(), 1);
    let block3 = make_block(3, hash1, test_hash(0xB3));
    let err = store.apply_block(block3).unwrap_err();
    assert!(
        matches!(
            err,
            CoinStoreError::HeightMismatch {
                expected: 2,
                got: 3
            }
        ),
        "Expected HeightMismatch {{ expected: 2, got: 3 }}, got: {:?}",
        err
    );
}
