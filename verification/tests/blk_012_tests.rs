//! Tests — Hint Storage in Phase 2
#![allow(unused_imports, unused_mut, dead_code, unused_variables)]
use std::collections::HashMap;
use dig_coinstore::coin_store::CoinStore;
use dig_coinstore::config::{CoinStoreConfig, StorageBackend};
use dig_coinstore::error::CoinStoreError;
use dig_coinstore::hints::{validate_hint, HintAction, HintError, MAX_HINT_LENGTH};
use dig_coinstore::merkle::{
    empty_hash, merkle_leaf_hash, merkle_node_hash, MerkleError, SparseMerkleTree, SMT_HEIGHT,
};
use dig_coinstore::{
    ApplyBlockResult, BlockData, Bytes32, Coin, CoinAddition, CoinId, CoinRecord, CoinState,
    CoinStoreSnapshot, CoinStoreStats, RollbackResult,
};

fn test_hash(seed: u8) -> Bytes32 {
    Bytes32::new([seed; 32])
}

fn test_coin(parent_seed: u8, puzzle_seed: u8, amount: u64) -> Coin {
    Coin::new(test_hash(parent_seed), test_hash(puzzle_seed), amount)
}

fn coins_map(s: &CoinStoreSnapshot) -> &'static HashMap<CoinId, CoinRecord> {
    Box::leak(Box::new(s.coins.iter().cloned().collect()))
}

fn hint_map(v: Vec<(CoinId, Vec<Bytes32>)>) -> HashMap<CoinId, Vec<Bytes32>> {
    v.into_iter().collect()
}
fn make_block(height: u64, parent_hash: Bytes32, block_hash: Bytes32) -> BlockData {
    let coinbase_coins = vec![
        test_coin(200 + height as u8, 201, 1_750_000_000_000),
        test_coin(202 + height as u8, 203, 250_000_000_000),
    ];
    BlockData {
        height,
        timestamp: 1_700_000_000 + height * 18,
        block_hash,
        parent_hash,
        additions: vec![],
        removals: vec![],
        coinbase_coins,
        hints: vec![],
        expected_state_root: None,
    }
}
#[test]
fn vv_req_blk_012_hints_stored_in_forward_index() {
    let mut store = CoinStore::new("./coinstate").unwrap();
    store.init_genesis(vec![], 1_700_000_000).unwrap();

    assert_eq!(
        store.stats().hint_count,
        0,
        "No hints before any block applied"
    );

    let coin = test_coin(10, 11, 500);
    let coin_id = coin.coin_id();
    let hint_value = test_hash(42);

    let mut block = make_block(1, Bytes32::new([0u8; 32]), test_hash(0xB1));
    block.additions = vec![CoinAddition::from_coin(coin, false)];
    block.hints = vec![(coin_id, hint_value)];

    store.apply_block(block).unwrap();

    assert_eq!(
        store.stats().hint_count,
        1,
        "One hint must be stored in the forward index after apply_block"
    );
}
#[test]
fn vv_req_blk_012_duplicate_hints_idempotent() {
    let mut store = CoinStore::new("./coinstate").unwrap();
    store.init_genesis(vec![], 1_700_000_000).unwrap();

    let coin = test_coin(10, 11, 500);
    let coin_id = coin.coin_id();
    let hint_value = test_hash(42);

    let mut block = make_block(1, Bytes32::new([0u8; 32]), test_hash(0xB1));
    block.additions = vec![CoinAddition::from_coin(coin, false)];
    block.hints = vec![(coin_id, hint_value), (coin_id, hint_value)];

    let result = store.apply_block(block);
    assert!(
        result.is_ok(),
        "Duplicate hint pairs must not cause an error: {:?}",
        result.err()
    );
    assert_eq!(
        store.stats().hint_count,
        1,
        "Duplicate (coin_id, hint) should be idempotent — only 1 entry in forward index"
    );
}
#[test]
fn vv_req_blk_012_multiple_hints_same_coin() {
    let mut store = CoinStore::new("./coinstate").unwrap();
    store.init_genesis(vec![], 1_700_000_000).unwrap();

    let coin = test_coin(10, 11, 500);
    let coin_id = coin.coin_id();
    let hint_a = test_hash(42);
    let hint_b = test_hash(43);

    let mut block = make_block(1, Bytes32::new([0u8; 32]), test_hash(0xB1));
    block.additions = vec![CoinAddition::from_coin(coin, false)];
    block.hints = vec![(coin_id, hint_a), (coin_id, hint_b)];

    store.apply_block(block).unwrap();

    assert_eq!(
        store.stats().hint_count,
        2,
        "Two distinct hints for the same coin must produce 2 forward-index entries"
    );
}
#[test]
fn vv_req_blk_012_hints_accumulate_across_blocks() {
    let mut store = CoinStore::new("./coinstate").unwrap();
    store.init_genesis(vec![], 1_700_000_000).unwrap();

    let coin_a = test_coin(10, 11, 500);
    let coin_a_id = coin_a.coin_id();
    let hint_a = test_hash(42);

    let coin_b = test_coin(20, 21, 600);
    let coin_b_id = coin_b.coin_id();
    let hint_b = test_hash(43);
    let hash1 = test_hash(0xB1);
    let mut b1 = make_block(1, Bytes32::new([0u8; 32]), hash1);
    b1.additions = vec![CoinAddition::from_coin(coin_a, false)];
    b1.hints = vec![(coin_a_id, hint_a)];
    store.apply_block(b1).unwrap();

    assert_eq!(store.stats().hint_count, 1, "One hint after block 1");
    let hash2 = test_hash(0xB2);
    let mut b2 = make_block(2, hash1, hash2);
    b2.additions = vec![CoinAddition::from_coin(coin_b, false)];
    b2.hints = vec![(coin_b_id, hint_b)];
    store.apply_block(b2).unwrap();

    assert_eq!(
        store.stats().hint_count,
        2,
        "Two hints after block 2 (hints from both blocks must be retained)"
    );
}
