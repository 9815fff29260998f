//! Tests — Parallel Removal Validation via In-Memory Unspent Set
#![allow(unused_imports, unused_mut, dead_code, unused_variables)]
use std::collections::HashMap;
use dig_coinstore::coin_store::CoinStore;
use dig_coinstore::config::{CoinStoreConfig, StorageBackend};
use dig_coinstore::error::CoinStoreError;
use dig_coinstore::hints::{validate_hint, HintAction, HintError, MAX_HINT_LENGTH};
use dig_coinstore::merkle::{
    empty_hash, merkle_leaf_hash, merkle_node_hash, MerkleError, SparseMerkleTree, SMT_HEIGHT,
};
use dig_coinstore::{
    ApplyBlockResult, BlockData, Bytes32, Coin, CoinAddition, CoinId, CoinRecord, CoinState,
    CoinStoreSnapshot, CoinStoreStats, RollbackResult,
};

fn test_hash(seed: u8) -> Bytes32 {
    Bytes32::new([seed; 32])
}

fn test_coin(parent_seed: u8, puzzle_seed: u8, amount: u64) -> Coin {
    Coin::new(test_hash(parent_seed), test_hash(puzzle_seed), amount)
}

fn coins_map(s: &CoinStoreSnapshot) -> &'static HashMap<CoinId, CoinRecord> {
    Box::leak(Box::new(s.coins.iter().cloned().collect()))
}

fn hint_map(v: Vec<(CoinId, Vec<Bytes32>)>) -> HashMap<CoinId, Vec<Bytes32>> {
    v.into_iter().collect()
}
fn make_block(height: u64, parent_hash: Bytes32, block_hash: Bytes32) -> BlockData {
    let coinbase_coins = if height == 0 {
        vec![]
    } else {
        vec![
            test_coin(200 + height as u8, 201, 1_750_000_000_000),
            test_coin(202 + height as u8, 203, 250_000_000_000),
        ]
    };
    BlockData {
        height,
        timestamp: 1_700_000_000 + height * 18,
        block_hash,
        parent_hash,
        additions: vec![],
        removals: vec![],
        coinbase_coins,
        hints: vec![],
        expected_state_root: None,
    }
}
#[test]
fn vv_req_con_004_large_removal_batch() {
    let mut store = CoinStore::new("./coinstate").unwrap();

    let mut genesis_coins = Vec::new();
    let mut removal_ids = Vec::new();
    for i in 0..50u8 {
        let coin = test_coin(i, 100, 1000 + i as u64);
        removal_ids.push(coin.coin_id());
        genesis_coins.push((coin, false));
    }
    store.init_genesis(genesis_coins, 1_700_000_000).unwrap();

    let mut block = make_block(1, Bytes32::new([0u8; 32]), test_hash(0xC1));
    block.removals = removal_ids.clone();
    let result = store.apply_block(block).unwrap();
    assert_eq!(result.coins_spent, 50, "All 50 coins should be spent");
    for id in &removal_ids {
        let rec = store.get_coin_record(id).unwrap().unwrap();
        assert!(rec.is_spent(), "Coin should be spent after removal");
        assert_eq!(rec.spent_height, Some(1));
    }
}
#[test]
fn vv_req_con_004_invalid_removal_rejects_entire_block() {
    let mut store = CoinStore::new("./coinstate").unwrap();

    let mut genesis_coins = Vec::new();
    let mut removal_ids = Vec::new();
    for i in 0..49u8 {
        let coin = test_coin(i, 100, 1000);
        removal_ids.push(coin.coin_id());
        genesis_coins.push((coin, false));
    }
    store.init_genesis(genesis_coins, 1_700_000_000).unwrap();
    let fake_id = test_coin(99, 99, 99).coin_id();
    removal_ids.push(fake_id);

    let mut block = make_block(1, Bytes32::new([0u8; 32]), test_hash(0xC3));
    block.removals = removal_ids;
    let err = store.apply_block(block).unwrap_err();
    assert!(
        matches!(err, CoinStoreError::CoinNotFound(_)),
        "Block with invalid removal must fail: {:?}",
        err
    );
    assert_eq!(store.height(), 0, "Failed block must not change height");
}
#[test]
fn vv_req_con_004_double_spend_across_blocks() {
    let mut store = CoinStore::new("./coinstate").unwrap();
    let coin = test_coin(1, 2, 500);
    let id = coin.coin_id();
    store
        .init_genesis(vec![(coin, false)], 1_700_000_000)
        .unwrap();
    let hash1 = test_hash(0xB1);
    let mut b1 = make_block(1, Bytes32::new([0u8; 32]), hash1);
    b1.removals = vec![id];
    store.apply_block(b1).unwrap();
    let hash2 = test_hash(0xB2);
    let mut b2 = make_block(2, hash1, hash2);
    b2.removals = vec![id];
    let err = store.apply_block(b2).unwrap_err();
    assert!(
        matches!(err, CoinStoreError::DoubleSpend(_)),
        "Double spend must be detected: {:?}",
        err
    );
}
#[test]
fn vv_req_con_004_additions_and_removals_same_block() {
    let mut store = CoinStore::new("./coinstate").unwrap();
    let old_coin = test_coin(1, 2, 500);
    let old_id = old_coin.coin_id();
    store
        .init_genesis(vec![(old_coin, false)], 1_700_000_000)
        .unwrap();

    let new_coin = test_coin(10, 11, 999);
    let new_id = new_coin.coin_id();
    let mut block = make_block(1, Bytes32::new([0u8; 32]), test_hash(0xC5));
    block.removals = vec![old_id];
    block.additions = vec![CoinAddition::from_coin(new_coin, false)];
    let result = store.apply_block(block).unwrap();
    assert_eq!(result.coins_spent, 1);
    assert_eq!(result.coins_created, 3);
    let old_rec = store.get_coin_record(&old_id).unwrap().unwrap();
    assert!(old_rec.is_spent(), "Old coin should be spent");
    let new_rec = store.get_coin_record(&new_id).unwrap().unwrap();
    assert!(!new_rec.is_spent(), "New coin should be unspent");
}
#[test]
fn vv_req_con_004_validation_prevents_partial_mutation() {
    let mut store = CoinStore::new("./coinstate").unwrap();
    store.init_genesis(vec![], 1_700_000_000).unwrap();

    let new_coin = test_coin(50, 51, 999);
    let fake_removal = test_coin(99, 99, 99).coin_id();

    let mut block = make_block(1, Bytes32::new([0u8; 32]), test_hash(0xC6));
    block.additions = vec![CoinAddition::from_coin(new_coin, false)];
    block.removals = vec![fake_removal];

    let err = store.apply_block(block).unwrap_err();
    assert!(matches!(err, CoinStoreError::CoinNotFound(_)));
    assert_eq!(store.height(), 0);
    let rec = store.get_coin_record(&new_coin.coin_id()).unwrap();
    assert!(
        rec.is_none(),
        "Failed block should not persist any additions"
    );
}
