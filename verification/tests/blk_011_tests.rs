//! Tests — Hint Validation in Phase 1
#![allow(unused_imports, unused_mut, dead_code, unused_variables)]
use std::collections::HashMap;
use dig_coinstore::coin_store::CoinStore;
use dig_coinstore::config::{CoinStoreConfig, StorageBackend};
use dig_coinstore::error::CoinStoreError;
use dig_coinstore::hints::{validate_hint, HintAction, HintError, MAX_HINT_LENGTH};
use dig_coinstore::merkle::{
    empty_hash, merkle_leaf_hash, merkle_node_hash, MerkleError, SparseMerkleTree, SMT_HEIGHT,
};
use dig_coinstore::{
    ApplyBlockResult, BlockData, Bytes32, Coin, CoinAddition, CoinId, CoinRecord, CoinState,
    CoinStoreSnapshot, CoinStoreStats, RollbackResult,
};

fn test_hash(seed: u8) -> Bytes32 {
    Bytes32::new([seed; 32])
}

fn test_coin(parent_seed: u8, puzzle_seed: u8, amount: u64) -> Coin {
    Coin::new(test_hash(parent_seed), test_hash(puzzle_seed), amount)
}

fn coins_map(s: &CoinStoreSnapshot) -> &'static HashMap<CoinId, CoinRecord> {
    Box::leak(Box::new(s.coins.iter().cloned().collect()))
}

fn hint_map(v: Vec<(CoinId, Vec<Bytes32>)>) -> HashMap<CoinId, Vec<Bytes32>> {
    v.into_iter().collect()
}
fn make_block(height: u64, parent_hash: Bytes32, block_hash: Bytes32) -> BlockData {
    let coinbase_coins = vec![
        test_coin(200 + height as u8, 201, 1_750_000_000_000),
        test_coin(202 + height as u8, 203, 250_000_000_000),
    ];
    BlockData {
        height,
        timestamp: 1_700_000_000 + height * 18,
        block_hash,
        parent_hash,
        additions: vec![],
        removals: vec![],
        coinbase_coins,
        hints: vec![],
        expected_state_root: None,
    }
}
#[test]
fn vv_req_blk_011_valid_hints_succeed() {
    let mut store = CoinStore::new("./coinstate").unwrap();
    store.init_genesis(vec![], 1_700_000_000).unwrap();

    let coin = test_coin(10, 11, 500);
    let coin_id = coin.coin_id();
    let hint_value = test_hash(42);

    let mut block = make_block(1, Bytes32::new([0u8; 32]), test_hash(0xB1));
    block.additions = vec![CoinAddition::from_coin(coin, false)];
    block.hints = vec![(coin_id, hint_value)];

    let result = store.apply_block(block);
    assert!(
        result.is_ok(),
        "Block with valid 32-byte hints must succeed: {:?}",
        result.err()
    );
}
#[test]
fn vv_req_blk_011_empty_hints_succeed() {
    let mut store = CoinStore::new("./coinstate").unwrap();
    store.init_genesis(vec![], 1_700_000_000).unwrap();

    let mut block = make_block(1, Bytes32::new([0u8; 32]), test_hash(0xB1));
    block.hints = vec![];

    let result = store.apply_block(block);
    assert!(
        result.is_ok(),
        "Block with empty hints must succeed: {:?}",
        result.err()
    );
}
#[test]
fn vv_req_blk_011_zero_filled_hints_skipped() {
    let mut store = CoinStore::new("./coinstate").unwrap();
    store.init_genesis(vec![], 1_700_000_000).unwrap();

    let coin = test_coin(10, 11, 500);
    let coin_id = coin.coin_id();
    let zero_hint = Bytes32::new([0u8; 32]);

    let mut block = make_block(1, Bytes32::new([0u8; 32]), test_hash(0xB1));
    block.additions = vec![CoinAddition::from_coin(coin, false)];
    block.hints = vec![(coin_id, zero_hint)];

    store.apply_block(block).unwrap();
    let snap = store.snapshot().unwrap();
    let stored_hints_for_coin: Vec<_> = snap
        .hints
        .iter()
        .filter(|(cid, _)| *cid == coin_id)
        .collect();
    assert!(
        stored_hints_for_coin.is_empty(),
        "Zero-filled hints must be skipped and not stored; found {:?}",
        stored_hints_for_coin
    );
}
#[test]
fn vv_req_blk_011_hints_validated_before_mutations() {
    let mut store = CoinStore::new("./coinstate").unwrap();
    store.init_genesis(vec![], 1_700_000_000).unwrap();

    let coin = test_coin(20, 21, 1_000);
    let coin_id = coin.coin_id();
    let hint_value = test_hash(99);

    let mut block = make_block(1, Bytes32::new([0u8; 32]), test_hash(0xB1));
    block.additions = vec![CoinAddition::from_coin(coin, false)];
    block.hints = vec![(coin_id, hint_value)];

    let result = store.apply_block(block).unwrap();
    assert_eq!(
        result.coins_created, 3,
        "2 coinbase + 1 addition = 3 (Phase 2 mutations committed after Phase 1 validation)"
    );
    let snap = store.snapshot().unwrap();
    assert!(
        coins_map(&snap).contains_key(&coin_id),
        "Addition must be stored after successful hint validation"
    );
}
