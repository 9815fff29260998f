//! Tests — Coin Insertion with FF-Eligible Tracking
#![allow(unused_imports, unused_mut, dead_code, unused_variables)]
use std::collections::HashMap;
use dig_coinstore::coin_store::CoinStore;
use dig_coinstore::config::{CoinStoreConfig, StorageBackend};
use dig_coinstore::error::CoinStoreError;
use dig_coinstore::hints::{validate_hint, HintAction, HintError, MAX_HINT_LENGTH};
use dig_coinstore::merkle::{
    empty_hash, merkle_leaf_hash, merkle_node_hash, MerkleError, SparseMerkleTree, SMT_HEIGHT,
};
use dig_coinstore::{
    ApplyBlockResult, BlockData, Bytes32, Coin, CoinAddition, CoinId, CoinRecord, CoinState,
    CoinStoreSnapshot, CoinStoreStats, RollbackResult,
};

fn test_hash(seed: u8) -> Bytes32 {
    Bytes32::new([seed; 32])
}

fn test_coin(parent_seed: u8, puzzle_seed: u8, amount: u64) -> Coin {
    Coin::new(test_hash(parent_seed), test_hash(puzzle_seed), amount)
}

fn coins_map(s: &CoinStoreSnapshot) -> &'static HashMap<CoinId, CoinRecord> {
    Box::leak(Box::new(s.coins.iter().cloned().collect()))
}

fn hint_map(v: Vec<(CoinId, Vec<Bytes32>)>) -> HashMap<CoinId, Vec<Bytes32>> {
    v.into_iter().collect()
}
fn make_block(height: u64, parent_hash: Bytes32, block_hash: Bytes32) -> BlockData {
    let coinbase_coins = vec![
        test_coin(200 + height as u8, 201, 1_750_000_000_000),
        test_coin(202 + height as u8, 203, 250_000_000_000),
    ];
    BlockData {
        height,
        timestamp: 1_700_000_000 + height * 18,
        block_hash,
        parent_hash,
        additions: vec![],
        removals: vec![],
        coinbase_coins,
        hints: vec![],
        expected_state_root: None,
    }
}
#[test]
fn vv_req_blk_007_same_as_parent_true_ff_eligible() {
    let mut store = CoinStore::new("./coinstate").unwrap();
    store.init_genesis(vec![], 1_700_000_000).unwrap();

    let ff_coin = test_coin(30, 31, 500);
    let ff_coin_id = ff_coin.coin_id();

    let mut block = make_block(1, Bytes32::new([0u8; 32]), test_hash(0xB1));
    block.additions = vec![CoinAddition::from_coin(ff_coin, true)];

    store.apply_block(block).unwrap();
    let snap = store.snapshot().unwrap();
    let rec = coins_map(&snap)
        .get(&ff_coin_id)
        .expect("FF coin must be in snapshot");
    assert!(
        rec.ff_eligible,
        "Coin with same_as_parent=true must have ff_eligible=true"
    );
}
#[test]
fn vv_req_blk_007_same_as_parent_false_not_ff_eligible() {
    let mut store = CoinStore::new("./coinstate").unwrap();
    store.init_genesis(vec![], 1_700_000_000).unwrap();

    let regular_coin = test_coin(40, 41, 600);
    let coin_id = regular_coin.coin_id();

    let mut block = make_block(1, Bytes32::new([0u8; 32]), test_hash(0xB1));
    block.additions = vec![CoinAddition::from_coin(regular_coin, false)];

    store.apply_block(block).unwrap();

    let snap = store.snapshot().unwrap();
    let rec = coins_map(&snap)
        .get(&coin_id)
        .expect("Regular coin must be in snapshot");
    assert!(
        !rec.ff_eligible,
        "Coin with same_as_parent=false must have ff_eligible=false"
    );
}
#[test]
fn vv_req_blk_007_coinbase_never_ff_eligible() {
    let mut store = CoinStore::new("./coinstate").unwrap();
    store.init_genesis(vec![], 1_700_000_000).unwrap();

    let block = make_block(1, Bytes32::new([0u8; 32]), test_hash(0xB1));
    let coinbase_ids: Vec<Bytes32> = block.coinbase_coins.iter().map(|c| c.coin_id()).collect();

    store.apply_block(block).unwrap();

    let snap = store.snapshot().unwrap();
    for cb_id in &coinbase_ids {
        let rec = coins_map(&snap)
            .get(cb_id)
            .expect("Coinbase coin must be in snapshot");
        assert!(rec.coinbase, "Coin must be flagged as coinbase");
        assert!(
            !rec.ff_eligible,
            "Coinbase coin must never have ff_eligible=true"
        );
    }
}
#[test]
fn vv_req_blk_007_confirmed_height_matches_block() {
    let mut store = CoinStore::new("./coinstate").unwrap();
    store.init_genesis(vec![], 1_700_000_000).unwrap();

    let tx_coin = test_coin(50, 51, 700);
    let tx_coin_id = tx_coin.coin_id();

    let mut block = make_block(1, Bytes32::new([0u8; 32]), test_hash(0xB1));
    let coinbase_ids: Vec<Bytes32> = block.coinbase_coins.iter().map(|c| c.coin_id()).collect();
    block.additions = vec![CoinAddition::from_coin(tx_coin, false)];

    store.apply_block(block).unwrap();

    let snap = store.snapshot().unwrap();
    let tx_rec = coins_map(&snap)
        .get(&tx_coin_id)
        .expect("TX coin must be in snapshot");
    assert_eq!(
        tx_rec.confirmed_height, 1,
        "TX coin confirmed_height must match block height"
    );
    for cb_id in &coinbase_ids {
        let cb_rec = coins_map(&snap)
            .get(cb_id)
            .expect("Coinbase coin must be in snapshot");
        assert_eq!(
            cb_rec.confirmed_height, 1,
            "Coinbase confirmed_height must match block height"
        );
    }
}
#[test]
fn vv_req_blk_007_spent_height_is_none() {
    let mut store = CoinStore::new("./coinstate").unwrap();
    store.init_genesis(vec![], 1_700_000_000).unwrap();

    let tx_coin = test_coin(60, 61, 800);
    let tx_coin_id = tx_coin.coin_id();

    let mut block = make_block(1, Bytes32::new([0u8; 32]), test_hash(0xB1));
    let coinbase_ids: Vec<Bytes32> = block.coinbase_coins.iter().map(|c| c.coin_id()).collect();
    block.additions = vec![CoinAddition::from_coin(tx_coin, true)];

    store.apply_block(block).unwrap();

    let snap = store.snapshot().unwrap();

    let tx_rec = coins_map(&snap)
        .get(&tx_coin_id)
        .expect("TX coin must be in snapshot");
    assert_eq!(
        tx_rec.spent_height, None,
        "Newly inserted coin must have spent_height = None"
    );

    for cb_id in &coinbase_ids {
        let cb_rec = coins_map(&snap)
            .get(cb_id)
            .expect("Coinbase coin must be in snapshot");
        assert_eq!(
            cb_rec.spent_height, None,
            "Newly inserted coinbase coin must have spent_height = None"
        );
    }
}
