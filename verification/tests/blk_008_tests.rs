//! Tests — Spend Marking
#![allow(unused_imports, unused_mut, dead_code, unused_variables)]
use std::collections::HashMap;
use dig_coinstore::coin_store::CoinStore;
use dig_coinstore::config::{CoinStoreConfig, StorageBackend};
use dig_coinstore::error::CoinStoreError;
use dig_coinstore::hints::{validate_hint, HintAction, HintError, MAX_HINT_LENGTH};
use dig_coinstore::merkle::{
    empty_hash, merkle_leaf_hash, merkle_node_hash, MerkleError, SparseMerkleTree, SMT_HEIGHT,
};
use dig_coinstore::{
    ApplyBlockResult, BlockData, Bytes32, Coin, CoinAddition, CoinId, CoinRecord, CoinState,
    CoinStoreSnapshot, CoinStoreStats, RollbackResult,
};

fn test_hash(seed: u8) -> Bytes32 {
    Bytes32::new([seed; 32])
}

fn test_coin(parent_seed: u8, puzzle_seed: u8, amount: u64) -> Coin {
    Coin::new(test_hash(parent_seed), test_hash(puzzle_seed), amount)
}

fn coins_map(s: &CoinStoreSnapshot) -> &'static HashMap<CoinId, CoinRecord> {
    Box::leak(Box::new(s.coins.iter().cloned().collect()))
}

fn hint_map(v: Vec<(CoinId, Vec<Bytes32>)>) -> HashMap<CoinId, Vec<Bytes32>> {
    v.into_iter().collect()
}
fn make_block(height: u64, parent_hash: Bytes32, block_hash: Bytes32) -> BlockData {
    let coinbase_coins = vec![
        test_coin(200 + height as u8, 201, 1_750_000_000_000),
        test_coin(202 + height as u8, 203, 250_000_000_000),
    ];
    BlockData {
        height,
        timestamp: 1_700_000_000 + height * 18,
        block_hash,
        parent_hash,
        additions: vec![],
        removals: vec![],
        coinbase_coins,
        hints: vec![],
        expected_state_root: None,
    }
}
#[test]
fn vv_req_blk_008_spent_height_equals_block_height() {
    let mut store = CoinStore::new("./coinstate").unwrap();
    let coin = test_coin(1, 2, 1_000_000);
    let coin_id = coin.coin_id();
    store
        .init_genesis(vec![(coin, false)], 1_700_000_000)
        .unwrap();
    let snap_before = store.snapshot().unwrap();
    let rec_before = coins_map(&snap_before)
        .get(&coin_id)
        .expect("Genesis coin must exist");
    assert_eq!(
        rec_before.spent_height, None,
        "Coin must be unspent before block application"
    );
    let mut block = make_block(1, Bytes32::new([0u8; 32]), test_hash(0xB1));
    block.removals = vec![coin_id];
    store.apply_block(block).unwrap();
    let snap_after = store.snapshot().unwrap();
    let rec_after = coins_map(&snap_after)
        .get(&coin_id)
        .expect("Spent coin must still exist in store");
    assert_eq!(
        rec_after.spent_height,
        Some(1),
        "spent_height must equal block height (1)"
    );
}
#[test]
fn vv_req_blk_008_coins_spent_matches_removals_len() {
    let mut store = CoinStore::new("./coinstate").unwrap();

    let coin_a = test_coin(1, 2, 100);
    let coin_b = test_coin(3, 4, 200);
    let coin_c = test_coin(5, 6, 300);
    store
        .init_genesis(
            vec![(coin_a, false), (coin_b, false), (coin_c, false)],
            1_700_000_000,
        )
        .unwrap();

    let mut block = make_block(1, Bytes32::new([0u8; 32]), test_hash(0xB1));
    block.removals = vec![coin_a.coin_id(), coin_b.coin_id(), coin_c.coin_id()];

    let result = store.apply_block(block).unwrap();
    assert_eq!(
        result.coins_spent, 3,
        "coins_spent must equal the number of removals (3)"
    );
}
#[test]
fn vv_req_blk_008_unspent_index_updated() {
    let mut store = CoinStore::new("./coinstate").unwrap();
    let coin = test_coin(1, 2, 1_000_000);
    let coin_id = coin.coin_id();
    store
        .init_genesis(vec![(coin, false)], 1_700_000_000)
        .unwrap();
    let snap_before = store.snapshot().unwrap();
    let rec_before = coins_map(&snap_before)
        .get(&coin_id)
        .expect("Genesis coin must exist");
    assert!(
        !rec_before.is_spent(),
        "Genesis coin must be unspent initially"
    );
    let mut block = make_block(1, Bytes32::new([0u8; 32]), test_hash(0xB1));
    block.removals = vec![coin_id];
    store.apply_block(block).unwrap();
    let snap_after = store.snapshot().unwrap();
    let rec_after = coins_map(&snap_after)
        .get(&coin_id)
        .expect("Spent coin must still exist in store");
    assert!(
        rec_after.is_spent(),
        "Coin must be marked spent in persistent storage"
    );
    assert_eq!(
        rec_after.spent_height,
        Some(1),
        "Spent coin must have spent_height = Some(1)"
    );
}
#[test]
fn vv_req_blk_008_spent_height_index_updated() {
    let mut store = CoinStore::new("./coinstate").unwrap();

    let coin_a = test_coin(1, 2, 1_000_000);
    let coin_b = test_coin(3, 4, 2_000_000);
    let id_a = coin_a.coin_id();
    let id_b = coin_b.coin_id();

    store
        .init_genesis(vec![(coin_a, false), (coin_b, false)], 1_700_000_000)
        .unwrap();
    let hash1 = test_hash(0xB1);
    let mut b1 = make_block(1, Bytes32::new([0u8; 32]), hash1);
    b1.removals = vec![id_a];
    store.apply_block(b1).unwrap();
    let hash2 = test_hash(0xB2);
    let mut b2 = make_block(2, hash1, hash2);
    b2.removals = vec![id_b];
    store.apply_block(b2).unwrap();
    let snap = store.snapshot().unwrap();

    let rec_a = coins_map(&snap).get(&id_a).expect("Coin A must exist");
    assert_eq!(
        rec_a.spent_height,
        Some(1),
        "Coin A spent in block 1 must have spent_height = Some(1)"
    );

    let rec_b = coins_map(&snap).get(&id_b).expect("Coin B must exist");
    assert_eq!(
        rec_b.spent_height,
        Some(2),
        "Coin B spent in block 2 must have spent_height = Some(2)"
    );
}
