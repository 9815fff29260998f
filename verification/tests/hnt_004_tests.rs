//! Tests — Hint Queries
#![allow(unused_imports, unused_mut, dead_code, unused_variables)]
use std::collections::HashMap;
use dig_coinstore::coin_store::CoinStore;
use dig_coinstore::config::{CoinStoreConfig, StorageBackend};
use dig_coinstore::error::CoinStoreError;
use dig_coinstore::hints::{validate_hint, HintAction, HintError, MAX_HINT_LENGTH};
use dig_coinstore::merkle::{
    empty_hash, merkle_leaf_hash, merkle_node_hash, MerkleError, SparseMerkleTree, SMT_HEIGHT,
};
use dig_coinstore::{
    ApplyBlockResult, BlockData, Bytes32, Coin, CoinAddition, CoinId, CoinRecord, CoinState,
    CoinStoreSnapshot, CoinStoreStats, RollbackResult,
};

fn test_hash(seed: u8) -> Bytes32 {
    Bytes32::new([seed; 32])
}

fn test_coin(parent_seed: u8, puzzle_seed: u8, amount: u64) -> Coin {
    Coin::new(test_hash(parent_seed), test_hash(puzzle_seed), amount)
}

fn coins_map(s: &CoinStoreSnapshot) -> &'static HashMap<CoinId, CoinRecord> {
    Box::leak(Box::new(s.coins.iter().cloned().collect()))
}

fn hint_map(v: Vec<(CoinId, Vec<Bytes32>)>) -> HashMap<CoinId, Vec<Bytes32>> {
    v.into_iter().collect()
}
#[test]
fn vv_req_hnt_004_get_coin_ids_by_hint_basic() {
    let mut store = CoinStore::new("./coinstate").unwrap();
    store.init_genesis(vec![], 1_700_000_000).unwrap();

    let hint = Bytes32::new([0xAA; 32]);
    let coin_a = Bytes32::new([0x01; 32]);
    let coin_b = Bytes32::new([0x02; 32]);
    let coin_c = Bytes32::new([0x03; 32]);

    store.add_hint(&coin_a, hint.as_slice()).unwrap();
    store.add_hint(&coin_b, hint.as_slice()).unwrap();
    store.add_hint(&coin_c, hint.as_slice()).unwrap();

    let results = store.get_coin_ids_by_hint(&hint, 100).unwrap();
    assert_eq!(results.len(), 3, "All 3 coins must be returned");
    assert!(results.contains(&coin_a));
    assert!(results.contains(&coin_b));
    assert!(results.contains(&coin_c));
}
#[test]
fn vv_req_hnt_004_get_coin_ids_by_hint_max_items() {
    let mut store = CoinStore::new("./coinstate").unwrap();
    store.init_genesis(vec![], 1_700_000_000).unwrap();

    let hint = Bytes32::new([0xAA; 32]);
    for i in 1..=5u8 {
        let coin_id = Bytes32::new([i; 32]);
        store.add_hint(&coin_id, hint.as_slice()).unwrap();
    }

    let results = store.get_coin_ids_by_hint(&hint, 2).unwrap();
    assert_eq!(
        results.len(),
        2,
        "max_items=2 must limit results to 2, got {}",
        results.len()
    );
}
#[test]
fn vv_req_hnt_004_get_coin_ids_by_hints_batch_dedup() {
    let mut store = CoinStore::new("./coinstate").unwrap();
    store.init_genesis(vec![], 1_700_000_000).unwrap();

    let coin_a = Bytes32::new([0x01; 32]);
    let coin_b = Bytes32::new([0x02; 32]);
    let hint_x = Bytes32::new([0xAA; 32]);
    let hint_y = Bytes32::new([0xBB; 32]);
    store.add_hint(&coin_a, hint_x.as_slice()).unwrap();
    store.add_hint(&coin_a, hint_y.as_slice()).unwrap();
    store.add_hint(&coin_b, hint_y.as_slice()).unwrap();

    let results = store.get_coin_ids_by_hints(&[hint_x, hint_y], 100).unwrap();
    assert_eq!(
        results.len(),
        2,
        "Deduplicated results should contain 2 unique coin IDs, got {}",
        results.len()
    );
    assert!(results.contains(&coin_a));
    assert!(results.contains(&coin_b));
}
#[test]
fn vv_req_hnt_004_get_hints_for_coin_ids_map() {
    let mut store = CoinStore::new("./coinstate").unwrap();
    store.init_genesis(vec![], 1_700_000_000).unwrap();

    let coin_a = Bytes32::new([0x01; 32]);
    let coin_b = Bytes32::new([0x02; 32]);
    let hint_1 = Bytes32::new([0xAA; 32]);
    let hint_2 = Bytes32::new([0xBB; 32]);
    let hint_3 = Bytes32::new([0xCC; 32]);

    store.add_hint(&coin_a, hint_1.as_slice()).unwrap();
    store.add_hint(&coin_a, hint_2.as_slice()).unwrap();
    store.add_hint(&coin_b, hint_3.as_slice()).unwrap();

    let map = hint_map(store.get_hints_for_coin_ids(&[coin_a, coin_b]).unwrap());

    assert!(map.contains_key(&coin_a));
    let hints_a = map.get(&coin_a).unwrap();
    assert_eq!(hints_a.len(), 2, "coin_a must have 2 hints");
    assert!(hints_a.contains(&hint_1));
    assert!(hints_a.contains(&hint_2));

    assert!(map.contains_key(&coin_b));
    let hints_b = map.get(&coin_b).unwrap();
    assert_eq!(hints_b.len(), 1, "coin_b must have 1 hint");
    assert_eq!(hints_b[0], hint_3);
}
#[test]
fn vv_req_hnt_004_count_hints_correct() {
    let mut store = CoinStore::new("./coinstate").unwrap();
    store.init_genesis(vec![], 1_700_000_000).unwrap();

    assert_eq!(store.count_hints().unwrap(), 0, "Empty store has 0 hints");

    let coin_a = Bytes32::new([0x01; 32]);
    let coin_b = Bytes32::new([0x02; 32]);
    let hint_1 = Bytes32::new([0xAA; 32]);
    let hint_2 = Bytes32::new([0xBB; 32]);

    store.add_hint(&coin_a, hint_1.as_slice()).unwrap();
    store.add_hint(&coin_a, hint_2.as_slice()).unwrap();
    store.add_hint(&coin_b, hint_1.as_slice()).unwrap();

    assert_eq!(
        store.count_hints().unwrap(),
        3,
        "3 unique (coin_id, hint) pairs must yield count 3"
    );
}
#[test]
fn vv_req_hnt_004_empty_store_queries() {
    let mut store = CoinStore::new("./coinstate").unwrap();
    store.init_genesis(vec![], 1_700_000_000).unwrap();

    let any_hint = Bytes32::new([0xFF; 32]);
    let any_coin = Bytes32::new([0xEE; 32]);

    assert_eq!(store.count_hints().unwrap(), 0);
    assert!(store
        .get_coin_ids_by_hint(&any_hint, 100)
        .unwrap()
        .is_empty());
    assert!(store
        .get_coin_ids_by_hints(&[any_hint], 100)
        .unwrap()
        .is_empty());
    assert!(store
        .get_hints_for_coin_ids(&[any_coin])
        .unwrap()
        .is_empty());
}
#[test]
fn vv_req_hnt_004_nonexistent_hint_returns_empty() {
    let mut store = CoinStore::new("./coinstate").unwrap();
    store.init_genesis(vec![], 1_700_000_000).unwrap();

    let coin_id = Bytes32::new([0x01; 32]);
    let stored_hint = Bytes32::new([0xAA; 32]);
    let missing_hint = Bytes32::new([0xFF; 32]);

    store.add_hint(&coin_id, stored_hint.as_slice()).unwrap();

    let results = store.get_coin_ids_by_hint(&missing_hint, 100).unwrap();
    assert!(
        results.is_empty(),
        "Query for nonexistent hint must return empty"
    );
}
#[test]
fn vv_req_hnt_004_unknown_coin_returns_empty_map() {
    let mut store = CoinStore::new("./coinstate").unwrap();
    store.init_genesis(vec![], 1_700_000_000).unwrap();

    let coin_a = Bytes32::new([0x01; 32]);
    let coin_b = Bytes32::new([0x02; 32]);
    let hint = Bytes32::new([0xAA; 32]);

    store.add_hint(&coin_a, hint.as_slice()).unwrap();

    let map = hint_map(store.get_hints_for_coin_ids(&[coin_b]).unwrap());
    assert!(
        map.is_empty(),
        "Map must be empty for coin_id with no hints"
    );
}
