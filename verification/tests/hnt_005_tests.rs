//! Tests -- Rollback Hint Cleanup
#![allow(unused_imports, unused_mut, dead_code, unused_variables)]
use std::collections::HashMap;
use dig_coinstore::coin_store::CoinStore;
use dig_coinstore::config::{CoinStoreConfig, StorageBackend};
use dig_coinstore::error::CoinStoreError;
use dig_coinstore::hints::{validate_hint, HintAction, HintError, MAX_HINT_LENGTH};
use dig_coinstore::merkle::{
    empty_hash, merkle_leaf_hash, merkle_node_hash, MerkleError, SparseMerkleTree, SMT_HEIGHT,
};
use dig_coinstore::{
    ApplyBlockResult, BlockData, Bytes32, Coin, CoinAddition, CoinId, CoinRecord, CoinState,
    CoinStoreSnapshot, CoinStoreStats, RollbackResult,
};

fn test_hash(seed: u8) -> Bytes32 {
    Bytes32::new([seed; 32])
}

fn test_coin(parent_seed: u8, puzzle_seed: u8, amount: u64) -> Coin {
    Coin::new(test_hash(parent_seed), test_hash(puzzle_seed), amount)
}

fn coins_map(s: &CoinStoreSnapshot) -> &'static HashMap<CoinId, CoinRecord> {
    Box::leak(Box::new(s.coins.iter().cloned().collect()))
}

fn hint_map(v: Vec<(CoinId, Vec<Bytes32>)>) -> HashMap<CoinId, Vec<Bytes32>> {
    v.into_iter().collect()
}
#[test]
fn vv_req_hnt_005_remove_hints_both_indices_cleaned() {
    let mut store = CoinStore::new("./coinstate").unwrap();
    store.init_genesis(vec![], 1_700_000_000).unwrap();

    let coin_id = Bytes32::new([0x01; 32]);
    let hint = Bytes32::new([0xAA; 32]);

    store.add_hint(&coin_id, hint.as_slice()).unwrap();
    assert_eq!(store.count_hints().unwrap(), 1);

    let removed = store.remove_hints_for_coins(&[coin_id]).unwrap();
    assert_eq!(removed, 1, "Must report 1 pair removed");
    assert_eq!(store.count_hints().unwrap(), 0, "Forward index must be empty");
    let reverse = store.get_coin_ids_by_hint(&hint, 100).unwrap();
    assert!(reverse.is_empty(), "Reverse index must be empty after removal");
}
#[test]
fn vv_req_hnt_005_reverse_empty_after_removal() {
    let mut store = CoinStore::new("./coinstate").unwrap();
    store.init_genesis(vec![], 1_700_000_000).unwrap();

    let coin_id = Bytes32::new([0x01; 32]);
    let hint = Bytes32::new([0xAA; 32]);

    store.add_hint(&coin_id, hint.as_slice()).unwrap();
    store.remove_hints_for_coins(&[coin_id]).unwrap();

    let results = store.get_coin_ids_by_hint(&hint, 100).unwrap();
    assert!(
        results.is_empty(),
        "get_coin_ids_by_hint must return empty after removal"
    );
}
#[test]
fn vv_req_hnt_005_forward_empty_after_removal() {
    let mut store = CoinStore::new("./coinstate").unwrap();
    store.init_genesis(vec![], 1_700_000_000).unwrap();

    let coin_id = Bytes32::new([0x01; 32]);
    let hint = Bytes32::new([0xAA; 32]);

    store.add_hint(&coin_id, hint.as_slice()).unwrap();
    store.remove_hints_for_coins(&[coin_id]).unwrap();

    let map = hint_map(store.get_hints_for_coin_ids(&[coin_id]).unwrap());
    assert!(
        map.is_empty(),
        "get_hints_for_coin_ids must return empty map after removal"
    );
}
#[test]
fn vv_req_hnt_005_shared_hint_preserved_for_other_coin() {
    let mut store = CoinStore::new("./coinstate").unwrap();
    store.init_genesis(vec![], 1_700_000_000).unwrap();

    let coin_a = Bytes32::new([0x01; 32]);
    let coin_b = Bytes32::new([0x02; 32]);
    let shared_hint = Bytes32::new([0xAA; 32]);

    store.add_hint(&coin_a, shared_hint.as_slice()).unwrap();
    store.add_hint(&coin_b, shared_hint.as_slice()).unwrap();
    assert_eq!(store.count_hints().unwrap(), 2);
    let removed = store.remove_hints_for_coins(&[coin_a]).unwrap();
    assert_eq!(removed, 1, "Only coin_a's hint pair removed");
    assert_eq!(store.count_hints().unwrap(), 1, "One hint pair remains");
    let reverse = store.get_coin_ids_by_hint(&shared_hint, 100).unwrap();
    assert_eq!(reverse.len(), 1, "Shared hint must still map to coin_b");
    assert_eq!(reverse[0], coin_b);
    let map = hint_map(store.get_hints_for_coin_ids(&[coin_b]).unwrap());
    assert!(map.contains_key(&coin_b));
    assert_eq!(map.get(&coin_b).unwrap().len(), 1);
}
#[test]
fn vv_req_hnt_005_coin_with_no_hints_noop() {
    let mut store = CoinStore::new("./coinstate").unwrap();
    store.init_genesis(vec![], 1_700_000_000).unwrap();

    let coin_id = Bytes32::new([0x01; 32]);

    let removed = store.remove_hints_for_coins(&[coin_id]).unwrap();
    assert_eq!(removed, 0, "Coin with no hints must return 0 removed");
}
#[test]
fn vv_req_hnt_005_multi_hint_coin_all_removed() {
    let mut store = CoinStore::new("./coinstate").unwrap();
    store.init_genesis(vec![], 1_700_000_000).unwrap();

    let coin_id = Bytes32::new([0x01; 32]);
    let hint_a = Bytes32::new([0xAA; 32]);
    let hint_b = Bytes32::new([0xBB; 32]);
    let hint_c = Bytes32::new([0xCC; 32]);

    store.add_hint(&coin_id, hint_a.as_slice()).unwrap();
    store.add_hint(&coin_id, hint_b.as_slice()).unwrap();
    store.add_hint(&coin_id, hint_c.as_slice()).unwrap();
    assert_eq!(store.count_hints().unwrap(), 3);

    let removed = store.remove_hints_for_coins(&[coin_id]).unwrap();
    assert_eq!(removed, 3, "All 3 hint pairs must be removed");
    assert_eq!(store.count_hints().unwrap(), 0, "No hints remaining");
    assert!(store.get_coin_ids_by_hint(&hint_a, 100).unwrap().is_empty());
    assert!(store.get_coin_ids_by_hint(&hint_b, 100).unwrap().is_empty());
    assert!(store.get_coin_ids_by_hint(&hint_c, 100).unwrap().is_empty());
    let map = hint_map(store.get_hints_for_coin_ids(&[coin_id]).unwrap());
    assert!(map.is_empty());
}
#[test]
fn vv_req_hnt_005_count_decremented_correctly() {
    let mut store = CoinStore::new("./coinstate").unwrap();
    store.init_genesis(vec![], 1_700_000_000).unwrap();

    let coin_a = Bytes32::new([0x01; 32]);
    let coin_b = Bytes32::new([0x02; 32]);
    let hint_1 = Bytes32::new([0xAA; 32]);
    let hint_2 = Bytes32::new([0xBB; 32]);
    store.add_hint(&coin_a, hint_1.as_slice()).unwrap();
    store.add_hint(&coin_a, hint_2.as_slice()).unwrap();
    store.add_hint(&coin_b, hint_1.as_slice()).unwrap();
    assert_eq!(store.count_hints().unwrap(), 3);
    let removed = store.remove_hints_for_coins(&[coin_a]).unwrap();
    assert_eq!(removed, 2, "coin_a had 2 hint pairs");
    assert_eq!(
        store.count_hints().unwrap(),
        1,
        "Only coin_b's 1 hint pair remains"
    );
}
#[test]
fn vv_req_hnt_005_empty_coin_ids_noop() {
    let mut store = CoinStore::new("./coinstate").unwrap();
    store.init_genesis(vec![], 1_700_000_000).unwrap();
    let coin_id = Bytes32::new([0x01; 32]);
    let hint = Bytes32::new([0xAA; 32]);
    store.add_hint(&coin_id, hint.as_slice()).unwrap();

    let removed = store.remove_hints_for_coins(&[]).unwrap();
    assert_eq!(removed, 0, "Empty slice must return 0");
    assert_eq!(
        store.count_hints().unwrap(),
        1,
        "Existing hints must be undisturbed"
    );
}
