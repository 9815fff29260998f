//! Tests -- Variable-Length Hint Keys
#![allow(unused_imports, unused_mut, dead_code, unused_variables)]
use std::collections::HashMap;
use dig_coinstore::coin_store::CoinStore;
use dig_coinstore::config::{CoinStoreConfig, StorageBackend};
use dig_coinstore::error::CoinStoreError;
use dig_coinstore::hints::{validate_hint, HintAction, HintError, MAX_HINT_LENGTH};
use dig_coinstore::merkle::{
    empty_hash, merkle_leaf_hash, merkle_node_hash, MerkleError, SparseMerkleTree, SMT_HEIGHT,
};
use dig_coinstore::{
    ApplyBlockResult, BlockData, Bytes32, Coin, CoinAddition, CoinId, CoinRecord, CoinState,
    CoinStoreSnapshot, CoinStoreStats, RollbackResult,
};

fn test_hash(seed: u8) -> Bytes32 {
    Bytes32::new([seed; 32])
}

fn test_coin(parent_seed: u8, puzzle_seed: u8, amount: u64) -> Coin {
    Coin::new(test_hash(parent_seed), test_hash(puzzle_seed), amount)
}

fn coins_map(s: &CoinStoreSnapshot) -> &'static HashMap<CoinId, CoinRecord> {
    Box::leak(Box::new(s.coins.iter().cloned().collect()))
}

fn hint_map(v: Vec<(CoinId, Vec<Bytes32>)>) -> HashMap<CoinId, Vec<Bytes32>> {
    v.into_iter().collect()
}
#[test]
fn vv_req_hnt_006_32_byte_hint_baseline() {
    let mut store = CoinStore::new("./coinstate").unwrap();
    store.init_genesis(vec![], 1_700_000_000).unwrap();

    let coin_id = Bytes32::new([0x01; 32]);
    let hint = Bytes32::new([0xAA; 32]);

    store.add_hint(&coin_id, hint.as_slice()).unwrap();
    let results_typed = store.get_coin_ids_by_hint(&hint, 100).unwrap();
    assert_eq!(results_typed.len(), 1);
    assert_eq!(results_typed[0], coin_id);
    let results_bytes = store
        .get_coin_ids_by_hint_bytes(hint.as_slice(), 100)
        .unwrap();
    assert_eq!(results_bytes.len(), 1);
    assert_eq!(results_bytes[0], coin_id);
}
#[test]
fn vv_req_hnt_006_short_hint_stored_and_queried() {
    let mut store = CoinStore::new("./coinstate").unwrap();
    store.init_genesis(vec![], 1_700_000_000).unwrap();

    let coin_id = Bytes32::new([0x01; 32]);
    let short_hint: [u8; 16] = [0xBB; 16];

    store.add_hint(&coin_id, &short_hint).unwrap();
    assert_eq!(store.count_hints().unwrap(), 1, "Short hint must be stored");

    let results = store
        .get_coin_ids_by_hint_bytes(&short_hint, 100)
        .unwrap();
    assert_eq!(results.len(), 1, "Short hint must be found via bytes API");
    assert_eq!(results[0], coin_id);
}
#[test]
fn vv_req_hnt_006_no_prefix_collision() {
    let mut store = CoinStore::new("./coinstate").unwrap();
    store.init_genesis(vec![], 1_700_000_000).unwrap();

    let coin_a = Bytes32::new([0x01; 32]);
    let coin_b = Bytes32::new([0x02; 32]);

    let short_hint: [u8; 16] = [0xAA; 16];
    let long_hint = Bytes32::new([0xAA; 32]);

    store.add_hint(&coin_a, &short_hint).unwrap();
    store.add_hint(&coin_b, long_hint.as_slice()).unwrap();
    assert_eq!(store.count_hints().unwrap(), 2);
    let short_results = store
        .get_coin_ids_by_hint_bytes(&short_hint, 100)
        .unwrap();
    assert_eq!(
        short_results.len(),
        1,
        "16-byte hint query must not match 32-byte hint"
    );
    assert_eq!(short_results[0], coin_a);
    let long_results = store
        .get_coin_ids_by_hint_bytes(long_hint.as_slice(), 100)
        .unwrap();
    assert_eq!(
        long_results.len(),
        1,
        "32-byte hint query must not match 16-byte hint"
    );
    assert_eq!(long_results[0], coin_b);
}
#[test]
fn vv_req_hnt_006_two_lengths_same_coin() {
    let mut store = CoinStore::new("./coinstate").unwrap();
    store.init_genesis(vec![], 1_700_000_000).unwrap();

    let coin_id = Bytes32::new([0x01; 32]);
    let short_hint: [u8; 16] = [0xCC; 16];
    let long_hint = Bytes32::new([0xDD; 32]);

    store.add_hint(&coin_id, &short_hint).unwrap();
    store.add_hint(&coin_id, long_hint.as_slice()).unwrap();

    assert_eq!(
        store.count_hints().unwrap(),
        2,
        "Two different-length hints must create 2 forward entries"
    );
    let short_results = store
        .get_coin_ids_by_hint_bytes(&short_hint, 100)
        .unwrap();
    assert_eq!(short_results.len(), 1);
    assert_eq!(short_results[0], coin_id);

    let long_results = store
        .get_coin_ids_by_hint_bytes(long_hint.as_slice(), 100)
        .unwrap();
    assert_eq!(long_results.len(), 1);
    assert_eq!(long_results[0], coin_id);
}
#[test]
fn vv_req_hnt_006_bytes32_api_only_matches_32_byte_hints() {
    let mut store = CoinStore::new("./coinstate").unwrap();
    store.init_genesis(vec![], 1_700_000_000).unwrap();

    let coin_short = Bytes32::new([0x01; 32]);
    let coin_long = Bytes32::new([0x02; 32]);
    let short_hint: [u8; 16] = [0xEE; 16];
    let long_hint = Bytes32::new([0xEE; 32]);

    store.add_hint(&coin_short, &short_hint).unwrap();
    store.add_hint(&coin_long, long_hint.as_slice()).unwrap();
    let results = store.get_coin_ids_by_hint(&long_hint, 100).unwrap();
    assert!(
        results.contains(&coin_long),
        "Bytes32 API must return coin with matching 32-byte hint"
    );
    assert!(
        !results.contains(&coin_short),
        "Bytes32 API must not match coins with shorter hints"
    );
}
