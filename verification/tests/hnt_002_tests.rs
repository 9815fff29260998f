//! Tests — Idempotent Hint Insertion
#![allow(unused_imports, unused_mut, dead_code, unused_variables)]
use std::collections::HashMap;
use dig_coinstore::coin_store::CoinStore;
use dig_coinstore::config::{CoinStoreConfig, StorageBackend};
use dig_coinstore::error::CoinStoreError;
use dig_coinstore::hints::{validate_hint, HintAction, HintError, MAX_HINT_LENGTH};
use dig_coinstore::merkle::{
    empty_hash, merkle_leaf_hash, merkle_node_hash, MerkleError, SparseMerkleTree, SMT_HEIGHT,
};
use dig_coinstore::{
    ApplyBlockResult, BlockData, Bytes32, Coin, CoinAddition, CoinId, CoinRecord, CoinState,
    CoinStoreSnapshot, CoinStoreStats, RollbackResult,
};

fn test_hash(seed: u8) -> Bytes32 {
    Bytes32::new([seed; 32])
}

fn test_coin(parent_seed: u8, puzzle_seed: u8, amount: u64) -> Coin {
    Coin::new(test_hash(parent_seed), test_hash(puzzle_seed), amount)
}

fn coins_map(s: &CoinStoreSnapshot) -> &'static HashMap<CoinId, CoinRecord> {
    Box::leak(Box::new(s.coins.iter().cloned().collect()))
}

fn hint_map(v: Vec<(CoinId, Vec<Bytes32>)>) -> HashMap<CoinId, Vec<Bytes32>> {
    v.into_iter().collect()
}
#[test]
fn vv_req_hnt_002_double_insert_returns_ok() {
    let mut store = CoinStore::new("./coinstate").unwrap();
    store.init_genesis(vec![], 1_700_000_000).unwrap();

    let coin_id = Bytes32::new([0xAA; 32]);
    let hint = [0xBB_u8; 32];

    let result1 = store.add_hint(&coin_id, &hint);
    assert!(result1.is_ok(), "First insert must succeed");

    let result2 = store.add_hint(&coin_id, &hint);
    assert!(
        result2.is_ok(),
        "Second (duplicate) insert must also succeed"
    );
}
#[test]
fn vv_req_hnt_002_double_insert_query_returns_once() {
    let mut store = CoinStore::new("./coinstate").unwrap();
    store.init_genesis(vec![], 1_700_000_000).unwrap();

    let coin_id = Bytes32::new([0xAA; 32]);
    let hint = Bytes32::new([0xBB; 32]);

    store.add_hint(&coin_id, hint.as_slice()).unwrap();
    store.add_hint(&coin_id, hint.as_slice()).unwrap();

    let results = store.get_coin_ids_by_hint(&hint, 100).unwrap();
    assert_eq!(
        results.len(),
        1,
        "Duplicate insert must not create extra entries; expected 1 result, got {}",
        results.len()
    );
    assert_eq!(results[0], coin_id);
}
#[test]
fn vv_req_hnt_002_same_coin_different_hints_distinct() {
    let mut store = CoinStore::new("./coinstate").unwrap();
    store.init_genesis(vec![], 1_700_000_000).unwrap();

    let coin_id = Bytes32::new([0xAA; 32]);
    let hint_a = [0xBB_u8; 32];
    let hint_b = [0xCC_u8; 32];

    store.add_hint(&coin_id, &hint_a).unwrap();
    store.add_hint(&coin_id, &hint_b).unwrap();

    let count = store.count_hints().unwrap();
    assert_eq!(
        count, 2,
        "Two different hints for the same coin must create 2 forward-index entries"
    );
}
#[test]
fn vv_req_hnt_002_different_coins_same_hint_distinct() {
    let mut store = CoinStore::new("./coinstate").unwrap();
    store.init_genesis(vec![], 1_700_000_000).unwrap();

    let coin_a = Bytes32::new([0xAA; 32]);
    let coin_b = Bytes32::new([0xBB; 32]);
    let hint = [0xCC_u8; 32];

    store.add_hint(&coin_a, &hint).unwrap();
    store.add_hint(&coin_b, &hint).unwrap();

    let count = store.count_hints().unwrap();
    assert_eq!(
        count, 2,
        "Same hint for two different coins must create 2 forward-index entries"
    );
}
#[test]
fn vv_req_hnt_002_no_panic_on_repeated_duplicates() {
    let mut store = CoinStore::new("./coinstate").unwrap();
    store.init_genesis(vec![], 1_700_000_000).unwrap();

    let coin_id = Bytes32::new([0x11; 32]);
    let hint = [0x22_u8; 32];

    for _ in 0..10 {
        let result = store.add_hint(&coin_id, &hint);
        assert!(
            result.is_ok(),
            "Repeated duplicate insert must not panic or error"
        );
    }

    let count = store.count_hints().unwrap();
    assert_eq!(
        count, 1,
        "Only one entry despite 10 inserts of the same pair"
    );
}
#[test]
fn vv_req_hnt_002_empty_hint_skipped_via_add_hint() {
    let mut store = CoinStore::new("./coinstate").unwrap();
    store.init_genesis(vec![], 1_700_000_000).unwrap();

    let coin_id = Bytes32::new([0x33; 32]);
    let result = store.add_hint(&coin_id, &[]);
    assert!(result.is_ok(), "Empty hint must be silently skipped");

    let count = store.count_hints().unwrap();
    assert_eq!(count, 0, "Empty hint must not create any entries");
}
