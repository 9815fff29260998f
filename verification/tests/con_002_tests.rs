//! Tests — RwLock Strategy (Shared Reads, Exclusive Writes)
#![allow(unused_imports, unused_mut, dead_code, unused_variables)]
use std::collections::HashMap;
use parking_lot::RwLock;
use std::sync::Arc;
use dig_coinstore::coin_store::CoinStore;
use dig_coinstore::config::{CoinStoreConfig, StorageBackend};
use dig_coinstore::error::CoinStoreError;
use dig_coinstore::hints::{validate_hint, HintAction, HintError, MAX_HINT_LENGTH};
use dig_coinstore::merkle::{
    empty_hash, merkle_leaf_hash, merkle_node_hash, MerkleError, SparseMerkleTree, SMT_HEIGHT,
};
use dig_coinstore::{
    ApplyBlockResult, BlockData, Bytes32, Coin, CoinAddition, CoinId, CoinRecord, CoinState,
    CoinStoreSnapshot, CoinStoreStats, RollbackResult,
};

fn test_hash(seed: u8) -> Bytes32 {
    Bytes32::new([seed; 32])
}

fn test_coin(parent_seed: u8, puzzle_seed: u8, amount: u64) -> Coin {
    Coin::new(test_hash(parent_seed), test_hash(puzzle_seed), amount)
}

fn coins_map(s: &CoinStoreSnapshot) -> &'static HashMap<CoinId, CoinRecord> {
    Box::leak(Box::new(s.coins.iter().cloned().collect()))
}

fn hint_map(v: Vec<(CoinId, Vec<Bytes32>)>) -> HashMap<CoinId, Vec<Bytes32>> {
    v.into_iter().collect()
}
#[test]
fn vv_req_con_002_read_methods_take_shared_ref() {
    let mut store = dig_coinstore::coin_store::CoinStore::new("./coinstate").unwrap();
    let coin = test_coin(1, 2, 100);
    let id = coin.coin_id();
    store
        .init_genesis(vec![(coin, false)], 1_700_000_000)
        .unwrap();
    let shared: &dig_coinstore::coin_store::CoinStore = &store;
    let _h = shared.height();
    let _t = shared.tip_hash();
    let _ts = shared.timestamp();
    let _init = shared.is_initialized();
    let _empty = shared.is_empty();
    let _cfg = shared.config();
    let _unspent = shared.is_unspent(&id);
    let _rec = shared.get_coin_record(&id).unwrap();
    let _stats = shared.stats();
}
#[test]
fn vv_req_con_002_write_methods_take_exclusive_ref() {
    let mut store = dig_coinstore::coin_store::CoinStore::new("./coinstate").unwrap();
    store.init_genesis(vec![], 1_700_000_000).unwrap();
    let block = dig_coinstore::BlockData {
        height: 1,
        timestamp: 1_700_000_018,
        block_hash: test_hash(0xB1),
        parent_hash: dig_coinstore::Bytes32::new([0u8; 32]),
        additions: vec![],
        removals: vec![],
        coinbase_coins: vec![
            test_coin(200, 201, 1_750_000_000_000),
            test_coin(202, 203, 250_000_000_000),
        ],
        hints: vec![],
        expected_state_root: None,
    };
    let _result = store.apply_block(block).unwrap();
    let _rb = store.rollback_to_block(0).unwrap();
}
#[test]
fn vv_req_con_002_rwlock_wrapper_compiles() {
    let mut store = CoinStore::new("./coinstate").unwrap();
    store.init_genesis(vec![], 1_700_000_000).unwrap();

    let shared = Arc::new(RwLock::new(store));
    {
        let r = shared.read();
        let _h = r.height();
        let _s = r.stats();
    }
    {
        let mut w = shared.write();
        let block = dig_coinstore::BlockData {
            height: 1,
            timestamp: 1_700_000_018,
            block_hash: test_hash(0xB1),
            parent_hash: dig_coinstore::Bytes32::new([0u8; 32]),
            additions: vec![],
            removals: vec![],
            coinbase_coins: vec![
                test_coin(200, 201, 1_750_000_000_000),
                test_coin(202, 203, 250_000_000_000),
            ],
            hints: vec![],
            expected_state_root: None,
        };
        let _r = w.apply_block(block).unwrap();
    }
}
