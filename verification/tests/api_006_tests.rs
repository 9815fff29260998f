//! Block application and rollback result types.
use dig_coinstore::{
    ApplyBlockResult, BlockData, Bytes32, Coin, CoinId, CoinRecord, CoinStore, CoinStoreError,
    RollbackResult,
};

fn test_hash(seed: u8) -> Bytes32 {
    Bytes32::new([seed; 32])
}

fn test_coin(parent_seed: u8, puzzle_seed: u8, amount: u64) -> Coin {
    Coin::new(test_hash(parent_seed), test_hash(puzzle_seed), amount)
}

#[test]
fn vv_req_api_006_apply_block_result_all_fields_accessible() {
    let root = test_hash(0x71);
    let r = ApplyBlockResult { state_root: root, coins_created: 11, coins_spent: 4, height: 99 };
    assert_eq!(r.state_root, root);
    assert_eq!(r.coins_created, 11);
    assert_eq!(r.coins_spent, 4);
    assert_eq!(r.height, 99);
    assert_eq!(r, r.clone());
}

#[test]
fn vv_req_api_006_rollback_result_all_fields_and_hashmap_type() {
    let coin_a = test_coin(1, 2, 100);
    let coin_b = test_coin(3, 4, 200);
    let id_a: CoinId = coin_a.coin_id();
    let id_b: CoinId = coin_b.coin_id();
    let rec_a = CoinRecord::new(coin_a, 10, 1_700_000_000, false);
    let rec_b = CoinRecord::new(coin_b, 11, 1_700_000_001, true);
    let modified = vec![(id_a, rec_a), (id_b, rec_b)];
    let roll = RollbackResult { modified_coins: modified, coins_deleted: 2, coins_unspent: 0, new_height: 5 };
    assert_eq!(roll.modified_coins.len(), 2);
    assert_eq!(roll.coins_deleted + roll.coins_unspent, roll.modified_coins.len());
    assert_eq!(roll.new_height, 5);
}

#[test]
fn vv_req_api_006_rollback_result_count_invariant_matches_map_len() {
    let c1 = test_coin(5, 6, 1);
    let c2 = test_coin(7, 8, 2);
    let c3 = test_coin(9, 10, 3);
    let m = vec![
        (c1.coin_id(), CoinRecord::new(c1, 3, 0, false)),
        (c2.coin_id(), CoinRecord::new(c2, 4, 0, false)),
        (c3.coin_id(), CoinRecord::new(c3, 4, 0, false)),
    ];
    let roll = RollbackResult { modified_coins: m, coins_deleted: 1, coins_unspent: 2, new_height: 2 };
    assert_eq!(roll.coins_deleted + roll.coins_unspent, roll.modified_coins.len());
}

fn minimal_block_at(height: u64) -> BlockData {
    BlockData {
        height,
        timestamp: 0,
        block_hash: test_hash(0xC1),
        parent_hash: test_hash(0xC2),
        additions: vec![],
        removals: vec![],
        coinbase_coins: vec![],
        hints: vec![],
        expected_state_root: None,
    }
}

#[test]
fn vv_req_api_006_apply_block_not_initialized_without_genesis() {
    let mut store = CoinStore::new("./coinstate-api-006").unwrap();
    let out: Result<ApplyBlockResult, CoinStoreError> = store.apply_block(minimal_block_at(1));
    assert!(matches!(out, Err(CoinStoreError::NotInitialized)));
}

#[test]
fn apply_block_at_wrong_height_after_genesis_is_height_mismatch() {
    let mut store = CoinStore::new("./coinstate-api-006").unwrap();
    store.init_genesis(vec![], 1_700_000_000).unwrap();
    let out = store.apply_block(minimal_block_at(7));
    assert_eq!(out, Err(CoinStoreError::HeightMismatch { expected: 1, got: 7 }));
}

#[test]
fn rollback_before_genesis_is_not_initialized() {
    let mut store = CoinStore::new("./coinstate-api-006").unwrap();
    assert_eq!(store.rollback_to_block(0), Err(CoinStoreError::NotInitialized));
    assert_eq!(store.rollback_n_blocks(2), Err(CoinStoreError::NotInitialized));
}

#[test]
fn rollback_counts_match_modified_coins() {
    let mut store = CoinStore::new("./coinstate-api-006").unwrap();
    let g = test_coin(1, 2, 50);
    store.init_genesis(vec![(g, false)], 1).unwrap();
    let mut b = minimal_block_at(1);
    b.parent_hash = Bytes32::new([0u8; 32]);
    b.coinbase_coins = vec![test_coin(200, 201, 10), test_coin(202, 203, 20)];
    b.removals = vec![g.coin_id()];
    store.apply_block(b).unwrap();
    let res = store.rollback_to_block(0).unwrap();
    assert_eq!(res.coins_deleted, 2);
    assert_eq!(res.coins_unspent, 1);
    assert_eq!(res.coins_deleted + res.coins_unspent, res.modified_coins.len());
    assert_eq!(res.new_height, 0);
}
