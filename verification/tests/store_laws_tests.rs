//! Concrete checks of the store's laws: rollback, snapshots, hints, counts and pagination.
use dig_coinstore::{
    BlockData, Bytes32, Coin, CoinAddition, CoinStateFilters, CoinStore, CoinStoreError,
};

fn h(seed: u8) -> Bytes32 {
    Bytes32::new([seed; 32])
}

fn coin(parent: u8, puzzle: u8, amount: u64) -> Coin {
    Coin::new(h(parent), h(puzzle), amount)
}

fn block(height: u64, parent_hash: Bytes32, block_hash: Bytes32) -> BlockData {
    BlockData {
        height,
        timestamp: 1_700_000_000 + height * 18,
        block_hash,
        parent_hash,
        additions: vec![],
        removals: vec![],
        coinbase_coins: vec![
            coin(200 + height as u8, 201, 1_750_000_000_000),
            coin(220 + height as u8, 203, 250_000_000_000),
        ],
        hints: vec![],
        expected_state_root: None,
    }
}

fn genesis_store(coins: Vec<(Coin, bool)>) -> CoinStore {
    let mut store = CoinStore::new("./coinstate-laws").unwrap();
    store.init_genesis(coins, 1_700_000_000).unwrap();
    store
}

#[test]
fn rollback_to_height_zero_restores_genesis_state() {
    let a = coin(1, 2, 1_000);
    let mut store = genesis_store(vec![(a, false)]);
    let root_before = store.state_root();
    let tip_before = store.tip_hash();
    let total_before = store.num_total().unwrap();

    let child = coin(9, 2, 400);
    let mut b1 = block(1, tip_before, h(0xB1));
    b1.removals = vec![a.coin_id()];
    b1.additions = vec![CoinAddition::from_coin(child, false)];
    let res = store.apply_block(b1).unwrap();
    assert_eq!(res.coins_created, 3);
    assert_eq!(res.coins_spent, 1);
    assert!(!store.is_unspent(&a.coin_id()));
    assert!(store.is_unspent(&child.coin_id()));
    assert_ne!(store.state_root(), root_before);

    let rb = store.rollback_to_block(0).unwrap();
    assert_eq!(rb.new_height, 0);
    assert_eq!(rb.coins_deleted, 3);
    assert_eq!(rb.coins_unspent, 1);
    assert_eq!(store.height(), 0);
    assert_eq!(store.tip_hash(), tip_before);
    assert_eq!(store.state_root(), root_before);
    assert_eq!(store.num_total().unwrap(), total_before);
    assert!(store.is_unspent(&a.coin_id()));
    assert_eq!(store.get_coin_record(&child.coin_id()).unwrap(), None);
    let rec = store.get_coin_record(&a.coin_id()).unwrap().unwrap();
    assert_eq!(rec.spent_height, None);
}

#[test]
fn rollback_keeps_everything_at_or_below_target() {
    let mut store = genesis_store(vec![]);
    let r1 = store.apply_block(block(1, Bytes32::zero(), h(0xB1))).unwrap();
    let root1 = store.state_root();
    store.apply_block(block(2, h(0xB1), h(0xB2))).unwrap();
    store.apply_block(block(3, h(0xB2), h(0xB3))).unwrap();
    let rb = store.rollback_to_block(1).unwrap();
    assert_eq!(rb.coins_deleted, 4);
    assert_eq!(store.height(), 1);
    assert_eq!(store.tip_hash(), h(0xB1));
    assert_eq!(store.state_root(), root1);
    assert_eq!(r1.state_root, root1);
    assert_eq!(store.num_total().unwrap(), 2);
}

#[test]
fn rollback_above_tip_is_refused_and_changes_nothing() {
    let mut store = genesis_store(vec![]);
    store.apply_block(block(1, Bytes32::zero(), h(0xB1))).unwrap();
    let err = store.rollback_to_block(5).unwrap_err();
    assert_eq!(err, CoinStoreError::RollbackAboveTip { target: 5, current: 1 });
    assert_eq!(store.height(), 1);
    assert_eq!(store.num_total().unwrap(), 2);
}

#[test]
fn rollback_n_blocks_counts_back_from_tip() {
    let mut store = genesis_store(vec![]);
    store.apply_block(block(1, Bytes32::zero(), h(0xB1))).unwrap();
    store.apply_block(block(2, h(0xB1), h(0xB2))).unwrap();
    let rb = store.rollback_n_blocks(1).unwrap();
    assert_eq!(rb.new_height, 1);
    assert_eq!(store.height(), 1);
    let rb0 = store.rollback_n_blocks(10).unwrap();
    assert_eq!(rb0.new_height, 0);
    assert_eq!(store.num_total().unwrap(), 0);
}

#[test]
fn failed_block_leaves_store_unchanged() {
    let a = coin(1, 2, 1_000);
    let mut store = genesis_store(vec![(a, false)]);
    let root = store.state_root();
    let mut b1 = block(1, Bytes32::zero(), h(0xB1));
    b1.removals = vec![a.coin_id(), h(0x77)];
    let err = store.apply_block(b1).unwrap_err();
    assert_eq!(err, CoinStoreError::CoinNotFound(h(0x77)));
    assert_eq!(store.height(), 0);
    assert!(store.is_unspent(&a.coin_id()));
    assert_eq!(store.state_root(), root);
}

#[test]
fn every_block_error_variant_has_an_input() {
    let a = coin(1, 2, 1_000);
    let mut store = genesis_store(vec![(a, false)]);

    let err = store.apply_block(block(2, Bytes32::zero(), h(0xB2))).unwrap_err();
    assert_eq!(err, CoinStoreError::HeightMismatch { expected: 1, got: 2 });

    let err = store.apply_block(block(1, h(0x55), h(0xB1))).unwrap_err();
    assert_eq!(
        err,
        CoinStoreError::ParentHashMismatch { expected: Bytes32::zero(), got: h(0x55) }
    );

    let mut few = block(1, Bytes32::zero(), h(0xB1));
    few.coinbase_coins.truncate(1);
    match store.apply_block(few).unwrap_err() {
        CoinStoreError::InvalidRewardCoinCount { got, .. } => assert_eq!(got, 1),
        other => panic!("unexpected {:?}", other),
    }

    let mut twice = block(1, Bytes32::zero(), h(0xB1));
    twice.removals = vec![a.coin_id(), a.coin_id()];
    assert_eq!(
        store.apply_block(twice).unwrap_err(),
        CoinStoreError::SpendCountMismatch { expected: 2, actual: 1 }
    );

    let mut exists = block(1, Bytes32::zero(), h(0xB1));
    exists.additions = vec![CoinAddition::from_coin(a, false)];
    assert_eq!(
        store.apply_block(exists).unwrap_err(),
        CoinStoreError::CoinAlreadyExists(a.coin_id())
    );

    let mut wrong_root = block(1, Bytes32::zero(), h(0xB1));
    wrong_root.expected_state_root = Some(h(0xEE));
    match store.apply_block(wrong_root).unwrap_err() {
        CoinStoreError::StateRootMismatch { expected, .. } => assert_eq!(expected, h(0xEE)),
        other => panic!("unexpected {:?}", other),
    }
    assert_eq!(store.height(), 0);

    let mut spend = block(1, Bytes32::zero(), h(0xB1));
    spend.removals = vec![a.coin_id()];
    store.apply_block(spend).unwrap();
    let mut again = block(2, h(0xB1), h(0xB2));
    again.removals = vec![a.coin_id()];
    assert_eq!(store.apply_block(again).unwrap_err(), CoinStoreError::DoubleSpend(a.coin_id()));

    let mut fresh = CoinStore::new("./coinstate-laws").unwrap();
    assert_eq!(
        fresh.apply_block(block(1, Bytes32::zero(), h(0xB1))).unwrap_err(),
        CoinStoreError::NotInitialized
    );
    fresh.init_genesis(vec![], 1).unwrap();
    assert_eq!(fresh.init_genesis(vec![], 1).unwrap_err(), CoinStoreError::GenesisAlreadyInitialized);
}

#[test]
fn counts_partition_the_coin_set() {
    let a = coin(1, 2, 1_000);
    let b = coin(3, 4, 2_000);
    let mut store = genesis_store(vec![(a, false), (b, true)]);
    let mut b1 = block(1, Bytes32::zero(), h(0xB1));
    b1.removals = vec![a.coin_id()];
    store.apply_block(b1).unwrap();
    let unspent = store.num_unspent().unwrap();
    let total = store.num_total().unwrap();
    let stats = store.stats();
    assert_eq!(total, 4);
    assert_eq!(unspent, 3);
    assert_eq!(stats.unspent_count + stats.spent_count, total);
    assert_eq!(stats.spent_count, 1);
    assert_eq!(
        store.total_unspent_value().unwrap(),
        2_000u128 + 1_750_000_000_000u128 + 250_000_000_000u128
    );
}

#[test]
fn snapshot_then_restore_gives_back_the_state() {
    let a = coin(1, 2, 1_000);
    let mut store = genesis_store(vec![(a, false)]);
    store.apply_block(block(1, Bytes32::zero(), h(0xB1))).unwrap();
    store.add_hint(&a.coin_id(), &[7u8; 32]).unwrap();
    let snap = store.snapshot().unwrap();
    let root = store.state_root();
    assert_eq!(snap.state_root, root);
    assert_eq!(snap.height, 1);
    assert_eq!(snap.total_coins, 3);

    store.apply_block(block(2, h(0xB1), h(0xB2))).unwrap();
    assert_ne!(store.state_root(), root);

    store.restore(snap.clone()).unwrap();
    assert_eq!(store.height(), 1);
    assert_eq!(store.tip_hash(), h(0xB1));
    assert_eq!(store.state_root(), root);
    assert_eq!(store.num_total().unwrap(), 3);
    assert_eq!(store.get_coin_ids_by_hint(&h(7), 10).unwrap(), vec![a.coin_id()]);
    assert_eq!(store.snapshot().unwrap(), snap);
}

#[test]
fn saved_snapshots_are_kept_newest_last_within_the_limit() {
    let config = dig_coinstore::CoinStoreConfig::default_with_path("./coinstate-laws")
        .with_max_snapshots(2);
    let mut store = CoinStore::with_config(config).unwrap();
    store.init_genesis(vec![], 1_700_000_000).unwrap();
    store.save_snapshot().unwrap();
    store.apply_block(block(1, Bytes32::zero(), h(0xB1))).unwrap();
    store.save_snapshot().unwrap();
    store.apply_block(block(2, h(0xB1), h(0xB2))).unwrap();
    store.save_snapshot().unwrap();
    assert_eq!(store.available_snapshot_heights(), vec![1, 2]);
    assert_eq!(store.load_snapshot(0).unwrap(), None);
    assert_eq!(store.load_latest_snapshot().unwrap().unwrap().height, 2);
}

#[test]
fn a_stored_hint_is_found_and_adding_it_again_changes_nothing() {
    let a = coin(1, 2, 1_000);
    let mut store = genesis_store(vec![(a, false)]);
    let hint = [9u8; 32];
    store.add_hint(&a.coin_id(), &hint).unwrap();
    assert_eq!(store.count_hints().unwrap(), 1);
    store.add_hint(&a.coin_id(), &hint).unwrap();
    assert_eq!(store.count_hints().unwrap(), 1);
    assert_eq!(store.get_coin_ids_by_hint(&h(9), 5).unwrap(), vec![a.coin_id()]);
    assert_eq!(store.get_coin_ids_by_hint_bytes(&hint, 5).unwrap(), vec![a.coin_id()]);
    let hints = store.get_hints_for_coin_ids(&[a.coin_id()]).unwrap();
    assert_eq!(hints, vec![(a.coin_id(), vec![h(9)])]);
    assert_eq!(store.remove_hints_for_coins(&[a.coin_id()]).unwrap(), 1);
    assert_eq!(store.count_hints().unwrap(), 0);
    assert_eq!(store.get_coin_ids_by_hint(&h(9), 5).unwrap(), vec![]);
}

#[test]
fn empty_and_too_long_hints() {
    let a = coin(1, 2, 1_000);
    let mut store = genesis_store(vec![(a, false)]);
    store.add_hint(&a.coin_id(), &[]).unwrap();
    assert_eq!(store.count_hints().unwrap(), 0);
    let err = store.add_hint(&a.coin_id(), &[1u8; 33]).unwrap_err();
    assert_eq!(err, CoinStoreError::HintTooLong { length: 33, max: 32 });
}

#[test]
fn pagination_cuts_at_a_block_boundary() {
    let ph = h(0x42);
    let mut store = genesis_store(vec![]);
    let mut b1 = block(1, Bytes32::zero(), h(0xB1));
    b1.additions = vec![
        CoinAddition::from_coin(Coin::new(h(10), ph, 5), false),
        CoinAddition::from_coin(Coin::new(h(11), ph, 6), false),
    ];
    store.apply_block(b1).unwrap();
    let mut b2 = block(2, h(0xB1), h(0xB2));
    b2.additions = vec![
        CoinAddition::from_coin(Coin::new(h(12), ph, 7), false),
        CoinAddition::from_coin(Coin::new(h(13), ph, 8), false),
    ];
    store.apply_block(b2).unwrap();

    let filters = CoinStateFilters::new(true, true, false, 0);
    let (page, next) = store.batch_coin_states_by_puzzle_hashes(&[ph], 0, filters, 3).unwrap();
    assert_eq!(page.len(), 2);
    assert!(page.iter().all(|s| s.created_height == Some(1)));
    assert_eq!(next, Some(2));

    let (page, next) = store.batch_coin_states_by_puzzle_hashes(&[ph], 0, filters, 1).unwrap();
    assert!(page.is_empty());
    assert_eq!(next, Some(1));

    let (page, next) = store.batch_coin_states_by_puzzle_hashes(&[ph], 0, filters, 4).unwrap();
    assert_eq!(page.len(), 4);
    assert_eq!(next, None);

    let (page, _) = store
        .batch_coin_states_by_puzzle_hashes(&[ph], 0, CoinStateFilters::new(true, true, false, 7), 10)
        .unwrap();
    assert_eq!(page.len(), 2);

    let many = vec![ph; 991];
    let err = store.batch_coin_states_by_puzzle_hashes(&many, 0, filters, 10).unwrap_err();
    assert_eq!(err, CoinStoreError::PuzzleHashBatchTooLarge { size: 991, max: 990 });
}

#[test]
fn aggregate_sums_amounts_and_counts_per_puzzle_hash() {
    let mut store = genesis_store(vec![
        (Coin::new(h(1), h(0x50), 10), false),
        (Coin::new(h(2), h(0x50), 32), false),
        (Coin::new(h(3), h(0x51), 5), false),
    ]);
    let mut agg = store.aggregate_unspent_by_puzzle_hash().unwrap();
    agg.sort_by(|x, y| x.0.as_slice().cmp(y.0.as_slice()));
    assert_eq!(agg, vec![(h(0x50), (42, 2)), (h(0x51), (5, 1))]);
    let mut b1 = block(1, Bytes32::zero(), h(0xB1));
    b1.removals = vec![Coin::new(h(1), h(0x50), 10).coin_id()];
    store.apply_block(b1).unwrap();
    let agg = store.aggregate_unspent_by_puzzle_hash().unwrap();
    let e = agg.iter().find(|x| x.0 == h(0x50)).unwrap();
    assert_eq!(e.1, (32, 1));
}

#[test]
fn lineage_names_parent_and_grandparent() {
    let ph = h(0x60);
    let grand = Coin::new(h(1), ph, 1);
    let mut store = genesis_store(vec![(grand, false)]);
    let parent = Coin::new(grand.coin_id(), ph, 1);
    let mut b1 = block(1, Bytes32::zero(), h(0xB1));
    b1.removals = vec![grand.coin_id()];
    b1.additions = vec![CoinAddition::from_coin(parent, true)];
    store.apply_block(b1).unwrap();
    let child = Coin::new(parent.coin_id(), ph, 1);
    let mut b2 = block(2, h(0xB1), h(0xB2));
    b2.removals = vec![parent.coin_id()];
    b2.additions = vec![CoinAddition::from_coin(child, true)];
    store.apply_block(b2).unwrap();
    let info = store.get_unspent_lineage_info_for_puzzle_hash(&ph).unwrap().unwrap();
    assert_eq!(info.coin_id, child.coin_id());
    assert_eq!(info.parent_id, parent.coin_id());
    assert_eq!(info.parent_parent_id, grand.coin_id());
    assert_eq!(store.get_unspent_lineage_info_for_puzzle_hash(&h(0x61)).unwrap(), None);
}

#[test]
fn queries_by_height_and_parent() {
    let a = coin(1, 2, 1_000);
    let mut store = genesis_store(vec![(a, false)]);
    let kid = Coin::new(a.coin_id(), h(3), 10);
    let mut b1 = block(1, Bytes32::zero(), h(0xB1));
    b1.removals = vec![a.coin_id()];
    b1.additions = vec![CoinAddition::from_coin(kid, false)];
    store.apply_block(b1).unwrap();
    assert_eq!(store.get_coins_added_at_height(1).unwrap().len(), 3);
    let removed = store.get_coins_removed_at_height(1).unwrap();
    assert_eq!(removed.len(), 1);
    assert_eq!(removed[0].coin, a);
    let kids = store
        .get_coin_records_by_parent_ids(true, &[a.coin_id()], 0, u64::MAX)
        .unwrap();
    assert_eq!(kids.len(), 1);
    assert_eq!(kids[0].coin, kid);
    let by_ph = store.get_coin_records_by_puzzle_hash(true, &h(2), 0, u64::MAX).unwrap();
    assert_eq!(by_ph.len(), 1);
    let unspent_only = store.get_coin_records_by_puzzle_hash(false, &h(2), 0, u64::MAX).unwrap();
    assert!(unspent_only.is_empty());
}

#[test]
fn a_store_rebuilt_from_stored_state_matches_the_live_one() {
    let a = coin(1, 2, 1_000);
    let b = coin(3, 4, 2_000);
    let mut live = genesis_store(vec![(a, false), (b, true)]);
    live.apply_block(block(1, Bytes32::zero(), h(0xB1))).unwrap();
    let snap = live.snapshot().unwrap();
    let records: Vec<_> = snap.coins.iter().map(|(_, r)| *r).collect();
    let config = dig_coinstore::CoinStoreConfig::default_with_path("./coinstate-laws");
    let mut rebuilt = CoinStore::with_persisted_state(
        config.clone(),
        true,
        Some(1u64.to_le_bytes().to_vec()),
        Some(h(0xB1).to_vec()),
        Some(live.timestamp().to_le_bytes().to_vec()),
        records,
    )
    .unwrap();
    assert!(rebuilt.is_initialized());
    assert_eq!(rebuilt.height(), 1);
    assert_eq!(rebuilt.tip_hash(), h(0xB1));
    assert_eq!(rebuilt.timestamp(), live.timestamp());
    assert_eq!(rebuilt.state_root(), live.state_root());
    assert_eq!(rebuilt.num_total().unwrap(), 4);
    rebuilt.apply_block(block(2, h(0xB1), h(0xB2))).unwrap();

    let odd = CoinStore::with_persisted_state(
        config.clone(),
        true,
        Some(vec![1, 2, 3]),
        None,
        None,
        vec![],
    )
    .unwrap();
    assert_eq!(odd.height(), 0);
    assert_eq!(odd.tip_hash(), Bytes32::zero());

    let fresh =
        CoinStore::with_persisted_state(config, false, Some(vec![9; 8]), None, None, vec![]).unwrap();
    assert!(!fresh.is_initialized());
    assert_eq!(fresh.height(), 0);
}

#[test]
fn an_addition_with_a_wrong_id_is_refused() {
    let mut store = genesis_store(vec![]);
    let c = coin(5, 6, 7);
    let mut b1 = block(1, Bytes32::zero(), h(0xB1));
    b1.additions = vec![CoinAddition { coin_id: h(0x99), coin: c, same_as_parent: false }];
    assert_eq!(
        store.apply_block(b1).unwrap_err(),
        CoinStoreError::StorageError("apply_block: addition coin_id does not match its coin".to_string())
    );
    assert_eq!(store.height(), 0);
    assert_eq!(store.num_total().unwrap(), 0);
}

#[test]
fn hint_queries_answer_in_coin_order_without_repeats() {
    let coins: Vec<Coin> = (1u8..=5).map(|i| coin(i, 9, i as u64)).collect();
    let mut store = genesis_store(coins.iter().map(|c| (*c, false)).collect());
    let hint = [0xAAu8; 32];
    for c in coins.iter().rev() {
        store.add_hint(&c.coin_id(), &hint).unwrap();
        store.add_hint(&c.coin_id(), &hint).unwrap();
    }
    assert_eq!(store.count_hints().unwrap(), 5);
    let mut ids: Vec<Bytes32> = coins.iter().map(|c| c.coin_id()).collect();
    ids.sort_by(|a, b| a.as_slice().cmp(b.as_slice()));
    assert_eq!(store.get_coin_ids_by_hint(&Bytes32::new(hint), 2).unwrap(), ids[..2].to_vec());
    assert_eq!(store.get_coin_ids_by_hint(&Bytes32::new(hint), 10).unwrap(), ids);
    store.add_hint(&coins[0].coin_id(), &[0xAAu8; 16]).unwrap();
    assert_eq!(store.get_coin_ids_by_hint_bytes(&[0xAAu8; 16], 10).unwrap(), vec![coins[0].coin_id()]);
    assert_eq!(store.get_coin_ids_by_hint_bytes(&hint, 10).unwrap(), ids);
    assert_eq!(
        store.get_coin_ids_by_hints(&[Bytes32::new(hint), Bytes32::new(hint)], 3).unwrap(),
        ids[..3].to_vec()
    );
    store.add_hint(&coins[0].coin_id(), &[0x01u8; 32]).unwrap();
    let listed = store.get_hints_for_coin_ids(&[coins[0].coin_id()]).unwrap();
    assert_eq!(listed, vec![(coins[0].coin_id(), vec![h(0x01), Bytes32::new(hint)])]);
    assert_eq!(store.remove_hints_for_coins(&[coins[0].coin_id(), coins[0].coin_id()]).unwrap(), 3);
    assert_eq!(store.count_hints().unwrap(), 4);
}

#[test]
fn the_hint_entry_list_holds_every_hint_length() {
    let a = coin(1, 2, 1_000);
    let mut store = genesis_store(vec![(a, false)]);
    store.add_hint(&a.coin_id(), &[7u8; 5]).unwrap();
    store.add_hint(&a.coin_id(), &[7u8; 32]).unwrap();
    let mut k1 = a.coin_id().to_vec();
    k1.extend_from_slice(&[7u8; 5]);
    let mut k2 = a.coin_id().to_vec();
    k2.extend_from_slice(&[7u8; 32]);
    assert_eq!(store.hint_entry_list(), vec![k1, k2]);
    assert_eq!(store.snapshot().unwrap().hints.len(), 1);
}
