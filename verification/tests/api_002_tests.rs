//! Coin record type behaviour.
use dig_coinstore::{Bytes32, ChiaCoinRecord, Coin, CoinId, CoinRecord, CoinState};

fn test_hash(seed: u8) -> Bytes32 {
    Bytes32::new([seed; 32])
}

fn test_coin(parent_seed: u8, puzzle_seed: u8, amount: u64) -> Coin {
    Coin::new(test_hash(parent_seed), test_hash(puzzle_seed), amount)
}

#[test]
fn vv_req_api_002_all_fields_accessible() {
    let coin = test_coin(1, 2, 3);
    let r = CoinRecord {
        coin,
        confirmed_height: 10,
        spent_height: Some(20),
        coinbase: true,
        timestamp: 1_700_000_001,
        ff_eligible: true,
    };
    assert_eq!(r.confirmed_height, 10);
    assert_eq!(r.spent_height, Some(20));
    assert!(r.coinbase);
    assert_eq!(r.timestamp, 1_700_000_001);
    assert!(r.ff_eligible);
    assert_eq!(r.coin, coin);
}

#[test]
fn vv_req_api_002_new_creates_unspent_ff_false() {
    let coin = test_coin(7, 8, 9);
    let r = CoinRecord::new(coin, 100, 1_234, false);
    assert!(!r.is_spent(), "new() must leave spent_height unset");
    assert_eq!(r.spent_height, None);
    assert!(!r.ff_eligible);
    assert_eq!(r.confirmed_height, 100);
    assert_eq!(r.timestamp, 1_234);
}

#[test]
fn vv_req_api_002_spend_marks_spent() {
    let mut r = CoinRecord::new(test_coin(1, 1, 1), 1, 0, false);
    r.spend(500);
    assert_eq!(r.spent_height, Some(500));
    assert!(r.is_spent());
}

#[test]
fn vv_req_api_002_coin_id_matches_coin() {
    let coin = test_coin(11, 22, 33);
    let r = CoinRecord::new(coin, 5, 0, false);
    assert_eq!(r.coin_id(), coin.coin_id());
    let _: CoinId = r.coin_id();
}

#[test]
fn vv_req_api_002_to_coin_state_maps_heights() {
    let coin = test_coin(3, 3, 3);
    let mut r = CoinRecord::new(coin, 42, 0, false);
    r.spend(100);
    let cs: CoinState = r.to_coin_state();
    assert_eq!(cs.coin, coin);
    assert_eq!(cs.created_height, Some(42));
    assert_eq!(cs.spent_height, Some(100));
}

#[test]
fn vv_req_api_002_clone_round_trip_fields() {
    let r1 = CoinRecord::new(test_coin(9, 9, 9), 9, 9, true);
    let r2 = r1.clone();
    assert_eq!(r1, r2);
}

#[test]
fn vv_req_api_002_double_spend_overwrites_height() {
    let mut r = CoinRecord::new(test_coin(1, 2, 3), 1, 0, false);
    r.spend(10);
    r.spend(99);
    assert_eq!(r.spent_height, Some(99));
}

#[test]
fn vv_req_api_002_to_coin_state_u32_boundary() {
    let h = u64::from(u32::MAX);
    let r = CoinRecord::new(test_coin(1, 1, 1), h, 0, false);
    let cs = r.to_coin_state();
    assert_eq!(cs.created_height, Some(u32::MAX));
}

#[test]
fn to_coin_state_truncates_heights_above_u32() {
    let mut r = CoinRecord::new(test_coin(1, 1, 1), (1u64 << 32) + 5, 0, false);
    r.spend((1u64 << 33) + 7);
    let cs = r.to_coin_state();
    assert_eq!(cs.created_height, Some(5));
    assert_eq!(cs.spent_height, Some(7));
}

#[test]
fn vv_req_api_002_from_chia_unspent() {
    let coin = test_coin(5, 5, 5);
    let chia = ChiaCoinRecord::new(coin, 300, 0, false, 1_111);
    let r = CoinRecord::from_chia_coin_record(chia);
    assert_eq!(r.spent_height, None);
    assert!(!r.is_spent());
    assert!(!r.ff_eligible);
    assert_eq!(r.confirmed_height, 300);
    assert_eq!(r.timestamp, 1_111);
    assert_eq!(r.coin, coin);
}

#[test]
fn vv_req_api_002_from_chia_spent() {
    let coin = test_coin(6, 6, 6);
    let chia = ChiaCoinRecord::new(coin, 1, 500, false, 2_222);
    let r = CoinRecord::from_chia_coin_record(chia);
    assert_eq!(r.spent_height, Some(500));
    assert!(r.is_spent());
}

#[test]
fn vv_req_api_002_to_chia_coin_record() {
    let coin = test_coin(7, 7, 7);
    let mut r = CoinRecord::new(coin, 50, 0, true);
    r.spend(60);
    let chia = r.to_chia_coin_record();
    assert_eq!(chia.confirmed_block_index, 50);
    assert_eq!(chia.spent_block_index, 60);
    assert!(chia.coinbase);
    assert_eq!(chia.coin, coin);
}

#[test]
fn vv_req_api_002_chia_roundtrip_resets_ff_eligible() {
    let coin = test_coin(8, 8, 8);
    let mut native = CoinRecord::new(coin, 1000, 0, false);
    native.ff_eligible = true;
    native.spend(1001);
    let roundtrip = CoinRecord::from_chia_coin_record(native.to_chia_coin_record());
    assert_eq!(roundtrip.coin, native.coin);
    assert_eq!(roundtrip.confirmed_height, native.confirmed_height);
    assert_eq!(roundtrip.spent_height, native.spent_height);
    assert_eq!(roundtrip.coinbase, native.coinbase);
    assert_eq!(roundtrip.timestamp, native.timestamp);
    assert!(!roundtrip.ff_eligible, "ff_eligible is not carried on Chia row; must default false after roundtrip");
}

#[test]
fn coin_id_is_chia_coin_id() {
    let coin = test_coin(11, 22, 33);
    let chia = chia_protocol::Coin::new(
        chia_protocol::Bytes32::from([11u8; 32]),
        chia_protocol::Bytes32::from([22u8; 32]),
        33,
    );
    assert_eq!(coin.coin_id().bytes, chia.coin_id().to_bytes());
    assert_ne!(coin.coin_id(), coin.parent_coin_info);
}
