//! Domain types: coins, coin records, block payloads and result structs.
//!
//! [`Coin`], [`CoinState`] and [`CoinStateFilters`] hold the same fields as the Chia protocol
//! types of those names; a coin's id is the one `chia_protocol::Coin::coin_id` computes.
use crate::bytes::{be_bytes, Bytes32};
use crate::merkle::spec_sha256;
use vstd::prelude::*;

verus! {

/// 32-byte coin identifier: `sha256(parent_coin_info || puzzle_hash || amount)`.
pub type CoinId = Bytes32;

/// Puzzle hash (SHA256 of the serialized puzzle program).
pub type PuzzleHash = Bytes32;

/// A coin: parent coin id, puzzle hash and amount (mojos).
#[derive(Debug, Clone, Copy, PartialEq, Eq, Hash)]
pub struct Coin {
    pub parent_coin_info: Bytes32,
    pub puzzle_hash: Bytes32,
    pub amount: u64,
}

/// The bytes of `amount` that a coin id hashes: the shortest big-endian two's-complement
/// encoding of the (non-negative) amount, so no bytes for 0 and a leading zero byte when the
/// top bit of the first significant byte is set.
pub open spec fn amount_bytes(amount: u64) -> Seq<u8> {
    let b = be_bytes(amount);
    if amount >= 0x8000_0000_0000_0000u64 {
        seq![0u8] + b
    } else if amount >= 0x0080_0000_0000_0000u64 {
        b
    } else if amount >= 0x8000_0000_0000u64 {
        b.skip(1)
    } else if amount >= 0x0080_0000_0000u64 {
        b.skip(2)
    } else if amount >= 0x8000_0000u64 {
        b.skip(3)
    } else if amount >= 0x0080_0000u64 {
        b.skip(4)
    } else if amount >= 0x8000u64 {
        b.skip(5)
    } else if amount >= 0x80u64 {
        b.skip(6)
    } else if amount > 0 {
        b.skip(7)
    } else {
        Seq::empty()
    }
}

/// The id of a coin with these fields: `SHA256(parent || puzzle_hash || amount_bytes(amount))`.
pub open spec fn spec_coin_id(parent: Seq<u8>, puzzle_hash: Seq<u8>, amount: u64) -> Seq<u8> {
    spec_sha256(parent + puzzle_hash + amount_bytes(amount))
}

/// The id of `c`.
pub open spec fn coin_id_of(c: Coin) -> Seq<u8> {
    spec_coin_id(c.parent_coin_info@, c.puzzle_hash@, c.amount)
}

/// Calls `chia_protocol::Coin::coin_id` on a coin built from these fields. Claimed, as its
/// source computes it with `chia_sha2::Sha256`: the digest of the parent id, the puzzle hash and
/// the amount bytes ([`amount_bytes`]), in that order.
#[verifier::external_body]
fn chia_coin_id(parent: &Bytes32, puzzle_hash: &Bytes32, amount: u64) -> (r: Bytes32)
    ensures
        r@ == spec_coin_id(parent@, puzzle_hash@, amount),
{
    let coin = chia_protocol::Coin::new(
        chia_protocol::Bytes32::from(parent.bytes),
        chia_protocol::Bytes32::from(puzzle_hash.bytes),
        amount,
    );
    Bytes32 { bytes: coin.coin_id().to_bytes() }
}

impl Coin {
    /// A coin with the given fields.
    pub fn new(parent_coin_info: Bytes32, puzzle_hash: Bytes32, amount: u64) -> (r: Coin)
        ensures
            r == (Coin { parent_coin_info, puzzle_hash, amount }),
    {
        Coin { parent_coin_info, puzzle_hash, amount }
    }

    /// The coin id (same digest as `chia_protocol::Coin::coin_id`).
    pub fn coin_id(&self) -> (r: CoinId)
        ensures
            r@ == coin_id_of(*self),
    {
        chia_coin_id(&self.parent_coin_info, &self.puzzle_hash, self.amount)
    }
}

/// Lightweight coin state for the sync protocol: coin, spent height, created height.
#[derive(Debug, Clone, Copy, PartialEq, Eq, Hash)]
pub struct CoinState {
    pub coin: Coin,
    pub spent_height: Option<u32>,
    pub created_height: Option<u32>,
}

impl CoinState {
    /// A coin state with the given fields.
    pub fn new(coin: Coin, spent_height: Option<u32>, created_height: Option<u32>) -> (r: CoinState)
        ensures
            r == (CoinState { coin, spent_height, created_height }),
    {
        CoinState { coin, spent_height, created_height }
    }
}

/// Filters for batch coin state queries.
#[derive(Debug, Clone, Copy, PartialEq, Eq, Hash)]
pub struct CoinStateFilters {
    pub include_spent: bool,
    pub include_unspent: bool,
    pub include_hinted: bool,
    pub min_amount: u64,
}

impl CoinStateFilters {
    /// Filters with the given fields.
    pub fn new(include_spent: bool, include_unspent: bool, include_hinted: bool, min_amount: u64) -> (r:
        CoinStateFilters)
        ensures
            r == (CoinStateFilters { include_spent, include_unspent, include_hinted, min_amount }),
    {
        CoinStateFilters { include_spent, include_unspent, include_hinted, min_amount }
    }
}

/// Row-shaped coin metadata matching Chia's `CoinRecord` layout.
///
/// `spent_block_index == 0` means unspent; positive values are spent heights.
#[derive(Debug, Clone, Copy, PartialEq, Eq)]
pub struct ChiaCoinRecord {
    pub coin: Coin,
    pub confirmed_block_index: u32,
    pub spent_block_index: u32,
    pub coinbase: bool,
    pub timestamp: u64,
}

impl ChiaCoinRecord {
    /// Construct a protocol-shaped row.
    pub fn new(
        coin: Coin,
        confirmed_block_index: u32,
        spent_block_index: u32,
        coinbase: bool,
        timestamp: u64,
    ) -> (r: Self)
        ensures
            r == (ChiaCoinRecord {
                coin,
                confirmed_block_index,
                spent_block_index,
                coinbase,
                timestamp,
            }),
    {
        ChiaCoinRecord { coin, confirmed_block_index, spent_block_index, coinbase, timestamp }
    }
}

/// Full lifecycle state of one coin in the coinstore.
#[derive(Debug, Clone, Copy, PartialEq, Eq)]
pub struct CoinRecord {
    /// Immutable coin identity and value.
    pub coin: Coin,
    /// Height where the coin was created / confirmed.
    pub confirmed_height: u64,
    /// Spend height when spent; `None` if still unspent.
    pub spent_height: Option<u64>,
    /// Whether this coin came from the block reward.
    pub coinbase: bool,
    /// Timestamp of the confirming block.
    pub timestamp: u64,
    /// Singleton fast-forward candidate.
    pub ff_eligible: bool,
}

/// `h` truncated to 32 bits.
pub open spec fn trunc32(h: u64) -> u32 {
    (h % 0x1_0000_0000) as u32
}

/// The sync view of a record.
pub open spec fn spec_coin_state(r: CoinRecord) -> CoinState {
    CoinState {
        coin: r.coin,
        spent_height: match r.spent_height {
            Some(h) => Some(trunc32(h)),
            None => None,
        },
        created_height: Some(trunc32(r.confirmed_height)),
    }
}

/// The native record for a Chia-shaped row.
pub open spec fn spec_from_chia(c: ChiaCoinRecord) -> CoinRecord {
    CoinRecord {
        coin: c.coin,
        confirmed_height: c.confirmed_block_index as u64,
        spent_height: if c.spent_block_index == 0 {
            None
        } else {
            Some(c.spent_block_index as u64)
        },
        coinbase: c.coinbase,
        timestamp: c.timestamp,
        ff_eligible: false,
    }
}

/// The Chia-shaped row for a record whose heights fit in 32 bits.
pub open spec fn spec_to_chia(r: CoinRecord) -> ChiaCoinRecord {
    ChiaCoinRecord {
        coin: r.coin,
        confirmed_block_index: r.confirmed_height as u32,
        spent_block_index: match r.spent_height {
            Some(h) => h as u32,
            None => 0,
        },
        coinbase: r.coinbase,
        timestamp: r.timestamp,
    }
}

fn truncate_u32(h: u64) -> (r: u32)
    ensures
        r == trunc32(h),
{
    (h % 0x1_0000_0000) as u32
}

impl CoinRecord {
    /// New unspent record at `confirmed_height` with `ff_eligible = false`.
    pub fn new(coin: Coin, confirmed_height: u64, timestamp: u64, coinbase: bool) -> (r: Self)
        ensures
            r == (CoinRecord {
                coin,
                confirmed_height,
                spent_height: None,
                coinbase,
                timestamp,
                ff_eligible: false,
            }),
    {
        CoinRecord {
            coin,
            confirmed_height,
            spent_height: None,
            coinbase,
            timestamp,
            ff_eligible: false,
        }
    }

    /// `true` iff the spent height is present.
    pub fn is_spent(&self) -> (r: bool)
        ensures
            r == self.spent_height is Some,
    {
        self.spent_height.is_some()
    }

    /// Mark spent at `height` (a second call overwrites the height).
    pub fn spend(&mut self, height: u64)
        ensures
            *final(self) == (CoinRecord { spent_height: Some(height), ..*old(self) }),
    {
        self.spent_height = Some(height);
    }

    /// The id of the embedded coin.
    pub fn coin_id(&self) -> (r: CoinId)
        ensures
            r@ == coin_id_of(self.coin),
    {
        self.coin.coin_id()
    }

    /// Lightweight sync view; heights are cut to their low 32 bits.
    pub fn to_coin_state(&self) -> (r: CoinState)
        ensures
            r == spec_coin_state(*self),
    {
        let created = Some(truncate_u32(self.confirmed_height));
        let spent = match self.spent_height {
            Some(h) => Some(truncate_u32(h)),
            None => None,
        };
        CoinState::new(self.coin, spent, created)
    }

    /// Ingest a Chia-shaped row: `spent_block_index == 0` means unspent; `ff_eligible` is false.
    pub fn from_chia_coin_record(record: ChiaCoinRecord) -> (r: Self)
        ensures
            r == spec_from_chia(record),
    {
        let spent_height = if record.spent_block_index == 0 {
            None
        } else {
            Some(record.spent_block_index as u64)
        };
        CoinRecord {
            coin: record.coin,
            confirmed_height: record.confirmed_block_index as u64,
            spent_height,
            coinbase: record.coinbase,
            timestamp: record.timestamp,
            ff_eligible: false,
        }
    }

    /// Export to the Chia-shaped row (loses `ff_eligible`).
    pub fn to_chia_coin_record(&self) -> (r: ChiaCoinRecord)
        requires
            self.confirmed_height <= u32::MAX,
            self.spent_height matches Some(h) ==> h <= u32::MAX,
        ensures
            r == spec_to_chia(*self),
    {
        let spent_block_index: u32 = match self.spent_height {
            None => 0,
            Some(h) => h as u32,
        };
        ChiaCoinRecord::new(
            self.coin,
            self.confirmed_height as u32,
            spent_block_index,
            self.coinbase,
            self.timestamp,
        )
    }
}

/// Converting a Chia-shaped row to a record and back gives the row back; converting a record
/// whose heights fit in 32 bits to a row and back gives the record back with its fast-forward
/// flag cleared, unless it was spent at height 0 (which the row cannot tell from unspent).
pub proof fn lemma_chia_roundtrip(c: ChiaCoinRecord, r: CoinRecord)
    requires
        r.confirmed_height <= u32::MAX,
        r.spent_height matches Some(h) ==> 0 < h <= u32::MAX,
    ensures
        spec_to_chia(spec_from_chia(c)) == c,
        spec_from_chia(spec_to_chia(r)) == (CoinRecord { ff_eligible: false, ..r }),
{
}

/// A coin created by a block's transactions.
#[derive(Debug, Clone, Copy, PartialEq, Eq)]
pub struct CoinAddition {
    pub coin_id: CoinId,
    pub coin: Coin,
    pub same_as_parent: bool,
}

impl CoinAddition {
    /// An addition whose id is the coin's id.
    pub fn from_coin(coin: Coin, same_as_parent: bool) -> (r: CoinAddition)
        ensures
            r.coin == coin,
            r.coin_id@ == coin_id_of(coin),
            r.same_as_parent == same_as_parent,
    {
        CoinAddition { coin_id: coin.coin_id(), coin, same_as_parent }
    }
}

/// A validated block payload to apply to the store.
#[derive(Debug, Clone, PartialEq, Eq)]
pub struct BlockData {
    pub height: u64,
    pub timestamp: u64,
    pub block_hash: Bytes32,
    pub parent_hash: Bytes32,
    pub additions: Vec<CoinAddition>,
    pub removals: Vec<CoinId>,
    pub coinbase_coins: Vec<Coin>,
    pub hints: Vec<(CoinId, Bytes32)>,
    pub expected_state_root: Option<Bytes32>,
}

/// Result of a successful block application.
#[derive(Debug, Clone, Copy, PartialEq, Eq)]
pub struct ApplyBlockResult {
    pub state_root: Bytes32,
    pub coins_created: usize,
    pub coins_spent: usize,
    pub height: u64,
}

/// Result of a rollback: every coin record it deleted or un-spent, with counts.
#[derive(Debug, Clone, PartialEq, Eq)]
pub struct RollbackResult {
    pub modified_coins: Vec<(CoinId, CoinRecord)>,
    pub coins_deleted: usize,
    pub coins_unspent: usize,
    pub new_height: u64,
}

/// Aggregate chain statistics.
#[derive(Debug, Clone, Copy, PartialEq, Eq)]
pub struct CoinStoreStats {
    pub height: u64,
    pub timestamp: u64,
    pub unspent_count: u64,
    pub spent_count: u64,
    pub total_unspent_value: u64,
    pub state_root: Bytes32,
    pub tip_hash: Bytes32,
    pub hint_count: u64,
    pub snapshot_count: usize,
}

/// A full export of the store's state.
#[derive(Debug, Clone, PartialEq, Eq)]
pub struct CoinStoreSnapshot {
    pub height: u64,
    pub block_hash: Bytes32,
    pub state_root: Bytes32,
    pub timestamp: u64,
    pub coins: Vec<(CoinId, CoinRecord)>,
    pub hints: Vec<(CoinId, Bytes32)>,
    pub total_coins: u64,
    pub total_value: u64,
}

/// Singleton lineage of an unspent coin: the coin, its parent and its grandparent.
#[derive(Debug, Clone, Copy, PartialEq, Eq)]
pub struct UnspentLineageInfo {
    pub coin_id: CoinId,
    pub parent_id: CoinId,
    pub parent_parent_id: CoinId,
}

} // verus!
