//! `CoinStore`: the authoritative set of coin records of a chain, with its hint index, its
//! sparse Merkle tree and its chain tip.
//!
//! # Model
//!
//! - **Coins:** a map from coin id to [`CoinRecord`] ([`CoinStore::coin_map`]), held as a list
//!   sorted by coin id ([`CoinStore::coin_list`]); queries return records in that order.
//! - **Hints:** a set of `(coin id, hint)` entries ([`CoinStore::hint_entries`]).
//! - **Merkle tree:** always holds, for every coin, the leaf hash of the record's stored row, so
//!   the state root is [`spec_state_root`] of the coin map.
//! - **Tip:** height, block hash and timestamp of the last applied block, and the tips of the
//!   blocks below it that rollback returns to ([`CoinStore::tip_history`]).
//!
//! Before genesis the store holds no coins, height 0, a zero tip hash and timestamp 0.
use crate::bytes::{from_le, lex_lt, read_u64_le, zero32, Bytes32};
use crate::config::{spec_default_config, CoinStoreConfig, StorageBackend};
use crate::error::CoinStoreError;
use crate::hints::{
    of_coins,
    copy_bytes,
    coins_with_hint, drop_entries_of_coins, full_hint_of, full_hints_of_coin, hint_entry,
    hint_list_wf, hint_part, insert_entry, key_views, make_hint_entry, not_of_coins, with_hint,
    coin_part, whole_entry, lemma_hint_entry_parts, lemma_insert_keeps_wf, MAX_HINT_LENGTH,
};
use crate::block_apply::{
    addition_ids_ok, check_addition_ids,
    all_fresh, applied_map, apply_changes, block_hint_entries, check_removals,
    collect_new_records, distinct_removals, fresh_at, new_records, removal_error,
    removals_distinct,
};
use crate::queries::id_views;
use crate::batch::{batch_page, batch_sorted, batch_states, height_id_sorted, MAX_PUZZLE_HASH_BATCH_SIZE};
use crate::rollback::{
    id_of, is_deleted, is_modified, is_unspent_again, report, rollback_coins, rolled_back_map,
};
use crate::merkle::SparseMerkleTree;
use crate::records::{
    coin_list_wf, coins_map, leaf_map, lemma_coins_map_empty, lemma_leaf_map_empty,
    lemma_leaf_map_insert, record_leaf, spec_state_root, upsert_coin,
};
use crate::queries::{
    collect_for_keys, collect_records, count_spent, count_unspent, lineage_of, lookup_distinct,
    lookup_filtered, lookup_states, name_image, parent_key, ph_key, records_by_ids,
    records_for_keys, records_matching, spec_lineage, spent_entry, state_image, states_of,
    states_upto, sum_unspent, sum_unspent_saturating, unspent_entry, amount_of, RecordFilter,
    saturated_unspent_total, aggregate_unspent, aggregate_ok, unspent_with_ph,
};
use crate::snapshot::{
    copy_snapshot, entries_from_pairs, entry_pair, first_at_least, full_entry, hint_pairs, save_into,
    keep_latest, lemma_put_keep_sorted, pair_entries, pair_views, put_snapshot, snap_view,
    snaps_sorted, snapshot_ids_ok, sorted_snapshot_coins, tree_of,
};
use crate::records::{copy_coins, lookup_coin};
use crate::select::{count, flat_map, select, sum, take_upto};
use crate::types::{
    coin_id_of, ApplyBlockResult, BlockData, CoinStateFilters, RollbackResult, Coin, CoinId, CoinRecord, CoinState,
    CoinStoreSnapshot, CoinStoreStats, UnspentLineageInfo,
};
use vstd::prelude::*;

verus! {

/// The primary store: coin records, hints, Merkle tree and chain tip.
pub struct CoinStore {
    config: CoinStoreConfig,
    coins: Vec<(Bytes32, CoinRecord)>,
    hints: Vec<Vec<u8>>,
    merkle_tree: SparseMerkleTree,
    height: u64,
    tip_hash: Bytes32,
    timestamp: u64,
    initialized: bool,
    tips: Vec<(u64, Bytes32, u64)>,
    snapshots: Vec<CoinStoreSnapshot>,
}

/// The record of a coin created at genesis.
pub open spec fn genesis_record(coin: Coin, coinbase: bool, timestamp: u64) -> CoinRecord {
    CoinRecord {
        coin,
        confirmed_height: 0,
        spent_height: None,
        coinbase,
        timestamp,
        ff_eligible: false,
    }
}

/// The coin map after genesis: each listed coin under its id; when a coin is listed twice, the
/// later listing wins.
pub open spec fn genesis_map(coins: Seq<(Coin, bool)>, timestamp: u64) -> Map<Seq<u8>, CoinRecord>
    decreases coins.len(),
{
    if coins.len() == 0 {
        Map::empty()
    } else {
        genesis_map(coins.drop_last(), timestamp).insert(
            coin_id_of(coins.last().0),
            genesis_record(coins.last().0, coins.last().1, timestamp),
        )
    }
}

/// Genesis stores each listed coin under its id, with its genesis record, and nothing else;
/// when no two listed coins share an id, each record is the one of its own listing.
pub proof fn lemma_genesis_records(coins: Seq<(Coin, bool)>, timestamp: u64)
    requires
        forall|i: int, j: int|
            0 <= i < j < coins.len() ==> coin_id_of(#[trigger] coins[i].0) != coin_id_of(
                #[trigger] coins[j].0,
            ),
    ensures
        forall|i: int|
            0 <= i < coins.len() ==> genesis_map(coins, timestamp).dom().contains(
                coin_id_of((#[trigger] coins[i]).0),
            ) && genesis_map(coins, timestamp)[coin_id_of(coins[i].0)] == genesis_record(
                coins[i].0,
                coins[i].1,
                timestamp,
            ),
        forall|k: Seq<u8>|
            #[trigger] genesis_map(coins, timestamp).dom().contains(k) ==> exists|i: int|
                0 <= i < coins.len() && coin_id_of((#[trigger] coins[i]).0) == k,
    decreases coins.len(),
{
    if coins.len() > 0 {
        let t = coins.drop_last();
        assert forall|i: int, j: int|
            0 <= i < j < t.len() implies coin_id_of(#[trigger] t[i].0) != coin_id_of(
                #[trigger] t[j].0,
            ) by {
            assert(t[i] == coins[i] && t[j] == coins[j]);
        }
        lemma_genesis_records(t, timestamp);
        let last = coins.last();
        assert(coins[coins.len() - 1] == last);
        assert forall|i: int| 0 <= i < coins.len() implies genesis_map(coins, timestamp).dom().contains(
            coin_id_of((#[trigger] coins[i]).0),
        ) && genesis_map(coins, timestamp)[coin_id_of(coins[i].0)] == genesis_record(
            coins[i].0,
            coins[i].1,
            timestamp,
        ) by {
            if i < t.len() {
                assert(t[i] == coins[i]);
                assert(coin_id_of(coins[i].0) != coin_id_of(coins[coins.len() - 1].0));
            }
        }
        assert forall|k: Seq<u8>| #[trigger] genesis_map(coins, timestamp).dom().contains(
            k,
        ) implies exists|i: int| 0 <= i < coins.len() && coin_id_of((#[trigger] coins[i]).0) == k by {
            if k != coin_id_of(last.0) {
                assert(genesis_map(t, timestamp).dom().contains(k));
                let i = choose|i: int| 0 <= i < t.len() && coin_id_of((#[trigger] t[i]).0) == k;
                assert(coins[i] == t[i]);
            } else {
                assert(coin_id_of(coins[coins.len() - 1].0) == k);
            }
        }
    }
}

/// The height a rollback to `t` lands on.
pub open spec fn rollback_height(t: int) -> u64 {
    if t < 0 {
        0
    } else {
        t as u64
    }
}

/// Tip history: consecutive heights ending at the current tip.
pub open spec fn tips_wf(tips: Seq<(u64, Bytes32, u64)>, height: u64, hash: Bytes32, ts: u64) -> bool {
    &&& tips.len() > 0
    &&& tips.last() == (height, hash, ts)
    &&& forall|i: int| 0 <= i < tips.len() ==> #[trigger] tips[i].0 == tips[0].0 + i
}

/// The coin map of a list of records: each under its coin's id, a later record of the same coin
/// replacing an earlier one.
pub open spec fn records_map(recs: Seq<CoinRecord>) -> Map<Seq<u8>, CoinRecord>
    decreases recs.len(),
{
    if recs.len() == 0 {
        Map::empty()
    } else {
        records_map(recs.drop_last()).insert(coin_id_of(recs.last().coin), recs.last())
    }
}

/// The bytes of an optional stored value.
pub open spec fn opt_bytes(v: Option<Vec<u8>>) -> Option<Seq<u8>> {
    match v {
        Some(b) => Some(b@),
        None => None,
    }
}

/// A stored number: the little-endian value of exactly 8 bytes, else 0.
pub open spec fn stored_u64(v: Option<Seq<u8>>) -> u64 {
    match v {
        Some(b) => if b.len() == 8 {
            from_le(b)
        } else {
            0
        },
        None => 0,
    }
}

/// A stored hash: the first 32 bytes of the value; the zero hash when absent.
pub open spec fn stored_hash(v: Option<Seq<u8>>) -> Seq<u8> {
    match v {
        Some(b) => b.subrange(0, 32),
        None => zero32(),
    }
}

/// Read a stored number ([`stored_u64`]).
fn stored_number(v: &Option<Vec<u8>>) -> (r: u64)
    ensures
        r == stored_u64(opt_bytes(*v)),
{
    match v {
        Some(b) => {
            if b.len() == 8 {
                let r = read_u64_le(b.as_slice(), 0);
                assert(b@.subrange(0, 8) =~= b@);
                r
            } else {
                0
            }
        },
        None => 0,
    }
}

impl CoinStore {
    /// The coin records, sorted by coin id.
    pub closed spec fn coin_list(&self) -> Seq<(Bytes32, CoinRecord)> {
        self.coins@
    }

    /// The coin records by coin id.
    pub open spec fn coin_map(&self) -> Map<Seq<u8>, CoinRecord> {
        coins_map(self.coin_list())
    }

    /// The hint entries (`coin_id || hint`), sorted by byte order.
    pub closed spec fn hint_entries(&self) -> Seq<Seq<u8>> {
        key_views(self.hints@)
    }

    /// Chain tip height.
    pub closed spec fn spec_height(&self) -> u64 {
        self.height
    }

    /// Chain tip block hash.
    pub closed spec fn spec_tip_hash(&self) -> Bytes32 {
        self.tip_hash
    }

    /// Chain tip timestamp.
    pub closed spec fn spec_timestamp(&self) -> u64 {
        self.timestamp
    }

    /// Whether genesis has been applied.
    pub closed spec fn spec_initialized(&self) -> bool {
        self.initialized
    }

    /// The configuration the store was opened with.
    pub closed spec fn config_fields(&self) -> (StorageBackend, Seq<char>, usize, usize, u64, usize, i32, bool) {
        self.config.fields()
    }

    /// Known tips `(height, block hash, timestamp)`, oldest first; the last one is the current tip.
    pub closed spec fn tip_history(&self) -> Seq<(u64, Bytes32, u64)> {
        self.tips@
    }

    /// Saved snapshots, oldest first.
    pub closed spec fn saved_snapshots(&self) -> Seq<CoinStoreSnapshot> {
        self.snapshots@
    }

    /// The store's invariant.
    pub closed spec fn wf(&self) -> bool {
        &&& coin_list_wf(self.coins@)
        &&& hint_list_wf(key_views(self.hints@))
        &&& self.merkle_tree.wf()
        &&& self.merkle_tree@ == leaf_map(coins_map(self.coins@))
        &&& !self.initialized ==> {
            &&& self.coins@.len() == 0
            &&& self.height == 0
            &&& self.timestamp == 0
            &&& self.tip_hash@ == zero32()
            &&& self.tips@.len() == 0
        }
        &&& self.initialized ==> tips_wf(self.tips@, self.height, self.tip_hash, self.timestamp)
        &&& snaps_sorted(self.snapshots@)
    }

    /// A store as the constructors make it: not initialized, no coins, no hints, no saved
    /// snapshots, height 0, timestamp 0, the zero tip hash and no tip history. Its state root is
    /// the empty-tree hash (`records::lemma_empty_state_root`).
    pub open spec fn is_fresh(&self) -> bool {
        &&& !self.spec_initialized()
        &&& self.coin_list().len() == 0
        &&& self.coin_map() == Map::<Seq<u8>, CoinRecord>::empty()
        &&& self.hint_entries().len() == 0
        &&& self.saved_snapshots().len() == 0
        &&& self.spec_height() == 0
        &&& self.spec_timestamp() == 0
        &&& self.spec_tip_hash()@ == zero32()
        &&& self.tip_history().len() == 0
    }

    /// What the store's invariant gives its users: the coin list is strictly sorted by coin id
    /// (so no coin occurs twice), lists each record under its own coin's id and has one entry
    /// per coin of the map; the hint entries are strictly sorted (so distinct), each a 32-byte
    /// coin id followed by a hint of 1 to 32 bytes; before genesis there are no coins and the
    /// tip is height 0, timestamp 0 and the zero hash; after genesis the last recorded tip is
    /// the current one and the recorded heights are consecutive; saved snapshots are in
    /// strictly increasing height order.
    pub proof fn lemma_wf_parts(&self)
        requires
            self.wf(),
        ensures
            coin_list_wf(self.coin_list()),
            self.coin_map().dom().finite(),
            self.coin_map().dom().len() == self.coin_list().len(),
            forall|i: int|
                0 <= i < self.coin_list().len() ==> self.coin_map().dom().contains(
                    (#[trigger] self.coin_list()[i]).0@,
                ) && self.coin_map()[self.coin_list()[i].0@] == self.coin_list()[i].1,
            hint_list_wf(self.hint_entries()),
            self.hint_entries().no_duplicates(),
            !self.spec_initialized() ==> {
                &&& self.coin_list().len() == 0
                &&& self.spec_height() == 0
                &&& self.spec_timestamp() == 0
                &&& self.spec_tip_hash()@ == zero32()
                &&& self.tip_history().len() == 0
            },
            self.spec_initialized() ==> tips_wf(
                self.tip_history(),
                self.spec_height(),
                self.spec_tip_hash(),
                self.spec_timestamp(),
            ),
            snaps_sorted(self.saved_snapshots()),
    {
        crate::records::lemma_coin_list_len(self.coins@);
        assert forall|i: int| 0 <= i < self.coin_list().len() implies self.coin_map().dom().contains(
            (#[trigger] self.coin_list()[i]).0@,
        ) && self.coin_map()[self.coin_list()[i].0@] == self.coin_list()[i].1 by {
            crate::records::lemma_coins_map_at(self.coins@, i);
        }
        let e = self.hint_entries();
        assert forall|i: int, j: int| 0 <= i < e.len() && 0 <= j < e.len() && i != j implies e[i]
            != e[j] by {
            if i < j {
                crate::bytes::lemma_lex_lt_irreflexive(e[i]);
            } else {
                crate::bytes::lemma_lex_lt_irreflexive(e[j]);
            }
        }
    }

    /// Everything but the hint entries is the same in `self` and `other`.
    pub open spec fn same_but_hints(&self, other: &CoinStore) -> bool {
        &&& self.coin_list() == other.coin_list()
        &&& self.spec_height() == other.spec_height()
        &&& self.spec_tip_hash() == other.spec_tip_hash()
        &&& self.spec_timestamp() == other.spec_timestamp()
        &&& self.spec_initialized() == other.spec_initialized()
        &&& self.config_fields() == other.config_fields()
        &&& self.tip_history() == other.tip_history()
        &&& self.saved_snapshots() == other.saved_snapshots()
    }

    /// Every part of `self` and `other` is the same.
    pub open spec fn same_state(&self, other: &CoinStore) -> bool {
        &&& self.same_but_hints(other)
        &&& self.hint_entries() == other.hint_entries()
    }

    /// A fresh, uninitialized store with the default configuration at `path`. Nothing is read
    /// from storage; a store over stored state is built by [`Self::with_persisted_state`].
    pub fn new(path: &str) -> (r: Result<Self, CoinStoreError>)
        ensures
            r matches Ok(s) && s.wf() && s.is_fresh() && s.config_fields() == spec_default_config(
                path@,
            ),
    {
        Self::with_config(CoinStoreConfig::default_with_path(path))
    }

    /// A fresh, uninitialized store with configuration `config`. Nothing is read from storage; a
    /// store over stored state is built by [`Self::with_persisted_state`].
    pub fn with_config(config: CoinStoreConfig) -> (r: Result<Self, CoinStoreError>)
        ensures
            r matches Ok(s) && s.wf() && s.is_fresh() && s.config_fields() == config.fields(),
    {
        let s = CoinStore {
            config,
            coins: Vec::new(),
            hints: Vec::new(),
            merkle_tree: SparseMerkleTree::new(),
            height: 0,
            tip_hash: Bytes32::zero(),
            timestamp: 0,
            initialized: false,
            tips: Vec::new(),
            snapshots: Vec::new(),
        };
        proof {
            lemma_coins_map_empty(s.coins@);
            lemma_leaf_map_empty();
            assert(key_views(s.hints@) =~= Seq::<Seq<u8>>::empty());
        }
        Ok(s)
    }

    /// A store over state read back from storage, with configuration `config`.
    ///
    /// `initialized` tells whether genesis was recorded. `height`, `tip_hash` and `timestamp`
    /// are the stored tip values: a number is read when it holds exactly 8 little-endian bytes
    /// and is 0 otherwise, a hash is the first 32 bytes of its value, and an absent value is 0
    /// or the zero hash. `records` are the stored coin records; the Merkle tree is rebuilt from
    /// them. An uninitialized store is a fresh one and ignores the other values.
    pub fn with_persisted_state(
        config: CoinStoreConfig,
        initialized: bool,
        height: Option<Vec<u8>>,
        tip_hash: Option<Vec<u8>>,
        timestamp: Option<Vec<u8>>,
        records: Vec<CoinRecord>,
    ) -> (r: Result<Self, CoinStoreError>)
        requires
            tip_hash matches Some(b) ==> b@.len() >= 32,
        ensures
            r matches Ok(s) && s.wf() && s.config_fields() == config.fields()
                && s.hint_entries().len() == 0 && s.saved_snapshots().len() == 0
                && s.spec_initialized() == initialized,
            !initialized ==> (r matches Ok(s) && s.is_fresh()),
            initialized ==> (r matches Ok(s) && {
                &&& s.coin_map() == records_map(records@)
                &&& s.spec_height() == stored_u64(opt_bytes(height))
                &&& s.spec_tip_hash()@ == stored_hash(opt_bytes(tip_hash))
                &&& s.spec_timestamp() == stored_u64(opt_bytes(timestamp))
                &&& s.tip_history() == seq![(s.spec_height(), s.spec_tip_hash(), s.spec_timestamp())]
            }),
    {
        let fresh = Self::with_config(config);
        let mut s = match fresh {
            Ok(s) => s,
            Err(e) => {
                return Err(e);
            },
        };
        if !initialized {
            return Ok(s);
        }
        let mut i: usize = 0;
        proof {
            lemma_coins_map_empty(s.coins@);
        }
        while i < records.len()
            invariant
                i <= records@.len(),
                coin_list_wf(s.coins@),
                s.merkle_tree.wf(),
                s.merkle_tree@ == leaf_map(coins_map(s.coins@)),
                coins_map(s.coins@) == records_map(records@.take(i as int)),
                !s.initialized,
                s.height == 0,
                s.timestamp == 0,
                s.tip_hash@ == zero32(),
                s.tips@.len() == 0,
                hint_list_wf(key_views(s.hints@)),
                s.hints@.len() == 0,
                s.config.fields() == config.fields(),
                s.snapshots@.len() == 0,
            decreases records.len() - i,
        {
            let rec = records[i];
            let id = rec.coin.coin_id();
            let leaf = record_leaf(&rec);
            proof {
                lemma_leaf_map_insert(coins_map(s.coins@), id@, rec);
            }
            upsert_coin(&mut s.coins, id, rec);
            s.merkle_tree.put_leaf(id, leaf);
            proof {
                assert(records@.take(i + 1).drop_last() =~= records@.take(i as int));
                assert(records@.take(i + 1).last() == records@[i as int]);
            }
            i = i + 1;
        }
        proof {
            assert(records@.take(records@.len() as int) =~= records@);
        }
        let h: u64 = stored_number(&height);
        let t: u64 = stored_number(&timestamp);
        let hash: Bytes32 = match &tip_hash {
            Some(b) => Bytes32::from_prefix(b.as_slice()),
            None => Bytes32::zero(),
        };
        s.height = h;
        s.tip_hash = hash;
        s.timestamp = t;
        s.initialized = true;
        s.tips.push((h, hash, t));
        proof {
            assert(s.tips@ =~= seq![(h, hash, t)]);
        }
        Ok(s)
    }

    /// Initialize the genesis state with `initial_coins` (coin, is-coinbase), all confirmed at
    /// height 0 with timestamp `timestamp`. Returns the genesis state root.
    ///
    /// Fails with `GenesisAlreadyInitialized`, changing nothing, if genesis has already run.
    pub fn init_genesis(&mut self, initial_coins: Vec<(Coin, bool)>, timestamp: u64) -> (r: Result<
        Bytes32,
        CoinStoreError,
    >)
        requires
            old(self).wf(),
        ensures
            final(self).wf(),
            old(self).spec_initialized() ==> r == Err::<Bytes32, CoinStoreError>(
                CoinStoreError::GenesisAlreadyInitialized,
            ) && final(self).same_state(old(self)),
            !old(self).spec_initialized() ==> {
                &&& r matches Ok(root) && root@ == spec_state_root(final(self).coin_map())
                &&& final(self).coin_map() == genesis_map(initial_coins@, timestamp)
                &&& final(self).spec_initialized()
                &&& final(self).spec_height() == 0
                &&& final(self).spec_tip_hash()@ == zero32()
                &&& final(self).spec_timestamp() == timestamp
                &&& final(self).tip_history() == seq![(0u64, final(self).spec_tip_hash(), timestamp)]
                &&& final(self).hint_entries() == old(self).hint_entries()
                &&& final(self).config_fields() == old(self).config_fields()
                &&& final(self).saved_snapshots() == old(self).saved_snapshots()
            },
    {
        if self.initialized {
            return Err(CoinStoreError::GenesisAlreadyInitialized);
        }
        let mut i: usize = 0;
        proof {
            lemma_coins_map_empty(self.coins@);
        }
        while i < initial_coins.len()
            invariant
                i <= initial_coins@.len(),
                coin_list_wf(self.coins@),
                self.merkle_tree.wf(),
                self.merkle_tree@ == leaf_map(coins_map(self.coins@)),
                coins_map(self.coins@) == genesis_map(initial_coins@.take(i as int), timestamp),
                !self.initialized,
                self.height == 0,
                self.timestamp == 0,
                self.tip_hash@ == zero32(),
                self.tips@.len() == 0,
                hint_list_wf(key_views(self.hints@)),
                self.hints@ == old(self).hints@,
                self.config == old(self).config,
                self.snapshots@ == old(self).snapshots@,
            decreases initial_coins.len() - i,
        {
            let (coin, is_coinbase) = initial_coins[i];
            let id = coin.coin_id();
            let rec = CoinRecord::new(coin, 0, timestamp, is_coinbase);
            let leaf = record_leaf(&rec);
            upsert_coin(&mut self.coins, id, rec);
            self.merkle_tree.put_leaf(id, leaf);
            proof {
                lemma_leaf_map_insert(coins_map(old(self).coins@), id@, rec);
                assert(initial_coins@.take(i + 1).drop_last() =~= initial_coins@.take(i as int));
                assert(initial_coins@.take(i + 1).last() == initial_coins@[i as int]);
                lemma_leaf_map_insert(genesis_map(initial_coins@.take(i as int), timestamp), id@, rec);
            }
            i = i + 1;
        }
        proof {
            assert(initial_coins@.take(initial_coins@.len() as int) =~= initial_coins@);
        }
        let root = self.merkle_tree.root();
        self.height = 0;
        self.tip_hash = Bytes32::zero();
        self.timestamp = timestamp;
        self.initialized = true;
        self.tips.push((0, self.tip_hash, timestamp));
        proof {
            assert(self.tips@ =~= seq![(0u64, self.tip_hash, timestamp)]);
        }
        Ok(root)
    }

    // ─────────────────────────────────────────────────────────────────────
    // Accessors
    // ─────────────────────────────────────────────────────────────────────

    /// Current chain tip height.
    pub fn height(&self) -> (r: u64)
        ensures
            r == self.spec_height(),
    {
        self.height
    }

    /// Current chain tip block hash.
    pub fn tip_hash(&self) -> (r: Bytes32)
        ensures
            r == self.spec_tip_hash(),
    {
        self.tip_hash
    }

    /// Current chain tip timestamp.
    pub fn timestamp(&self) -> (r: u64)
        ensures
            r == self.spec_timestamp(),
    {
        self.timestamp
    }

    /// Current state root (Merkle root of all coin records).
    pub fn state_root(&mut self) -> (r: Bytes32)
        requires
            old(self).wf(),
        ensures
            final(self).wf(),
            final(self).same_state(old(self)),
            r@ == spec_state_root(old(self).coin_map()),
    {
        self.merkle_tree.root()
    }

    /// Whether genesis has been applied.
    pub fn is_initialized(&self) -> (r: bool)
        ensures
            r == self.spec_initialized(),
    {
        self.initialized
    }

    /// Whether the store is empty: genesis has not been applied, or it holds no coin and no
    /// block has been applied since genesis (the tip is still at height 0).
    pub fn is_empty(&self) -> (r: bool)
        requires
            self.wf(),
        ensures
            r == (!self.spec_initialized() || (self.coin_map().dom().len() == 0
                && self.spec_height() == 0)),
    {
        proof {
            crate::records::lemma_coin_list_len(self.coins@);
        }
        !self.initialized || (self.coins.len() == 0 && self.height == 0)
    }

    /// The configuration used to open this store.
    pub fn config(&self) -> (r: &CoinStoreConfig)
        ensures
            r.fields() == self.config_fields(),
    {
        &self.config
    }


    // ─────────────────────────────────────────────────────────────────────
    // Statistics
    // ─────────────────────────────────────────────────────────────────────

    /// Aggregate statistics: tip, coin counts, unspent value (saturating at `u64::MAX`), state
    /// root, hint and snapshot counts.
    pub fn stats(&self) -> (st: CoinStoreStats)
        requires
            self.wf(),
        ensures
            st.height == self.spec_height(),
            st.timestamp == self.spec_timestamp(),
            st.tip_hash == self.spec_tip_hash(),
            st.state_root@ == spec_state_root(self.coin_map()),
            st.unspent_count == count(self.coin_list(), unspent_entry()),
            st.spent_count == count(self.coin_list(), spent_entry()),
            st.total_unspent_value == saturated_unspent_total(self.coin_list()),
            st.hint_count == self.hint_entries().len(),
            st.snapshot_count == self.saved_snapshots().len(),
    {
        CoinStoreStats {
            height: self.height,
            timestamp: self.timestamp,
            unspent_count: count_unspent(&self.coins) as u64,
            spent_count: count_spent(&self.coins) as u64,
            total_unspent_value: sum_unspent_saturating(&self.coins),
            state_root: self.merkle_tree.root_observed(),
            tip_hash: self.tip_hash,
            hint_count: self.hints.len() as u64,
            snapshot_count: self.snapshots.len(),
        }
    }

    // ─────────────────────────────────────────────────────────────────────
    // Queries
    // ─────────────────────────────────────────────────────────────────────

    /// The record of coin `coin_id`, spent or not; `None` if the coin never existed.
    pub fn get_coin_record(&self, coin_id: &CoinId) -> (r: Result<Option<CoinRecord>, CoinStoreError>)
        requires
            self.wf(),
        ensures
            r == Ok::<Option<CoinRecord>, CoinStoreError>(
                if self.coin_map().dom().contains(coin_id@) {
                    Some(self.coin_map()[coin_id@])
                } else {
                    None
                },
            ),
    {
        Ok(lookup_coin(&self.coins, coin_id))
    }

    /// The records of the coins `coin_ids` that exist; each coin once, in order of first
    /// occurrence.
    pub fn get_coin_records(&self, coin_ids: &[CoinId]) -> (r: Result<Vec<CoinRecord>, CoinStoreError>)
        requires
            self.wf(),
        ensures
            r matches Ok(v) && v@ == records_by_ids(self.coin_map(), coin_ids@),
    {
        Ok(lookup_distinct(&self.coins, coin_ids))
    }

    /// Records with puzzle hash `puzzle_hash`, confirmed in `start_height..=end_height`, spent
    /// ones only when `include_spent`; in coin id order.
    pub fn get_coin_records_by_puzzle_hash(
        &self,
        include_spent: bool,
        puzzle_hash: &Bytes32,
        start_height: u64,
        end_height: u64,
    ) -> (r: Result<Vec<CoinRecord>, CoinStoreError>)
        requires
            self.wf(),
        ensures
            r matches Ok(v) && v@ == records_matching(
                self.coin_list(),
                RecordFilter::PuzzleHash(*puzzle_hash),
                include_spent,
                start_height,
                end_height,
            ),
    {
        Ok(collect_records(&self.coins, &RecordFilter::PuzzleHash(*puzzle_hash), include_spent, start_height, end_height))
    }

    /// [`Self::get_coin_records_by_puzzle_hash`] for each of `puzzle_hashes` in turn.
    pub fn get_coin_records_by_puzzle_hashes(
        &self,
        include_spent: bool,
        puzzle_hashes: &[Bytes32],
        start_height: u64,
        end_height: u64,
    ) -> (r: Result<Vec<CoinRecord>, CoinStoreError>)
        requires
            self.wf(),
        ensures
            r matches Ok(v) && v@ == records_for_keys(
                self.coin_list(),
                puzzle_hashes@,
                ph_key(),
                include_spent,
                start_height,
                end_height,
            ),
    {
        Ok(collect_for_keys(&self.coins, puzzle_hashes, false, include_spent, start_height, end_height))
    }

    /// Records confirmed at `height`, in coin id order.
    pub fn get_coins_added_at_height(&self, height: u64) -> (r: Result<Vec<CoinRecord>, CoinStoreError>)
        requires
            self.wf(),
        ensures
            r matches Ok(v) && v@ == records_matching(
                self.coin_list(),
                RecordFilter::Confirmed(height),
                true,
                0,
                u64::MAX,
            ),
    {
        Ok(collect_records(&self.coins, &RecordFilter::Confirmed(height), true, 0, u64::MAX))
    }

    /// Records spent at `height`, in coin id order; nothing for height 0.
    pub fn get_coins_removed_at_height(&self, height: u64) -> (r: Result<Vec<CoinRecord>, CoinStoreError>)
        requires
            self.wf(),
        ensures
            r matches Ok(v) && v@ == (if height == 0 {
                Seq::<CoinRecord>::empty()
            } else {
                records_matching(self.coin_list(), RecordFilter::Spent(height), true, 0, u64::MAX)
            }),
    {
        if height == 0 {
            let v: Vec<CoinRecord> = Vec::new();
            assert(v@ =~= Seq::<CoinRecord>::empty());
            return Ok(v);
        }
        Ok(collect_records(&self.coins, &RecordFilter::Spent(height), true, 0, u64::MAX))
    }

    /// Records whose parent is one of `parent_ids` (each parent in turn, children in coin id
    /// order), confirmed in `start_height..=end_height`, spent ones only when `include_spent`.
    pub fn get_coin_records_by_parent_ids(
        &self,
        include_spent: bool,
        parent_ids: &[CoinId],
        start_height: u64,
        end_height: u64,
    ) -> (r: Result<Vec<CoinRecord>, CoinStoreError>)
        requires
            self.wf(),
        ensures
            r matches Ok(v) && v@ == records_for_keys(
                self.coin_list(),
                parent_ids@,
                parent_key(),
                include_spent,
                start_height,
                end_height,
            ),
    {
        Ok(collect_for_keys(&self.coins, parent_ids, true, include_spent, start_height, end_height))
    }

    /// For each of `names` in turn, its record when it exists, is confirmed in
    /// `start_height..=end_height` and is unspent or `include_spent`.
    pub fn get_coin_records_by_names(
        &self,
        include_spent: bool,
        names: &[CoinId],
        start_height: u64,
        end_height: u64,
    ) -> (r: Result<Vec<CoinRecord>, CoinStoreError>)
        requires
            self.wf(),
        ensures
            r matches Ok(v) && v@ == flat_map(
                names@,
                name_image(self.coin_map(), include_spent, start_height, end_height),
            ),
    {
        Ok(lookup_filtered(&self.coins, names, include_spent, start_height, end_height))
    }

    /// Sync views of the records of `coin_ids` in turn (those that exist, are confirmed in
    /// `min_height..=max_height` and are unspent or `include_spent`), at most `max_items`.
    pub fn get_coin_states_by_ids(
        &self,
        include_spent: bool,
        coin_ids: &[CoinId],
        min_height: u64,
        max_height: u64,
        max_items: usize,
    ) -> (r: Result<Vec<CoinState>, CoinStoreError>)
        requires
            self.wf(),
        ensures
            r matches Ok(v) && v@ == take_upto(
                flat_map(coin_ids@, state_image(self.coin_map(), include_spent, min_height, max_height)),
                max_items as int,
            ),
    {
        Ok(lookup_states(&self.coins, coin_ids, include_spent, min_height, max_height, max_items))
    }

    /// Sync views of the records of each puzzle hash in turn (confirmed at `min_height` or
    /// later, unspent or `include_spent`), at most `max_items`.
    pub fn get_coin_states_by_puzzle_hashes(
        &self,
        include_spent: bool,
        puzzle_hashes: &[Bytes32],
        min_height: u64,
        max_items: usize,
    ) -> (r: Result<Vec<CoinState>, CoinStoreError>)
        requires
            self.wf(),
        ensures
            r matches Ok(v) && v@ == take_upto(
                states_of(
                    records_for_keys(
                        self.coin_list(),
                        puzzle_hashes@,
                        ph_key(),
                        include_spent,
                        min_height,
                        u64::MAX,
                    ),
                ),
                max_items as int,
            ),
    {
        let recs = collect_for_keys(&self.coins, puzzle_hashes, false, include_spent, min_height, u64::MAX);
        Ok(states_upto(&recs, max_items))
    }

    /// Paginated coin states for up to 990 puzzle hashes: the matching coins (and, with
    /// `include_hinted`, the coins hinted with one of them), each once, filtered, ordered by
    /// `max(confirmed, spent)` height then coin id, cut at a block boundary after `max_items`
    /// coins; the second result is the height to resume from, `None` when everything fit.
    pub fn batch_coin_states_by_puzzle_hashes(
        &self,
        puzzle_hashes: &[Bytes32],
        min_height: u64,
        filters: CoinStateFilters,
        max_items: usize,
    ) -> (r: Result<(Vec<CoinState>, Option<u64>), CoinStoreError>)
        requires
            self.wf(),
        ensures
            puzzle_hashes@.len() > MAX_PUZZLE_HASH_BATCH_SIZE ==> r == Err::<
                (Vec<CoinState>, Option<u64>),
                CoinStoreError,
            >(
                CoinStoreError::PuzzleHashBatchTooLarge {
                    size: puzzle_hashes@.len() as usize,
                    max: MAX_PUZZLE_HASH_BATCH_SIZE,
                },
            ),
            puzzle_hashes@.len() <= MAX_PUZZLE_HASH_BATCH_SIZE ==> (r matches Ok(page) && (
            page.0@,
            page.1,
            ) == batch_page(
                batch_sorted(
                    self.coin_list(),
                    self.hint_entries(),
                    puzzle_hashes@,
                    filters,
                    min_height,
                ),
                max_items as int,
            )),
            height_id_sorted(
                batch_sorted(
                    self.coin_list(),
                    self.hint_entries(),
                    puzzle_hashes@,
                    filters,
                    min_height,
                ),
            ),
    {
        proof {
            self.lemma_wf_parts();
            crate::batch::lemma_batch_sorted(
                self.coin_list(),
                self.hint_entries(),
                puzzle_hashes@,
                filters,
                min_height,
            );
        }
        if puzzle_hashes.len() > MAX_PUZZLE_HASH_BATCH_SIZE {
            return Err(
                CoinStoreError::PuzzleHashBatchTooLarge {
                    size: puzzle_hashes.len(),
                    max: MAX_PUZZLE_HASH_BATCH_SIZE,
                },
            );
        }
        Ok(batch_states(&self.coins, &self.hints, puzzle_hashes, min_height, &filters, max_items))
    }

    /// When the unspent total of all coins fits in a `u64` (which [`Self::total_unspent_value`]
    /// reports), so does the unspent total of every puzzle hash: the precondition of
    /// [`Self::aggregate_unspent_by_puzzle_hash`] holds.
    pub proof fn lemma_aggregate_fits(&self)
        requires
            sum(self.coin_list(), unspent_entry(), amount_of()) <= u64::MAX,
        ensures
            forall|ph: Seq<u8>|
                sum(self.coin_list(), #[trigger] unspent_with_ph(ph), amount_of()) <= u64::MAX,
    {
        assert forall|ph: Seq<u8>|
            sum(self.coin_list(), #[trigger] unspent_with_ph(ph), amount_of()) <= u64::MAX by {
            crate::queries::lemma_ph_sum_le_unspent_total(self.coin_list(), ph);
        }
    }

    /// For each puzzle hash of the unspent coins (in order of first appearance by coin id): the
    /// total amount and the number of its unspent coins. Each total must fit in a `u64`.
    pub fn aggregate_unspent_by_puzzle_hash(&self) -> (r: Result<Vec<(Bytes32, (u64, usize))>, CoinStoreError>)
        requires
            self.wf(),
            forall|ph: Seq<u8>|
                sum(self.coin_list(), #[trigger] unspent_with_ph(ph), amount_of()) <= u64::MAX,
        ensures
            r is Ok,
            aggregate_ok(self.coin_list(), r->Ok_0@),
    {
        Ok(aggregate_unspent(&self.coins))
    }

    /// Number of unspent coins.
    pub fn num_unspent(&self) -> (r: Result<u64, CoinStoreError>)
        requires
            self.wf(),
        ensures
            r matches Ok(n) && n == count(self.coin_list(), unspent_entry()),
    {
        Ok(count_unspent(&self.coins) as u64)
    }

    /// Sum of all unspent coin amounts.
    pub fn total_unspent_value(&self) -> (r: Result<u128, CoinStoreError>)
        requires
            self.wf(),
        ensures
            r matches Ok(n) && n == sum(self.coin_list(), unspent_entry(), amount_of()),
    {
        Ok(sum_unspent(&self.coins))
    }

    /// Total number of coins, spent and unspent.
    pub fn num_total(&self) -> (r: Result<u64, CoinStoreError>)
        requires
            self.wf(),
        ensures
            r matches Ok(n) && n == self.coin_map().dom().len(),
    {
        proof {
            crate::records::lemma_coin_list_len(self.coins@);
        }
        Ok(self.coins.len() as u64)
    }

    /// Lineage `(coin, parent, grandparent)` of the only unspent coin with puzzle hash
    /// `puzzle_hash`; `None` unless exactly one unspent coin has it. The grandparent is the zero
    /// hash when the parent is not in the store.
    pub fn get_unspent_lineage_info_for_puzzle_hash(&self, puzzle_hash: &Bytes32) -> (r: Result<
        Option<UnspentLineageInfo>,
        CoinStoreError,
    >)
        requires
            self.wf(),
        ensures
            r matches Ok(o) && match (o, spec_lineage(self.coin_list(), puzzle_hash@)) {
                (Some(info), Some(t)) => info.coin_id@ == t.0 && info.parent_id@ == t.1
                    && info.parent_parent_id@ == t.2,
                (None, None) => true,
                _ => false,
            },
    {
        Ok(lineage_of(&self.coins, puzzle_hash))
    }


    // ─────────────────────────────────────────────────────────────────────
    // Block application
    // ─────────────────────────────────────────────────────────────────────

    /// The header checks of `b` pass: genesis has run, the height follows the tip, the parent
    /// hash is the tip hash and there are at least two coinbase coins.
    pub open spec fn header_ok(&self, b: BlockData) -> bool {
        &&& self.spec_initialized()
        &&& b.height == self.spec_height() + 1
        &&& b.parent_hash@ == self.spec_tip_hash()@
        &&& b.coinbase_coins@.len() >= 2
    }

    /// The coin checks of `b` pass against this store.
    pub open spec fn coins_ok(&self, b: BlockData) -> bool {
        &&& removal_error(self.coin_map(), b.removals@) is None
        &&& addition_ids_ok(b)
        &&& all_fresh(self.coin_map(), new_records(b))
        &&& removals_distinct(b.removals@)
    }

    /// The expected state root of `b`, when given, is the root after applying it.
    pub open spec fn root_ok(&self, b: BlockData) -> bool {
        b.expected_state_root matches Some(e) ==> e@ == spec_state_root(
            applied_map(self.coin_map(), b),
        )
    }

    /// Apply block `block`: check it, then insert its new coins, mark its removals spent, store
    /// its non-zero hints and make it the chain tip. Atomic: on any error nothing changes.
    pub fn apply_block(&mut self, block: BlockData) -> (r: Result<ApplyBlockResult, CoinStoreError>)
        requires
            old(self).wf(),
            old(self).spec_height() < u64::MAX,
            block.coinbase_coins@.len() + block.additions@.len() <= usize::MAX,
        ensures
            final(self).wf(),
            r is Err ==> final(self).same_state(old(self)),
            !old(self).spec_initialized() ==> r == Err::<ApplyBlockResult, CoinStoreError>(
                CoinStoreError::NotInitialized,
            ),
            old(self).spec_initialized() && block.height != old(self).spec_height() + 1 ==> r == Err::<
                ApplyBlockResult,
                CoinStoreError,
            >(
                CoinStoreError::HeightMismatch {
                    expected: (old(self).spec_height() + 1) as u64,
                    got: block.height,
                },
            ),
            old(self).spec_initialized() && block.height == old(self).spec_height() + 1
                && block.parent_hash@ != old(self).spec_tip_hash()@ ==> r == Err::<
                ApplyBlockResult,
                CoinStoreError,
            >(
                CoinStoreError::ParentHashMismatch {
                    expected: old(self).spec_tip_hash(),
                    got: block.parent_hash,
                },
            ),
            old(self).spec_initialized() && block.height == old(self).spec_height() + 1
                && block.parent_hash@ == old(self).spec_tip_hash()@ && block.coinbase_coins@.len()
                < 2 ==> (r matches Err(CoinStoreError::InvalidRewardCoinCount { expected, got })
                && expected@ == ">= 2"@ && got == block.coinbase_coins@.len()),
            old(self).header_ok(block) && removal_error(old(self).coin_map(), block.removals@)
                is Some ==> r == Err::<ApplyBlockResult, CoinStoreError>(
                removal_error(old(self).coin_map(), block.removals@)->0,
            ),
            old(self).header_ok(block) && removal_error(old(self).coin_map(), block.removals@)
                is None && !addition_ids_ok(block) ==> (r matches Err(CoinStoreError::StorageError(msg))
                && msg@ == "apply_block: addition coin_id does not match its coin"@),
            old(self).header_ok(block) && removal_error(old(self).coin_map(), block.removals@)
                is None && addition_ids_ok(block) && !all_fresh(old(self).coin_map(), new_records(block)) ==> (r matches Err(
                CoinStoreError::CoinAlreadyExists(id),
            ) && exists|i: int|
                0 <= i < new_records(block).len() && !fresh_at(
                    old(self).coin_map(),
                    new_records(block),
                    i,
                ) && (forall|k: int|
                    0 <= k < i ==> #[trigger] fresh_at(old(self).coin_map(), new_records(block), k))
                    && id@ == new_records(block)[i].0),
            old(self).header_ok(block) && removal_error(old(self).coin_map(), block.removals@)
                is None && addition_ids_ok(block) && all_fresh(old(self).coin_map(), new_records(block))
                && !removals_distinct(block.removals@) ==> r == Err::<
                ApplyBlockResult,
                CoinStoreError,
            >(
                CoinStoreError::SpendCountMismatch {
                    expected: block.removals@.len() as usize,
                    actual: id_views(block.removals@).to_set().len() as usize,
                },
            ),
            old(self).header_ok(block) && old(self).coins_ok(block) && !old(self).root_ok(block)
                ==> (r matches Err(CoinStoreError::StateRootMismatch { expected, computed })
                && block.expected_state_root == Some(expected) && computed@ == spec_state_root(
                applied_map(old(self).coin_map(), block),
            )),
            old(self).header_ok(block) && old(self).coins_ok(block) && old(self).root_ok(block) ==> {
                &&& r matches Ok(res) && res.state_root@ == spec_state_root(final(self).coin_map())
                    && res.coins_created == block.coinbase_coins@.len() + block.additions@.len()
                    && res.coins_spent == block.removals@.len() && res.height == block.height
                &&& final(self).coin_map() == applied_map(old(self).coin_map(), block)
                &&& final(self).hint_entries().to_set() == old(self).hint_entries().to_set().union(
                    block_hint_entries(block),
                )
                &&& final(self).spec_initialized()
                &&& final(self).spec_height() == block.height
                &&& final(self).spec_tip_hash() == block.block_hash
                &&& final(self).spec_timestamp() == block.timestamp
                &&& final(self).tip_history() == old(self).tip_history().push(
                    (block.height, block.block_hash, block.timestamp),
                )
                &&& final(self).config_fields() == old(self).config_fields()
                &&& final(self).saved_snapshots() == old(self).saved_snapshots()
            },
    {
        if !self.initialized {
            return Err(CoinStoreError::NotInitialized);
        }
        let expected_height = self.height + 1;
        if block.height != expected_height {
            return Err(CoinStoreError::HeightMismatch { expected: expected_height, got: block.height });
        }
        if !block.parent_hash.equals(&self.tip_hash) {
            return Err(
                CoinStoreError::ParentHashMismatch { expected: self.tip_hash, got: block.parent_hash },
            );
        }
        if block.coinbase_coins.len() < 2 {
            return Err(
                CoinStoreError::InvalidRewardCoinCount {
                    expected: ">= 2".to_owned(),
                    got: block.coinbase_coins.len(),
                },
            );
        }
        match check_removals(&self.coins, block.removals.as_slice()) {
            Some(e) => {
                return Err(e);
            },
            None => {},
        }
        if !check_addition_ids(block.additions.as_slice()) {
            return Err(
                CoinStoreError::StorageError(
                    "apply_block: addition coin_id does not match its coin".to_owned(),
                ),
            );
        }
        let news = match collect_new_records(&self.coins, &block) {
            Ok(v) => v,
            Err(id) => {
                return Err(CoinStoreError::CoinAlreadyExists(id));
            },
        };
        let (distinct, actual) = distinct_removals(block.removals.as_slice());
        if !distinct {
            return Err(
                CoinStoreError::SpendCountMismatch { expected: block.removals.len(), actual },
            );
        }
        proof {
            crate::block_apply::lemma_removal_error_none(coins_map(self.coins@), block.removals@);
        }
        let mut coins = copy_coins(&self.coins);
        let mut tree = self.merkle_tree.duplicate();
        apply_changes(&mut coins, &mut tree, &news, block.removals.as_slice(), block.height);
        let root = tree.root();
        match block.expected_state_root {
            Some(e) => {
                if !e.equals(&root) {
                    return Err(CoinStoreError::StateRootMismatch { expected: e, computed: root });
                }
            },
            None => {},
        }
        self.coins = coins;
        self.merkle_tree = tree;
        add_block_hints(&mut self.hints, &block);
        self.height = block.height;
        self.tip_hash = block.block_hash;
        self.timestamp = block.timestamp;
        self.tips.push((block.height, block.block_hash, block.timestamp));
        proof {
            let t = self.tips@;
            let o = old(self).tips@;
            assert(o[o.len() - 1].0 == o[0].0 + (o.len() - 1));
            assert forall|k: int| 0 <= k < t.len() implies #[trigger] t[k].0 == t[0].0 + k by {
                if k < o.len() {
                    assert(t[k] == o[k]);
                }
            }
        }
        Ok(
            ApplyBlockResult {
                state_root: root,
                coins_created: block.coinbase_coins.len() + block.additions.len(),
                coins_spent: block.removals.len(),
                height: block.height,
            },
        )
    }


    // ─────────────────────────────────────────────────────────────────────
    // Rollback
    // ─────────────────────────────────────────────────────────────────────

    /// The outcome of a rollback of `self` to `t`: `res` reports it and `after` is the store.
    pub open spec fn rollback_ok(&self, t: int, res: RollbackResult, after: &CoinStore) -> bool {
        let m = self.coin_map();
        let h = rollback_height(t);
        let tips = self.tip_history();
        &&& after.coin_map() == rolled_back_map(m, t)
        &&& after.hint_entries() == select(
            self.hint_entries(),
            not_of_coins(select(self.coin_list(), is_deleted(t), id_of())),
            whole_entry(),
        )
        &&& res.modified_coins@ == select(self.coin_list(), is_modified(t), report(t, m))
        &&& res.coins_deleted == count(self.coin_list(), is_deleted(t))
        &&& res.coins_unspent == count(self.coin_list(), is_unspent_again(t))
        &&& res.new_height == h
        &&& after.spec_initialized()
        &&& after.spec_height() == h
        &&& (if tips[0].0 <= h {
            &&& after.tip_history() == tips.take(h - tips[0].0 + 1)
            &&& after.spec_tip_hash() == tips[h - tips[0].0].1
            &&& after.spec_timestamp() == tips[h - tips[0].0].2
        } else {
            &&& after.tip_history() == seq![(h, after.spec_tip_hash(), 0u64)]
            &&& after.spec_tip_hash()@ == zero32()
            &&& after.spec_timestamp() == 0
        })
        &&& after.config_fields() == self.config_fields()
        &&& after.saved_snapshots() == self.saved_snapshots()
    }

    /// Rolling back `n` blocks is rolling back to height `height - n`: when that target is
    /// passed to [`Self::rollback_to_block`], both calls are described by the same outcome.
    pub proof fn lemma_rollback_n_is_rollback_to(
        &self,
        n: u64,
        target: i64,
        res: RollbackResult,
        after: &CoinStore,
    )
        requires
            target == self.spec_height() - n,
        ensures
            self.rollback_ok(self.spec_height() - n, res, after) <==> self.rollback_ok(
                target as int,
                res,
                after,
            ),
            target <= self.spec_height(),
    {
    }

    /// Roll the store back to `target_height` (negative for a full reset to height 0): delete
    /// coins confirmed above it, un-spend coins spent above it, drop the hints of deleted coins,
    /// and return to the tip recorded at that height (a zero tip when none is recorded).
    ///
    /// Fails with `NotInitialized` before genesis and `RollbackAboveTip` above the current
    /// height, changing nothing.
    pub fn rollback_to_block(&mut self, target_height: i64) -> (r: Result<RollbackResult, CoinStoreError>)
        requires
            old(self).wf(),
        ensures
            final(self).wf(),
            !old(self).spec_initialized() ==> r == Err::<RollbackResult, CoinStoreError>(
                CoinStoreError::NotInitialized,
            ) && final(self).same_state(old(self)),
            old(self).spec_initialized() && target_height > old(self).spec_height() ==> r == Err::<
                RollbackResult,
                CoinStoreError,
            >(
                CoinStoreError::RollbackAboveTip {
                    target: target_height,
                    current: old(self).spec_height(),
                },
            ) && final(self).same_state(old(self)),
            old(self).spec_initialized() && target_height <= old(self).spec_height() ==> (r matches Ok(
                res,
            ) && old(self).rollback_ok(target_height as int, res, final(self))),
    {
        if !self.initialized {
            return Err(CoinStoreError::NotInitialized);
        }
        if target_height >= 0 && target_height as u64 > self.height {
            return Err(CoinStoreError::RollbackAboveTip { target: target_height, current: self.height });
        }
        let ghost old_list = self.coins@;
        let ghost old_hints = key_views(self.hints@);
        let (kept, tree, modified, deleted, n_deleted, n_unspent) = rollback_coins(&self.coins, target_height);
        self.coins = kept;
        self.merkle_tree = tree;
        let _removed = drop_entries_of_coins(&mut self.hints, deleted.as_slice());
        let new_height: u64 = if target_height < 0 {
            0
        } else {
            target_height as u64
        };
        let base = self.tips[0].0;
        proof {
            let tips = self.tips@;
            assert(tips[tips.len() - 1].0 == tips[0].0 + (tips.len() - 1));
        }
        let len = self.tips.len();
        if base <= new_height {
            assert(new_height - base < len);
            let idx = (new_height - base) as usize;
            self.tips.truncate(idx + 1);
            let (_h, hash, ts) = self.tips[idx];
            self.tip_hash = hash;
            self.timestamp = ts;
            proof {
                let t = self.tips@;
                assert forall|k: int| 0 <= k < t.len() implies #[trigger] t[k].0 == t[0].0 + k by {
                    assert(t[k] == old(self).tips@[k]);
                }
            }
        } else {
            let zero = Bytes32::zero();
            let mut tips: Vec<(u64, Bytes32, u64)> = Vec::new();
            tips.push((new_height, zero, 0));
            self.tips = tips;
            self.tip_hash = zero;
            self.timestamp = 0;
            proof {
                assert(self.tips@ =~= seq![(new_height, self.tip_hash, 0u64)]);
            }
        }
        self.height = new_height;
        Ok(
            RollbackResult {
                modified_coins: modified,
                coins_deleted: n_deleted,
                coins_unspent: n_unspent,
                new_height,
            },
        )
    }

    /// Roll back `n` blocks from the current tip: [`Self::rollback_to_block`] at height
    /// `height - n` (a full reset when `n` exceeds the height).
    pub fn rollback_n_blocks(&mut self, n: u64) -> (r: Result<RollbackResult, CoinStoreError>)
        requires
            old(self).wf(),
            old(self).spec_height() - n <= i64::MAX,
        ensures
            final(self).wf(),
            !old(self).spec_initialized() ==> r == Err::<RollbackResult, CoinStoreError>(
                CoinStoreError::NotInitialized,
            ) && final(self).same_state(old(self)),
            old(self).spec_initialized() ==> (r matches Ok(res) && old(self).rollback_ok(
                old(self).spec_height() - n,
                res,
                final(self),
            )),
    {
        if !self.initialized {
            return Err(CoinStoreError::NotInitialized);
        }
        let target: i64 = if n > self.height {
            -1
        } else {
            (self.height - n) as i64
        };
        let ghost t = old(self).spec_height() - n;
        proof {
            if n > self.height {
                let m = self.coin_map();
                assert(rolled_back_map(m, -1) =~= rolled_back_map(m, t));
                assert(is_deleted(-1) =~= is_deleted(t));
                assert(is_modified(-1) =~= is_modified(t));
                assert(is_unspent_again(-1) =~= is_unspent_again(t));
                assert(report(-1, m) =~= report(t, m));
            }
        }
        self.rollback_to_block(target)
    }


    // ─────────────────────────────────────────────────────────────────────
    // Snapshots
    // ─────────────────────────────────────────────────────────────────────

    /// Whether the coin `coin_id` exists and is unspent.
    pub fn is_unspent(&self, coin_id: &CoinId) -> (r: bool)
        requires
            self.wf(),
        ensures
            r == (self.coin_map().dom().contains(coin_id@) && self.coin_map()[coin_id@].spent_height
                is None),
    {
        match lookup_coin(&self.coins, coin_id) {
            Some(rec) => rec.spent_height.is_none(),
            None => false,
        }
    }

    /// `s` is a snapshot of this store.
    pub open spec fn snapshot_matches(&self, s: CoinStoreSnapshot) -> bool {
        &&& s.height == self.spec_height()
        &&& s.block_hash == self.spec_tip_hash()
        &&& s.state_root@ == spec_state_root(self.coin_map())
        &&& s.timestamp == self.spec_timestamp()
        &&& s.coins@ == self.coin_list()
        &&& pair_views(s.hints@) == select(self.hint_entries(), full_entry(), entry_pair())
        &&& s.total_coins == self.coin_list().len()
        &&& s.total_value == saturated_unspent_total(self.coin_list())
    }

    /// A full export of the store's state. Fails with `NotInitialized` before genesis.
    pub fn snapshot(&self) -> (r: Result<CoinStoreSnapshot, CoinStoreError>)
        requires
            self.wf(),
        ensures
            !self.spec_initialized() ==> r == Err::<CoinStoreSnapshot, CoinStoreError>(
                CoinStoreError::NotInitialized,
            ),
            self.spec_initialized() ==> (r matches Ok(s) && self.snapshot_matches(s)),
    {
        if !self.initialized {
            return Err(CoinStoreError::NotInitialized);
        }
        Ok(
            CoinStoreSnapshot {
                height: self.height,
                block_hash: self.tip_hash,
                state_root: self.merkle_tree.root_observed(),
                timestamp: self.timestamp,
                coins: copy_coins(&self.coins),
                hints: hint_pairs(&self.hints),
                total_coins: self.coins.len() as u64,
                total_value: sum_unspent_saturating(&self.coins),
            },
        )
    }

    /// The checks `snapshot` passes before it is restored.
    pub open spec fn restorable(snap: CoinStoreSnapshot) -> bool {
        &&& snap.total_coins == snap.coins@.len()
        &&& snapshot_ids_ok(snap.coins@)
        &&& snap.total_value == saturated_unspent_total(snap.coins@)
        &&& snap.state_root@ == spec_state_root(coins_map(snap.coins@))
    }

    /// Replace the store's state by `snapshot` (coins, hints, tip), after checking, in order,
    /// its coin count, its coin ids, its total value and its state root; a failed check changes
    /// nothing. Saved snapshots and the configuration are kept.
    pub fn restore(&mut self, snapshot: CoinStoreSnapshot) -> (r: Result<(), CoinStoreError>)
        requires
            old(self).wf(),
        ensures
            final(self).wf(),
            r is Err ==> final(self).same_state(old(self)),
            snapshot.total_coins != snapshot.coins@.len() ==> (r matches Err(
                CoinStoreError::StorageError(msg),
            ) && msg@ == "restore: total_coins does not match the number of coins"@),
            snapshot.total_coins == snapshot.coins@.len() && !snapshot_ids_ok(snapshot.coins@) ==> (
            r matches Err(CoinStoreError::StorageError(msg))
                && msg@ == "restore: coin ids must be the ids of their coins, each once"@),
            snapshot.total_coins == snapshot.coins@.len() && snapshot_ids_ok(snapshot.coins@)
                && snapshot.total_value != saturated_unspent_total(snapshot.coins@) ==> (r matches Err(
                CoinStoreError::StorageError(msg),
            ) && msg@ == "restore: total_value does not match the unspent coins"@),
            snapshot.total_coins == snapshot.coins@.len() && snapshot_ids_ok(snapshot.coins@)
                && snapshot.total_value == saturated_unspent_total(snapshot.coins@)
                && snapshot.state_root@ != spec_state_root(coins_map(snapshot.coins@)) ==> (
            r matches Err(CoinStoreError::StateRootMismatch { expected, computed }) && expected
                == snapshot.state_root && computed@ == spec_state_root(coins_map(snapshot.coins@))),
            Self::restorable(snapshot) ==> {
                &&& r is Ok
                &&& final(self).coin_map() == coins_map(snapshot.coins@)
                &&& final(self).hint_entries().to_set() == pair_entries(snapshot.hints@)
                &&& final(self).spec_initialized()
                &&& final(self).spec_height() == snapshot.height
                &&& final(self).spec_tip_hash() == snapshot.block_hash
                &&& final(self).spec_timestamp() == snapshot.timestamp
                &&& final(self).tip_history() == seq![
                    (snapshot.height, snapshot.block_hash, snapshot.timestamp),
                ]
                &&& final(self).config_fields() == old(self).config_fields()
                &&& final(self).saved_snapshots() == old(self).saved_snapshots()
            },
    {
        if snapshot.total_coins != snapshot.coins.len() as u64 {
            return Err(
                CoinStoreError::StorageError(
                    "restore: total_coins does not match the number of coins".to_owned(),
                ),
            );
        }
        let coins = match sorted_snapshot_coins(&snapshot.coins) {
            Some(v) => v,
            None => {
                return Err(
                    CoinStoreError::StorageError(
                        "restore: coin ids must be the ids of their coins, each once".to_owned(),
                    ),
                );
            },
        };
        let total = sum_unspent_saturating(&snapshot.coins);
        if total != snapshot.total_value {
            return Err(
                CoinStoreError::StorageError(
                    "restore: total_value does not match the unspent coins".to_owned(),
                ),
            );
        }
        let mut tree = tree_of(&coins);
        let computed = tree.root();
        if !computed.equals(&snapshot.state_root) {
            return Err(
                CoinStoreError::StateRootMismatch { expected: snapshot.state_root, computed },
            );
        }
        let hints = entries_from_pairs(&snapshot.hints);
        self.coins = coins;
        self.merkle_tree = tree;
        self.hints = hints;
        self.height = snapshot.height;
        self.tip_hash = snapshot.block_hash;
        self.timestamp = snapshot.timestamp;
        self.initialized = true;
        let mut tips: Vec<(u64, Bytes32, u64)> = Vec::new();
        tips.push((snapshot.height, snapshot.block_hash, snapshot.timestamp));
        self.tips = tips;
        proof {
            assert(self.tips@ =~= seq![(snapshot.height, snapshot.block_hash, snapshot.timestamp)]);
        }
        Ok(())
    }

    /// A snapshot of a store passes every check of [`Self::restore`], and restoring it gives back
    /// the store's coins.
    pub proof fn lemma_snapshot_restorable(&self, snap: CoinStoreSnapshot)
        requires
            self.wf(),
            self.snapshot_matches(snap),
        ensures
            Self::restorable(snap),
            coins_map(snap.coins@) == self.coin_map(),
    {
        assert forall|a: int, b: int| 0 <= a < b < snap.coins@.len() implies #[trigger] snap.coins@[a].0@
            != #[trigger] snap.coins@[b].0@ by {
            crate::records::lemma_sorted_distinct(self.coins@, a, b);
        }
    }

    /// Save a snapshot of the current state: it replaces a saved snapshot of the same height,
    /// and only the newest `max_snapshots` are kept. Fails with `NotInitialized` before genesis.
    pub fn save_snapshot(&mut self) -> (r: Result<(), CoinStoreError>)
        requires
            old(self).wf(),
        ensures
            final(self).wf(),
            !old(self).spec_initialized() ==> r == Err::<(), CoinStoreError>(
                CoinStoreError::NotInitialized,
            ) && final(self).same_state(old(self)),
            old(self).spec_initialized() ==> {
                &&& r is Ok
                &&& exists|x: CoinStoreSnapshot|
                    old(self).snapshot_matches(x) && final(self).saved_snapshots() == keep_latest(
                        put_snapshot(old(self).saved_snapshots(), x),
                        old(self).config_fields().2 as int,
                    )
                &&& final(self).coin_list() == old(self).coin_list()
                &&& final(self).hint_entries() == old(self).hint_entries()
                &&& final(self).spec_height() == old(self).spec_height()
                &&& final(self).spec_tip_hash() == old(self).spec_tip_hash()
                &&& final(self).spec_timestamp() == old(self).spec_timestamp()
                &&& final(self).spec_initialized()
                &&& final(self).config_fields() == old(self).config_fields()
                &&& final(self).tip_history() == old(self).tip_history()
            },
    {
        let snap = match self.snapshot() {
            Ok(s) => s,
            Err(e) => {
                return Err(e);
            },
        };
        let max = self.config.max_snapshots;
        save_into(&mut self.snapshots, snap, max);
        Ok(())
    }

    /// Heights of the saved snapshots, oldest first.
    pub fn available_snapshot_heights(&self) -> (r: Vec<u64>)
        requires
            self.wf(),
        ensures
            r@ == self.saved_snapshots().map_values(|s: CoinStoreSnapshot| s.height),
    {
        let mut out: Vec<u64> = Vec::new();
        let mut i: usize = 0;
        while i < self.snapshots.len()
            invariant
                i <= self.snapshots@.len(),
                out@ == self.snapshots@.take(i as int).map_values(|s: CoinStoreSnapshot| s.height),
            decreases self.snapshots.len() - i,
        {
            out.push(self.snapshots[i].height);
            proof {
                assert(self.snapshots@.take(i + 1).map_values(|s: CoinStoreSnapshot| s.height) =~= self.snapshots@.take(
                    i as int,
                ).map_values(|s: CoinStoreSnapshot| s.height).push(self.snapshots@[i as int].height));
            }
            i = i + 1;
        }
        proof {
            assert(self.snapshots@.take(self.snapshots@.len() as int) =~= self.snapshots@);
        }
        out
    }

    /// A copy of the saved snapshot at `height`, if any.
    pub fn load_snapshot(&self, height: u64) -> (r: Result<Option<CoinStoreSnapshot>, CoinStoreError>)
        requires
            self.wf(),
        ensures
            r matches Ok(o) && match o {
                Some(s) => exists|i: int|
                    0 <= i < self.saved_snapshots().len() && (#[trigger] self.saved_snapshots()[i]).height
                        == height && snap_view(s) == snap_view(self.saved_snapshots()[i]),
                None => forall|i: int|
                    0 <= i < self.saved_snapshots().len() ==> (#[trigger] self.saved_snapshots()[i]).height
                        != height,
            },
    {
        let mut i: usize = 0;
        while i < self.snapshots.len()
            invariant
                i <= self.snapshots@.len(),
                forall|j: int| 0 <= j < i ==> (#[trigger] self.snapshots@[j]).height != height,
            decreases self.snapshots.len() - i,
        {
            if self.snapshots[i].height == height {
                let found = copy_snapshot(&self.snapshots[i]);
                proof {
                    assert(self.saved_snapshots()[i as int] == self.snapshots@[i as int]);
                }
                return Ok(Some(found));
            }
            i = i + 1;
        }
        Ok(None)
    }

    /// A copy of the newest saved snapshot, if any.
    pub fn load_latest_snapshot(&self) -> (r: Result<Option<CoinStoreSnapshot>, CoinStoreError>)
        requires
            self.wf(),
        ensures
            r matches Ok(o) && match o {
                Some(s) => self.saved_snapshots().len() > 0 && snap_view(s) == snap_view(
                    self.saved_snapshots().last(),
                ),
                None => self.saved_snapshots().len() == 0,
            },
    {
        let n = self.snapshots.len();
        if n == 0 {
            return Ok(None);
        }
        Ok(Some(copy_snapshot(&self.snapshots[n - 1])))
    }

    // ─────────────────────────────────────────────────────────────────────
    // Hints
    // ─────────────────────────────────────────────────────────────────────

    /// Record hint `hint` for coin `coin_id`, idempotently.
    ///
    /// An empty hint is skipped; a hint longer than 32 bytes fails with `HintTooLong`.
    pub fn add_hint(&mut self, coin_id: &CoinId, hint: &[u8]) -> (r: Result<(), CoinStoreError>)
        requires
            old(self).wf(),
        ensures
            final(self).wf(),
            final(self).same_but_hints(old(self)),
            hint@.len() > MAX_HINT_LENGTH ==> r == Err::<(), CoinStoreError>(
                CoinStoreError::HintTooLong { length: hint@.len() as usize, max: MAX_HINT_LENGTH },
            ) && final(self).hint_entries() == old(self).hint_entries(),
            hint@.len() == 0 ==> r is Ok && final(self).hint_entries() == old(self).hint_entries(),
            0 < hint@.len() <= MAX_HINT_LENGTH ==> r is Ok && final(self).hint_entries().to_set()
                == old(self).hint_entries().to_set().insert(hint_entry(coin_id@, hint@)),
            0 < hint@.len() <= MAX_HINT_LENGTH && !old(self).hint_entries().contains(
                hint_entry(coin_id@, hint@),
            ) ==> final(self).hint_entries().len() == old(self).hint_entries().len() + 1,
            0 < hint@.len() <= MAX_HINT_LENGTH && old(self).hint_entries().contains(
                hint_entry(coin_id@, hint@),
            ) ==> final(self).hint_entries() == old(self).hint_entries(),
    {
        if hint.len() == 0 {
            return Ok(());
        }
        if hint.len() > MAX_HINT_LENGTH {
            return Err(CoinStoreError::HintTooLong { length: hint.len(), max: MAX_HINT_LENGTH });
        }
        let entry = make_hint_entry(coin_id, hint);
        let ghost before = key_views(self.hints@);
        let _added = insert_entry(&mut self.hints, entry);
        proof {
            lemma_hint_entry_parts(coin_id@, hint@);
            lemma_insert_keeps_wf(before, key_views(self.hints@), hint_entry(coin_id@, hint@));
        }
        Ok(())
    }

    /// Every stored hint entry (`coin_id || hint`, hints of any length from 1 to 32 bytes), in
    /// byte order.
    pub fn hint_entry_list(&self) -> (r: Vec<Vec<u8>>)
        requires
            self.wf(),
        ensures
            key_views(r@) == self.hint_entries(),
    {
        let mut r: Vec<Vec<u8>> = Vec::new();
        let mut i: usize = 0;
        while i < self.hints.len()
            invariant
                i <= self.hints@.len(),
                r@.len() == i,
                key_views(r@) == key_views(self.hints@).take(i as int),
            decreases self.hints.len() - i,
        {
            let e = copy_bytes(&self.hints[i]);
            let ghost before = r@;
            r.push(e);
            proof {
                assert forall|j: int| 0 <= j < i + 1 implies #[trigger] key_views(r@)[j] == key_views(
                    self.hints@,
                ).take(i + 1)[j] by {
                    assert(r@ == before.push(e));
                    if j < i {
                        assert(r@[j] == before[j]);
                        assert(key_views(before)[j] == key_views(self.hints@).take(i as int)[j]);
                    }
                }
                assert(key_views(r@) =~= key_views(self.hints@).take(i + 1));
            }
            i = i + 1;
        }
        proof {
            assert(key_views(self.hints@).take(i as int) =~= key_views(self.hints@));
        }
        r
    }

    /// Coin ids carrying the 32-byte hint `hint`, in coin id order, at most `max_items`.
    pub fn get_coin_ids_by_hint(&self, hint: &Bytes32, max_items: usize) -> (r: Result<
        Vec<CoinId>,
        CoinStoreError,
    >)
        requires
            self.wf(),
        ensures
            r matches Ok(ids) && ids@.map_values(|b: Bytes32| b@) == take_upto(
                select(self.hint_entries(), with_hint(hint@), coin_part()),
                max_items as int,
            ),
            r matches Ok(ids) && forall|a: int, b: int|
                0 <= a < b < ids@.len() ==> lex_lt(#[trigger] ids@[a]@, #[trigger] ids@[b]@),
    {
        let ids = coins_with_hint(&self.hints, hint.as_slice(), max_items);
        proof {
            let sel = select(self.hint_entries(), with_hint(hint@), coin_part());
            crate::hints::lemma_hint_queries_sorted(self.hint_entries(), hint@, hint@);
            assert forall|a: int, b: int| 0 <= a < b < ids@.len() implies lex_lt(
                #[trigger] ids@[a]@,
                #[trigger] ids@[b]@,
            ) by {
                let m = ids@.map_values(|b: Bytes32| b@);
                assert(m == take_upto(sel, max_items as int));
                assert(m.len() == ids@.len());
                assert(m[a] == ids@[a]@ && m[b] == ids@[b]@);
                assert(m[a] == sel[a] && m[b] == sel[b]);
            }
        }
        Ok(ids)
    }

    /// Coin ids carrying the hint bytes `hint` (any length), in coin id order, at most
    /// `max_items`.
    pub fn get_coin_ids_by_hint_bytes(&self, hint: &[u8], max_items: usize) -> (r: Result<
        Vec<CoinId>,
        CoinStoreError,
    >)
        requires
            self.wf(),
        ensures
            r matches Ok(ids) && ids@.map_values(|b: Bytes32| b@) == take_upto(
                select(self.hint_entries(), with_hint(hint@), coin_part()),
                max_items as int,
            ),
            r matches Ok(ids) && forall|a: int, b: int|
                0 <= a < b < ids@.len() ==> lex_lt(#[trigger] ids@[a]@, #[trigger] ids@[b]@),
    {
        let ids = coins_with_hint(&self.hints, hint, max_items);
        proof {
            let sel = select(self.hint_entries(), with_hint(hint@), coin_part());
            crate::hints::lemma_hint_queries_sorted(self.hint_entries(), hint@, hint@);
            assert forall|a: int, b: int| 0 <= a < b < ids@.len() implies lex_lt(
                #[trigger] ids@[a]@,
                #[trigger] ids@[b]@,
            ) by {
                let m = ids@.map_values(|b: Bytes32| b@);
                assert(m == take_upto(sel, max_items as int));
                assert(m.len() == ids@.len());
                assert(m[a] == ids@[a]@ && m[b] == ids@[b]@);
                assert(m[a] == sel[a] && m[b] == sel[b]);
            }
        }
        Ok(ids)
    }

    /// Number of hint entries.
    pub fn count_hints(&self) -> (r: Result<u64, CoinStoreError>)
        requires
            self.wf(),
        ensures
            r matches Ok(n) && n == self.hint_entries().len(),
    {
        Ok(self.hints.len() as u64)
    }

    /// `out` answers a hint listing for `coin_ids`: each listed coin once, each with its stored
    /// 32-byte hints in strictly increasing byte order (so each once), exactly the listed coins
    /// that have such hints.
    pub open spec fn hints_of_coins(&self, coin_ids: Seq<CoinId>, out: Seq<(CoinId, Vec<Bytes32>)>) -> bool {
        &&& forall|i: int, j: int| 0 <= i < j < out.len() ==> #[trigger] out[i].0@ != #[trigger] out[j].0@
        &&& forall|i: int|
            #![trigger out[i]]
            0 <= i < out.len() ==> out[i].1@.map_values(|b: Bytes32| b@) == select(
                self.hint_entries(),
                full_hint_of(out[i].0@),
                hint_part(),
            ) && out[i].1@.len() > 0 && coin_ids.map_values(|b: Bytes32| b@).contains(out[i].0@)
        &&& forall|c: Bytes32|
            coin_ids.contains(c) && select(self.hint_entries(), full_hint_of(c@), hint_part()).len()
                > 0 ==> exists|i: int| 0 <= i < out.len() && #[trigger] out[i].0@ == c@
        &&& forall|i: int, a: int, b: int|
            0 <= i < out.len() && 0 <= a < b < out[i].1@.len() ==> lex_lt(
                #[trigger] out[i].1@[a]@,
                #[trigger] out[i].1@[b]@,
            )
    }

    /// For each distinct coin id of `coin_ids` that has 32-byte hints, the coin id with those
    /// hints in byte order.
    #[verifier::spinoff_prover]
    pub fn get_hints_for_coin_ids(&self, coin_ids: &[CoinId]) -> (r: Result<
        Vec<(CoinId, Vec<Bytes32>)>,
        CoinStoreError,
    >)
        requires
            self.wf(),
        ensures
            r matches Ok(out) && self.hints_of_coins(coin_ids@, out@),
    {
        let mut out: Vec<(CoinId, Vec<Bytes32>)> = Vec::new();
        let mut i: usize = 0;
        while i < coin_ids.len()
            invariant
                self.wf(),
                i <= coin_ids@.len(),
                forall|a: int, b: int|
                    0 <= a < b < out@.len() ==> #[trigger] out@[a].0@ != #[trigger] out@[b].0@,
                forall|a: int|
                    #![trigger out@[a]]
                    0 <= a < out@.len() ==> out@[a].1@.map_values(|b: Bytes32| b@)
                        == select(self.hint_entries(), full_hint_of(out@[a].0@), hint_part())
                        && out@[a].1@.len() > 0 && coin_ids@.map_values(|b: Bytes32| b@).contains(
                        out@[a].0@,
                    ),
                forall|j: int|
                    0 <= j < i && select(
                        self.hint_entries(),
                        full_hint_of(#[trigger] coin_ids@[j]@),
                        hint_part(),
                    ).len() > 0 ==> exists|a: int| 0 <= a < out@.len() && out@[a].0@ == coin_ids@[j]@,
            decreases coin_ids.len() - i,
        {
            let c = coin_ids[i];
            let ghost before = out@;
            let mut seen = false;
            let mut k: usize = 0;
            while k < out.len()
                invariant
                    k <= out@.len(),
                    !seen ==> forall|a: int| 0 <= a < k ==> #[trigger] out@[a].0@ != c@,
                    seen ==> exists|a: int| 0 <= a < out@.len() && #[trigger] out@[a].0@ == c@,
                decreases out.len() - k,
            {
                if out[k].0.equals(&c) {
                    seen = true;
                }
                k = k + 1;
            }
            if !seen {
                let hs = full_hints_of_coin(&self.hints, &c);
                proof {
                    assert(hs@.map_values(|b: Bytes32| b@).len() == hs@.len());
                }
                if hs.len() > 0 {
                    proof {
                        assert(coin_ids@.map_values(|b: Bytes32| b@)[i as int] == c@);
                    }
                    out.push((c, hs));
                    proof {
                        assert(out@[before.len() as int] == (c, hs));
                        assert forall|a: int| 0 <= a < before.len() implies out@[a] == before[a] by {}
                    }
                }
            }
            proof {
                assert(coin_ids@[i as int] == c);
                assert forall|a: int| 0 <= a < before.len() implies out@[a] == before[a] by {}
                assert forall|j: int|
                    0 <= j < i + 1 && select(
                        self.hint_entries(),
                        full_hint_of(#[trigger] coin_ids@[j]@),
                        hint_part(),
                    ).len() > 0 implies exists|a: int| 0 <= a < out@.len() && out@[a].0@ == coin_ids@[j]@ by {
                    if j < i {
                        let a = choose|a: int| 0 <= a < before.len() && before[a].0@ == coin_ids@[j]@;
                        assert(out@[a] == before[a]);
                    } else if seen {
                        let a = choose|a: int| 0 <= a < out@.len() && #[trigger] out@[a].0@ == c@;
                        assert(out@[a].0@ == coin_ids@[j]@);
                    } else {
                        assert(out@[before.len() as int].0@ == coin_ids@[j]@);
                    }
                }
            }
            i = i + 1;
        }
        proof {
            assert forall|c: Bytes32|
                coin_ids@.contains(c) && select(
                    self.hint_entries(),
                    full_hint_of(c@),
                    hint_part(),
                ).len() > 0 implies exists|i: int| 0 <= i < out@.len() && #[trigger] out@[i].0@ == c@ by {
                let j = choose|j: int| 0 <= j < coin_ids@.len() && coin_ids@[j] == c;
                assert(coin_ids@[j]@ == c@);
            }
        }
        assert(forall|i: int, j: int|
            0 <= i < j < out@.len() ==> #[trigger] out@[i].0@ != #[trigger] out@[j].0@);
        assert(forall|i: int|
            #![trigger out@[i]]
            0 <= i < out@.len() ==> out@[i].1@.map_values(|b: Bytes32| b@) == select(
                self.hint_entries(),
                full_hint_of(out@[i].0@),
                hint_part(),
            ) && out@[i].1@.len() > 0 && coin_ids@.map_values(|b: Bytes32| b@).contains(out@[i].0@));
        proof {
            assert forall|i: int, a: int, b: int|
                0 <= i < out@.len() && 0 <= a < b < out@[i].1@.len() implies lex_lt(
                    #[trigger] out@[i].1@[a]@,
                    #[trigger] out@[i].1@[b]@,
                ) by {
                let sel = select(self.hint_entries(), full_hint_of(out@[i].0@), hint_part());
                crate::hints::lemma_hint_queries_sorted(self.hint_entries(), sel[0], out@[i].0@);
                let m = out@[i].1@.map_values(|b: Bytes32| b@);
                assert(m == sel);
                assert(m[a] == out@[i].1@[a]@ && m[b] == out@[i].1@[b]@);
            }
            assert(self.hints_of_coins(coin_ids@, out@));
        }
        Ok(out)
    }

    /// Coin ids carrying any of `hints` (32-byte), deduplicated, at most `max_items`: for each
    /// hint in turn, its coins in coin id order (at most `max_items` per hint), keeping the first
    /// occurrence of each coin id.
    pub fn get_coin_ids_by_hints(&self, hints: &[Bytes32], max_items: usize) -> (r: Result<
        Vec<CoinId>,
        CoinStoreError,
    >)
        requires
            self.wf(),
        ensures
            r matches Ok(ids) && ids@.map_values(|b: Bytes32| b@) == take_upto(
                dedup(hinted_coins(self.hint_entries(), hints@, max_items as int)),
                max_items as int,
            ),
    {
        let mut out: Vec<CoinId> = Vec::new();
        let ghost es = self.hint_entries();
        let mut i: usize = 0;
        while i < hints.len()
            invariant
                self.wf(),
                es == self.hint_entries(),
                i <= hints@.len(),
                out@.len() <= max_items,
                out@.map_values(|b: Bytes32| b@) == take_upto(
                    dedup(hinted_coins(es, hints@.take(i as int), max_items as int)),
                    max_items as int,
                ),
            decreases hints.len() - i,
        {
            let ids = coins_with_hint(&self.hints, hints[i].as_slice(), max_items);
            let ghost prev = hinted_coins(es, hints@.take(i as int), max_items as int);
            let ghost part = take_upto(select(es, with_hint(hints@[i as int]@), coin_part()), max_items as int);
            proof {
                assert(hints@.take(i + 1).drop_last() =~= hints@.take(i as int));
                assert(hints@.take(i + 1).last() == hints@[i as int]);
                assert(hinted_coins(es, hints@.take(i + 1), max_items as int) == prev + part);
            }
            let mut k: usize = 0;
            while k < ids.len()
                invariant
                    k <= ids@.len(),
                    ids@.map_values(|b: Bytes32| b@) == part,
                    out@.len() <= max_items,
                    out@.map_values(|b: Bytes32| b@) == take_upto(
                        dedup(prev + part.take(k as int)),
                        max_items as int,
                    ),
                decreases ids.len() - k,
            {
                let c = ids[k];
                proof {
                    assert(part[k as int] == c@);
                    assert(part.take(k + 1) =~= part.take(k as int).push(c@));
                    assert(prev + part.take(k + 1) =~= (prev + part.take(k as int)).push(c@));
                    lemma_dedup_push(prev + part.take(k as int), c@);
                }
                if out.len() < max_items {
                    let mut seen = false;
                    let mut a: usize = 0;
                    while a < out.len()
                        invariant
                            a <= out@.len(),
                            seen == exists|b: int| 0 <= b < a && #[trigger] out@[b]@ == c@,
                        decreases out.len() - a,
                    {
                        if out[a].equals(&c) {
                            seen = true;
                        }
                        a = a + 1;
                    }
                    proof {
                        let d = dedup(prev + part.take(k as int));
                        if max_items < d.len() {
                            assert(out@.map_values(|b: Bytes32| b@).len() == max_items);
                        }
                        assert(out@.map_values(|b: Bytes32| b@) == d);
                        assert(seen == d.contains(c@)) by {
                            if seen {
                                let b = choose|b: int| 0 <= b < out@.len() && #[trigger] out@[b]@ == c@;
                                assert(d[b] == c@);
                            }
                            if d.contains(c@) {
                                let b = choose|b: int| 0 <= b < d.len() && d[b] == c@;
                                assert(out@[b]@ == c@);
                            }
                        }
                    }
                    if !seen {
                        let ghost before = out@;
                        out.push(c);
                        proof {
                            assert(out@.map_values(|b: Bytes32| b@) =~= before.map_values(|b: Bytes32| b@).push(c@));
                        }
                    }
                } else {
                    proof {
                        lemma_dedup_prefix_stable(prev + part.take(k as int), c@, max_items as int);
                    }
                }
                k = k + 1;
            }
            proof {
                assert(part.take(ids@.len() as int) =~= part);
            }
            i = i + 1;
        }
        proof {
            assert(hints@.take(hints@.len() as int) =~= hints@);
        }
        Ok(out)
    }

    /// Remove every hint of the coins `coin_ids`; returns how many entries were removed: the
    /// number of stored entries whose coin is one of `coin_ids` (entries are distinct, see
    /// [`Self::lemma_wf_parts`], so this is the number of removed `(coin, hint)` pairs).
    pub fn remove_hints_for_coins(&mut self, coin_ids: &[CoinId]) -> (r: Result<u64, CoinStoreError>)
        requires
            old(self).wf(),
        ensures
            final(self).wf(),
            final(self).same_but_hints(old(self)),
            final(self).hint_entries() == select(
                old(self).hint_entries(),
                not_of_coins(coin_ids@),
                whole_entry(),
            ),
            r matches Ok(n) && n == old(self).hint_entries().len() - final(self).hint_entries().len(),
            r matches Ok(n) && n == count(old(self).hint_entries(), of_coins(coin_ids@)),
    {
        proof {
            crate::select::lemma_select_count_complement(
                old(self).hint_entries(),
                not_of_coins(coin_ids@),
                of_coins(coin_ids@),
                whole_entry(),
            );
        }
        let removed = drop_entries_of_coins(&mut self.hints, coin_ids);
        Ok(removed as u64)
    }
}

// ─────────────────────────────────────────────────────────────────────────────
// Block hints
// ─────────────────────────────────────────────────────────────────────────────

/// The hint entries of the first `n` hints of `b` that are not zero.
pub open spec fn hints_upto(b: BlockData, n: int) -> Set<Seq<u8>> {
    Set::new(
        |e: Seq<u8>|
            exists|i: int|
                0 <= i < n && i < b.hints@.len() && #[trigger] b.hints@[i].1@ != zero32() && e
                    == hint_entry(b.hints@[i].0@, b.hints@[i].1@),
    )
}

/// Stores the non-zero hints of `block`.
fn add_block_hints(hints: &mut Vec<Vec<u8>>, block: &BlockData)
    requires
        hint_list_wf(key_views(old(hints)@)),
    ensures
        hint_list_wf(key_views(final(hints)@)),
        key_views(final(hints)@).to_set() == key_views(old(hints)@).to_set().union(
            block_hint_entries(*block),
        ),
{
    let mut i: usize = 0;
    proof {
        assert(key_views(hints@).to_set() =~= key_views(old(hints)@).to_set().union(
            hints_upto(*block, 0),
        ));
    }
    while i < block.hints.len()
        invariant
            i <= block.hints@.len(),
            hint_list_wf(key_views(hints@)),
            key_views(hints@).to_set() == key_views(old(hints)@).to_set().union(
                hints_upto(*block, i as int),
            ),
        decreases block.hints.len() - i,
    {
        let (c, h) = block.hints[i];
        let ghost before = key_views(hints@);
        if !h.is_zero() {
            let entry = make_hint_entry(&c, h.as_slice());
            let _added = insert_entry(hints, entry);
            proof {
                lemma_hint_entry_parts(c@, h@);
                lemma_insert_keeps_wf(before, key_views(hints@), hint_entry(c@, h@));
            }
        }
        proof {
            lemma_hints_upto_step(*block, i as int);
            assert(key_views(hints@).to_set() =~= key_views(old(hints)@).to_set().union(
                hints_upto(*block, i + 1),
            ));
        }
        i = i + 1;
    }
    proof {
        assert(hints_upto(*block, block.hints@.len() as int) =~= block_hint_entries(*block));
    }
}

/// One more hint adds its entry when it is not zero.
pub proof fn lemma_hints_upto_step(b: BlockData, n: int)
    requires
        0 <= n < b.hints@.len(),
    ensures
        hints_upto(b, n + 1) == if b.hints@[n].1@ != zero32() {
            hints_upto(b, n).insert(hint_entry(b.hints@[n].0@, b.hints@[n].1@))
        } else {
            hints_upto(b, n)
        },
{
    let e = hint_entry(b.hints@[n].0@, b.hints@[n].1@);
    if b.hints@[n].1@ != zero32() {
        assert forall|x: Seq<u8>| #[trigger] hints_upto(b, n + 1).contains(x) <==> hints_upto(b, n).insert(
            e,
        ).contains(x) by {
            if hints_upto(b, n + 1).contains(x) {
                let i = choose|i: int|
                    0 <= i < n + 1 && i < b.hints@.len() && #[trigger] b.hints@[i].1@ != zero32() && x
                        == hint_entry(b.hints@[i].0@, b.hints@[i].1@);
                if i < n {
                    assert(hints_upto(b, n).contains(x));
                }
            }
        }
        assert(hints_upto(b, n + 1) =~= hints_upto(b, n).insert(e));
    } else {
        assert forall|x: Seq<u8>| #[trigger] hints_upto(b, n + 1).contains(x) <==> hints_upto(
            b,
            n,
        ).contains(x) by {
            if hints_upto(b, n + 1).contains(x) {
                let i = choose|i: int|
                    0 <= i < n + 1 && i < b.hints@.len() && #[trigger] b.hints@[i].1@ != zero32() && x
                        == hint_entry(b.hints@[i].0@, b.hints@[i].1@);
                assert(i != n);
            }
        }
        assert(hints_upto(b, n + 1) =~= hints_upto(b, n));
    }
}

// ─────────────────────────────────────────────────────────────────────────────
// Deduplication
// ─────────────────────────────────────────────────────────────────────────────

/// `s` with every element after its first occurrence dropped.
pub open spec fn dedup(s: Seq<Seq<u8>>) -> Seq<Seq<u8>>
    decreases s.len(),
{
    if s.len() == 0 {
        s
    } else {
        let d = dedup(s.drop_last());
        if d.contains(s.last()) {
            d
        } else {
            d.push(s.last())
        }
    }
}

/// For each hint of `hints` in turn, the coins carrying it (at most `max` per hint).
pub open spec fn hinted_coins(entries: Seq<Seq<u8>>, hints: Seq<Bytes32>, max: int) -> Seq<Seq<u8>>
    decreases hints.len(),
{
    if hints.len() == 0 {
        Seq::empty()
    } else {
        hinted_coins(entries, hints.drop_last(), max) + take_upto(
            select(entries, with_hint(hints.last()@), coin_part()),
            max,
        )
    }
}

/// Appending an element extends the deduplication by it when it is new.
pub proof fn lemma_dedup_push(s: Seq<Seq<u8>>, x: Seq<u8>)
    ensures
        dedup(s.push(x)) == if dedup(s).contains(x) {
            dedup(s)
        } else {
            dedup(s).push(x)
        },
{
    assert(s.push(x).drop_last() =~= s);
}

/// A deduplication is no longer than its input.
pub proof fn lemma_dedup_len_le(s: Seq<Seq<u8>>)
    ensures
        dedup(s).len() <= s.len(),
    decreases s.len(),
{
    if s.len() > 0 {
        lemma_dedup_len_le(s.drop_last());
    }
}

/// Once `max` distinct elements are kept, appending leaves the first `max` of them unchanged.
pub proof fn lemma_dedup_prefix_stable(s: Seq<Seq<u8>>, x: Seq<u8>, max: int)
    requires
        0 <= max <= dedup(s).len(),
    ensures
        take_upto(dedup(s.push(x)), max) == take_upto(dedup(s), max),
{
    lemma_dedup_push(s, x);
    let d = dedup(s);
    if !d.contains(x) {
        if max < d.len() {
            assert(d.push(x).take(max) =~= d.take(max));
        } else {
            assert(d.push(x).take(max) =~= d);
        }
    }
}

} // verus!
