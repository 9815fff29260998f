//! The stored form of coin records and the ordered lists that hold them.
//!
//! - **Row encoding:** a coin record is stored as 97 bytes: parent (32) + puzzle hash (32) +
//!   amount (8, LE) + confirmed height (8, LE) + spent height (8, LE, `0` = unspent) +
//!   coinbase (1) + timestamp (8, LE). Its Merkle leaf is the leaf hash of those bytes.
//! - **Coin list:** `(coin_id, record)` pairs sorted strictly by coin id (byte order), the order
//!   in which a key-value store keyed by coin id walks its rows.
//! - **Hint list:** `(coin_id, hint)` pairs sorted strictly by `coin_id || hint`.
use crate::bytes::{
    compare_bytes, extend_from, from_le, le_bytes, lemma_le_roundtrip, lemma_lex_lt_asymmetric,
    lemma_lex_lt_transitive, lex_lt, push_u64_le, read_u64_le, ByteOrder, Bytes32,
};
use crate::merkle::{
    in_subtree, merkle_leaf_hash, spec_empty_hash, spec_leaf_hash, spec_root, SMT_HEIGHT,
};
use crate::types::{coin_id_of, Coin, CoinRecord};
use vstd::prelude::*;

verus! {

// ─────────────────────────────────────────────────────────────────────────────
// Row encoding
// ─────────────────────────────────────────────────────────────────────────────

/// Length of the stored row.
pub const RECORD_ROW_LEN: usize = 97;

/// The stored bytes of a record.
pub open spec fn spec_record_row(r: CoinRecord) -> Seq<u8> {
    r.coin.parent_coin_info@ + r.coin.puzzle_hash@ + le_bytes(r.coin.amount) + le_bytes(
        r.confirmed_height,
    ) + le_bytes(
        match r.spent_height {
            Some(h) => h,
            None => 0,
        },
    ) + seq![if r.coinbase { 1u8 } else { 0u8 }] + le_bytes(r.timestamp)
}

/// The Merkle leaf of a record.
pub open spec fn spec_record_leaf(r: CoinRecord) -> Seq<u8> {
    spec_leaf_hash(spec_record_row(r))
}

/// The record a 97-byte row decodes to.
pub open spec fn spec_decode_row(b: Seq<u8>) -> CoinRecord {
    let spent = from_le(b.subrange(80, 88));
    CoinRecord {
        coin: Coin {
            parent_coin_info: Bytes32 { bytes: arbitrary() },
            puzzle_hash: Bytes32 { bytes: arbitrary() },
            amount: from_le(b.subrange(64, 72)),
        },
        confirmed_height: from_le(b.subrange(72, 80)),
        spent_height: if spent != 0 {
            Some(spent)
        } else {
            None
        },
        coinbase: b[88] != 0,
        timestamp: from_le(b.subrange(89, 97)),
        ff_eligible: false,
    }
}

/// Encode a record as its 97-byte row.
pub fn encode_record_row(rec: &CoinRecord) -> (r: Vec<u8>)
    ensures
        r@ == spec_record_row(*rec),
        r@.len() == RECORD_ROW_LEN,
{
    let mut buf: Vec<u8> = Vec::new();
    extend_from(&mut buf, rec.coin.parent_coin_info.as_slice());
    extend_from(&mut buf, rec.coin.puzzle_hash.as_slice());
    push_u64_le(&mut buf, rec.coin.amount);
    push_u64_le(&mut buf, rec.confirmed_height);
    let spent: u64 = match rec.spent_height {
        Some(h) => h,
        None => 0,
    };
    push_u64_le(&mut buf, spent);
    buf.push(if rec.coinbase { 1u8 } else { 0u8 });
    push_u64_le(&mut buf, rec.timestamp);
    assert(buf@ =~= spec_record_row(*rec));
    buf
}

/// Encode a genesis coin row (confirmed at height 0, unspent).
pub fn serialize_genesis_record(coin: &Coin, is_coinbase: bool, timestamp: u64) -> (r: Vec<u8>)
    ensures
        r@ == spec_record_row(
            CoinRecord {
                coin: *coin,
                confirmed_height: 0,
                spent_height: None,
                coinbase: is_coinbase,
                timestamp,
                ff_eligible: false,
            },
        ),
{
    let rec = CoinRecord::new(*coin, 0, timestamp, is_coinbase);
    encode_record_row(&rec)
}

/// Decode a 97-byte row; any other length decodes to `None`.
pub fn decode_legacy_genesis_coin_record(bytes: &[u8]) -> (r: Option<CoinRecord>)
    ensures
        r is Some <==> bytes@.len() == RECORD_ROW_LEN,
        r matches Some(rec) ==> {
            &&& rec.coin.parent_coin_info@ == bytes@.subrange(0, 32)
            &&& rec.coin.puzzle_hash@ == bytes@.subrange(32, 64)
            &&& rec.coin.amount == spec_decode_row(bytes@).coin.amount
            &&& rec.confirmed_height == spec_decode_row(bytes@).confirmed_height
            &&& rec.spent_height == spec_decode_row(bytes@).spent_height
            &&& rec.coinbase == spec_decode_row(bytes@).coinbase
            &&& rec.timestamp == spec_decode_row(bytes@).timestamp
            &&& !rec.ff_eligible
        },
{
    if bytes.len() != RECORD_ROW_LEN {
        return None;
    }
    let parent = Bytes32::from_range(bytes, 0);
    let puzzle = Bytes32::from_range(bytes, 32);
    let amount = read_u64_le(bytes, 64);
    let confirmed_height = read_u64_le(bytes, 72);
    let spent_raw = read_u64_le(bytes, 80);
    let coinbase = bytes[88] != 0;
    let timestamp = read_u64_le(bytes, 89);
    let coin = Coin::new(parent, puzzle, amount);
    let mut rec = CoinRecord::new(coin, confirmed_height, timestamp, coinbase);
    if spent_raw != 0 {
        rec.spend(spent_raw);
    }
    Some(rec)
}

/// Decoding the row of a record gives the record back, provided its spent height is not `Some(0)`
/// (which the row cannot tell from unspent) and it is not marked fast-forward eligible (the row
/// does not carry that flag).
pub proof fn lemma_row_roundtrip(rec: CoinRecord)
    requires
        rec.spent_height != Some(0u64),
        !rec.ff_eligible,
    ensures
        spec_record_row(rec).len() == RECORD_ROW_LEN,
        spec_record_row(rec).subrange(0, 32) == rec.coin.parent_coin_info@,
        spec_record_row(rec).subrange(32, 64) == rec.coin.puzzle_hash@,
        spec_decode_row(spec_record_row(rec)).coin.amount == rec.coin.amount,
        spec_decode_row(spec_record_row(rec)).confirmed_height == rec.confirmed_height,
        spec_decode_row(spec_record_row(rec)).spent_height == rec.spent_height,
        spec_decode_row(spec_record_row(rec)).coinbase == rec.coinbase,
        spec_decode_row(spec_record_row(rec)).timestamp == rec.timestamp,
{
    let b = spec_record_row(rec);
    let spent: u64 = match rec.spent_height {
        Some(h) => h,
        None => 0,
    };
    assert(b.subrange(0, 32) =~= rec.coin.parent_coin_info@);
    assert(b.subrange(32, 64) =~= rec.coin.puzzle_hash@);
    assert(b.subrange(64, 72) =~= le_bytes(rec.coin.amount));
    assert(b.subrange(72, 80) =~= le_bytes(rec.confirmed_height));
    assert(b.subrange(80, 88) =~= le_bytes(spent));
    assert(b.subrange(89, 97) =~= le_bytes(rec.timestamp));
    lemma_le_roundtrip(rec.coin.amount);
    lemma_le_roundtrip(rec.confirmed_height);
    lemma_le_roundtrip(spent);
    lemma_le_roundtrip(rec.timestamp);
}

/// The Merkle leaf of a record.
pub fn record_leaf(rec: &CoinRecord) -> (r: Bytes32)
    ensures
        r@ == spec_record_leaf(*rec),
{
    let row = encode_record_row(rec);
    merkle_leaf_hash(row.as_slice())
}

/// The Merkle leaves of a coin map: each coin id maps to the leaf of its record.
pub open spec fn leaf_map(m: Map<Seq<u8>, CoinRecord>) -> Map<Seq<u8>, Seq<u8>> {
    m.map_values(|r: CoinRecord| spec_record_leaf(r))
}

/// The state root of a coin map.
pub open spec fn spec_state_root(m: Map<Seq<u8>, CoinRecord>) -> Seq<u8> {
    spec_root(leaf_map(m))
}

/// Writing a record writes its leaf.
pub proof fn lemma_leaf_map_insert(m: Map<Seq<u8>, CoinRecord>, k: Seq<u8>, r: CoinRecord)
    ensures
        leaf_map(m.insert(k, r)) == leaf_map(m).insert(k, spec_record_leaf(r)),
{
    assert(leaf_map(m.insert(k, r)) =~= leaf_map(m).insert(k, spec_record_leaf(r)));
}

/// The empty coin map has no leaves.
pub proof fn lemma_leaf_map_empty()
    ensures
        leaf_map(Map::<Seq<u8>, CoinRecord>::empty()) == Map::<Seq<u8>, Seq<u8>>::empty(),
{
    assert(leaf_map(Map::<Seq<u8>, CoinRecord>::empty()) =~= Map::<Seq<u8>, Seq<u8>>::empty());
}

/// A coin set with no coins commits to the hash of the empty tree.
pub proof fn lemma_empty_state_root()
    ensures
        spec_state_root(Map::<Seq<u8>, CoinRecord>::empty()) == spec_empty_hash(SMT_HEIGHT as nat),
{
    lemma_leaf_map_empty();
    assert(!(exists|k: Seq<u8>| #[trigger] in_subtree(Map::<Seq<u8>, Seq<u8>>::empty(), Seq::empty(), k)));
}

// ─────────────────────────────────────────────────────────────────────────────
// Coin lists
// ─────────────────────────────────────────────────────────────────────────────

/// The map held by a coin list.
pub open spec fn coins_map(s: Seq<(Bytes32, CoinRecord)>) -> Map<Seq<u8>, CoinRecord> {
    Map::new(
        |k: Seq<u8>| exists|i: int| 0 <= i < s.len() && #[trigger] s[i].0@ == k,
        |k: Seq<u8>| s[choose|i: int| 0 <= i < s.len() && #[trigger] s[i].0@ == k].1,
    )
}

/// Ids strictly increase along the list.
pub open spec fn ids_sorted(s: Seq<(Bytes32, CoinRecord)>) -> bool {
    forall|i: int, j: int| 0 <= i < j < s.len() ==> lex_lt(#[trigger] s[i].0@, #[trigger] s[j].0@)
}

/// Each id is the id of its record's coin.
pub open spec fn ids_match(s: Seq<(Bytes32, CoinRecord)>) -> bool {
    forall|i: int| 0 <= i < s.len() ==> #[trigger] s[i].0@ == coin_id_of(s[i].1.coin)
}

/// A well-formed coin list.
pub open spec fn coin_list_wf(s: Seq<(Bytes32, CoinRecord)>) -> bool {
    ids_sorted(s) && ids_match(s)
}

/// Ids of a sorted list are distinct.
pub proof fn lemma_sorted_distinct(s: Seq<(Bytes32, CoinRecord)>, i: int, j: int)
    requires
        ids_sorted(s),
        0 <= i < s.len(),
        0 <= j < s.len(),
        i != j,
    ensures
        s[i].0@ != s[j].0@,
{
    if i < j {
        assert(lex_lt(s[i].0@, s[j].0@));
    } else {
        assert(lex_lt(s[j].0@, s[i].0@));
    }
}

/// In a sorted list, the map holds each listed record.
pub proof fn lemma_coins_map_at(s: Seq<(Bytes32, CoinRecord)>, i: int)
    requires
        ids_sorted(s),
        0 <= i < s.len(),
    ensures
        coins_map(s).dom().contains(s[i].0@),
        coins_map(s)[s[i].0@] == s[i].1,
{
    let k = s[i].0@;
    assert(exists|j: int| 0 <= j < s.len() && #[trigger] s[j].0@ == k);
    let j = choose|j: int| 0 <= j < s.len() && #[trigger] s[j].0@ == k;
    if i != j {
        lemma_sorted_distinct(s, i, j);
    }
}

/// Index of the entry with id `id`, if any.
pub fn find_coin(coins: &Vec<(Bytes32, CoinRecord)>, id: &Bytes32) -> (r: Option<usize>)
    requires
        ids_sorted(coins@),
    ensures
        r matches Some(i) ==> i < coins@.len() && coins@[i as int].0@ == id@,
        r is None ==> !coins_map(coins@).dom().contains(id@),
        r is None ==> forall|i: int| 0 <= i < coins@.len() ==> #[trigger] coins@[i].0@ != id@,
{
    let mut i: usize = 0;
    while i < coins.len()
        invariant
            i <= coins@.len(),
            forall|j: int| 0 <= j < i ==> #[trigger] coins@[j].0@ != id@,
        decreases coins.len() - i,
    {
        if coins[i].0.equals(id) {
            return Some(i);
        }
        i = i + 1;
    }
    proof {
        if coins_map(coins@).dom().contains(id@) {
            let j = choose|j: int| 0 <= j < coins@.len() && #[trigger] coins@[j].0@ == id@;
        }
    }
    None
}

/// Looks up the record with id `id`.
pub fn lookup_coin(coins: &Vec<(Bytes32, CoinRecord)>, id: &Bytes32) -> (r: Option<CoinRecord>)
    requires
        ids_sorted(coins@),
    ensures
        r == (if coins_map(coins@).dom().contains(id@) {
            Some(coins_map(coins@)[id@])
        } else {
            None
        }),
{
    match find_coin(coins, id) {
        Some(i) => {
            proof {
                lemma_coins_map_at(coins@, i as int);
            }
            Some(coins[i].1)
        },
        None => None,
    }
}

/// Inserts `(id, rec)` at its sorted position; `id` must be new.
pub fn insert_coin_sorted(coins: &mut Vec<(Bytes32, CoinRecord)>, id: Bytes32, rec: CoinRecord)
    requires
        coin_list_wf(old(coins)@),
        id@ == coin_id_of(rec.coin),
        !coins_map(old(coins)@).dom().contains(id@),
    ensures
        coin_list_wf(final(coins)@),
        coins_map(final(coins)@) == coins_map(old(coins)@).insert(id@, rec),
        final(coins)@.len() == old(coins)@.len() + 1,
{
    let mut p: usize = 0;
    while p < coins.len()
        invariant
            p <= coins@.len(),
            coins@ == old(coins)@,
            forall|j: int| 0 <= j < p ==> lex_lt(#[trigger] coins@[j].0@, id@),
        ensures
            p <= coins@.len(),
            p < coins@.len() ==> lex_lt(id@, coins@[p as int].0@) || coins@[p as int].0@ == id@,
        decreases coins.len() - p,
    {
        let c = compare_bytes(coins[p].0.as_slice(), id.as_slice());
        if c != ByteOrder::Less {
            break;
        }
        p = p + 1;
    }
    let ghost s = coins@;
    proof {
        assert forall|j: int| 0 <= j < s.len() implies s[j].0@ != id@ by {
            if s[j].0@ == id@ {
                assert(coins_map(s).dom().contains(id@));
            }
        }
        if p < s.len() {
            assert(s[p as int].0@ != id@);
            assert forall|j: int| p <= j < s.len() implies lex_lt(id@, #[trigger] s[j].0@) by {
                if j > p {
                    lemma_lex_lt_transitive(id@, s[p as int].0@, s[j].0@);
                }
            }
        }
    }
    coins.insert(p, (id, rec));
    let ghost t = coins@;
    proof {
        assert forall|j: int| 0 <= j < t.len() implies #[trigger] t[j] == (if j < p {
            s[j]
        } else if j == p {
            (id, rec)
        } else {
            s[j - 1]
        }) by {}
        assert forall|a: int, b: int| 0 <= a < b < t.len() implies lex_lt(
            #[trigger] t[a].0@,
            #[trigger] t[b].0@,
        ) by {
            if b < p {
            } else if a < p && b == p {
            } else if a < p && b > p {
                lemma_lex_lt_transitive(t[a].0@, id@, t[b].0@);
            } else if a == p {
            } else {
                assert(lex_lt(s[a - 1].0@, s[b - 1].0@));
            }
        }
        assert(ids_match(t));
        let lhs = coins_map(t);
        let rhs = coins_map(s).insert(id@, rec);
        assert forall|k: Seq<u8>| #[trigger] lhs.dom().contains(k) <==> rhs.dom().contains(k) by {
            if lhs.dom().contains(k) {
                let j = choose|j: int| 0 <= j < t.len() && #[trigger] t[j].0@ == k;
                if j < p {
                    assert(s[j].0@ == k);
                } else if j > p {
                    assert(s[j - 1].0@ == k);
                }
            }
            if rhs.dom().contains(k) && k != id@ {
                let j = choose|j: int| 0 <= j < s.len() && #[trigger] s[j].0@ == k;
                if j < p {
                    assert(t[j].0@ == k);
                } else {
                    assert(t[j + 1].0@ == k);
                }
            }
            if k == id@ {
                assert(t[p as int].0@ == k);
            }
        }
        assert forall|k: Seq<u8>| #[trigger] lhs.dom().contains(k) implies lhs[k] == rhs[k] by {
            let j = choose|j: int| 0 <= j < t.len() && #[trigger] t[j].0@ == k;
            lemma_coins_map_at(t, j);
            if j < p {
                lemma_coins_map_at(s, j);
            } else if j > p {
                lemma_coins_map_at(s, j - 1);
            }
        }
        assert(lhs =~= rhs);
    }
}

/// Replaces the record at index `i` by a record with the same coin id.
pub fn update_coin_at(coins: &mut Vec<(Bytes32, CoinRecord)>, i: usize, rec: CoinRecord)
    requires
        coin_list_wf(old(coins)@),
        i < old(coins)@.len(),
        old(coins)@[i as int].0@ == coin_id_of(rec.coin),
    ensures
        coin_list_wf(final(coins)@),
        coins_map(final(coins)@) == coins_map(old(coins)@).insert(old(coins)@[i as int].0@, rec),
        final(coins)@ == old(coins)@.update(i as int, (old(coins)@[i as int].0, rec)),
{
    let id = coins[i].0;
    let ghost s = coins@;
    coins.set(i, (id, rec));
    let ghost t = coins@;
    proof {
        assert(t =~= s.update(i as int, (id, rec)));
        assert forall|a: int, b: int| 0 <= a < b < t.len() implies lex_lt(
            #[trigger] t[a].0@,
            #[trigger] t[b].0@,
        ) by {
            assert(t[a].0@ == s[a].0@);
            assert(t[b].0@ == s[b].0@);
        }
        assert forall|j: int| 0 <= j < t.len() implies #[trigger] t[j].0@ == coin_id_of(t[j].1.coin) by {
            if j != i {
                assert(s[j].0@ == coin_id_of(s[j].1.coin));
            }
        }
        let lhs = coins_map(t);
        let rhs = coins_map(s).insert(id@, rec);
        assert forall|k: Seq<u8>| #[trigger] lhs.dom().contains(k) <==> rhs.dom().contains(k) by {
            if lhs.dom().contains(k) {
                let j = choose|j: int| 0 <= j < t.len() && #[trigger] t[j].0@ == k;
                assert(s[j].0@ == k);
            }
            if rhs.dom().contains(k) && k != id@ {
                let j = choose|j: int| 0 <= j < s.len() && #[trigger] s[j].0@ == k;
                assert(t[j].0@ == k);
            }
            if k == id@ {
                assert(t[i as int].0@ == k);
            }
        }
        assert forall|k: Seq<u8>| #[trigger] lhs.dom().contains(k) implies lhs[k] == rhs[k] by {
            let j = choose|j: int| 0 <= j < t.len() && #[trigger] t[j].0@ == k;
            lemma_coins_map_at(t, j);
            if j != i {
                lemma_coins_map_at(s, j);
            }
        }
        assert(lhs =~= rhs);
    }
}

/// No coin id occurs twice.
pub open spec fn ids_distinct(s: Seq<(Bytes32, CoinRecord)>) -> bool {
    forall|i: int, j: int| 0 <= i < j < s.len() ==> #[trigger] s[i].0@ != #[trigger] s[j].0@
}

/// In a list without repeated ids, the map holds each listed record.
pub proof fn lemma_coins_map_at_distinct(s: Seq<(Bytes32, CoinRecord)>, i: int)
    requires
        ids_distinct(s),
        0 <= i < s.len(),
    ensures
        coins_map(s).dom().contains(s[i].0@),
        coins_map(s)[s[i].0@] == s[i].1,
{
    let k = s[i].0@;
    assert(exists|j: int| 0 <= j < s.len() && #[trigger] s[j].0@ == k);
    let j = choose|j: int| 0 <= j < s.len() && #[trigger] s[j].0@ == k;
    if j < i {
        assert(s[j].0@ != s[i].0@);
    } else if i < j {
        assert(s[i].0@ != s[j].0@);
    }
}

/// Appending a record with a new id to a list without repeated ids adds it to the map.
pub proof fn lemma_coins_map_push_fresh(s: Seq<(Bytes32, CoinRecord)>, e: (Bytes32, CoinRecord))
    requires
        ids_distinct(s),
        forall|j: int| 0 <= j < s.len() ==> #[trigger] s[j].0@ != e.0@,
    ensures
        ids_distinct(s.push(e)),
        coins_map(s.push(e)) == coins_map(s).insert(e.0@, e.1),
{
    let t = s.push(e);
    assert forall|a: int, b: int| 0 <= a < b < t.len() implies #[trigger] t[a].0@ != #[trigger] t[b].0@ by {
        if b < s.len() {
            assert(t[a] == s[a] && t[b] == s[b]);
        } else {
            assert(t[a] == s[a]);
        }
    }
    let lhs = coins_map(t);
    let rhs = coins_map(s).insert(e.0@, e.1);
    assert forall|k: Seq<u8>| #[trigger] lhs.dom().contains(k) <==> rhs.dom().contains(k) by {
        if lhs.dom().contains(k) {
            let j = choose|j: int| 0 <= j < t.len() && #[trigger] t[j].0@ == k;
            if j < s.len() {
                assert(s[j].0@ == k);
            }
        }
        if rhs.dom().contains(k) && k != e.0@ {
            let j = choose|j: int| 0 <= j < s.len() && #[trigger] s[j].0@ == k;
            assert(t[j].0@ == k);
        }
        if k == e.0@ {
            assert(t[s.len() as int].0@ == k);
        }
    }
    assert forall|k: Seq<u8>| #[trigger] lhs.dom().contains(k) implies lhs[k] == rhs[k] by {
        let j = choose|j: int| 0 <= j < t.len() && #[trigger] t[j].0@ == k;
        lemma_coins_map_at_distinct(t, j);
        if j < s.len() {
            assert(t[j] == s[j]);
            lemma_coins_map_at_distinct(s, j);
        }
    }
    assert(lhs =~= rhs);
}

/// A sorted coin list holds as many records as it has entries.
pub proof fn lemma_coin_list_len(s: Seq<(Bytes32, CoinRecord)>)
    requires
        ids_sorted(s),
    ensures
        coins_map(s).dom().len() == s.len(),
        coins_map(s).dom().finite(),
{
    let ks = s.map_values(|p: (Bytes32, CoinRecord)| p.0@);
    assert forall|i: int, j: int| 0 <= i < j < ks.len() implies ks[i] != ks[j] by {
        lemma_sorted_distinct(s, i, j);
    }
    assert(ks.no_duplicates());
    assert(coins_map(s).dom() =~= ks.to_set()) by {
        assert forall|k: Seq<u8>| #[trigger] coins_map(s).dom().contains(k) <==> ks.to_set().contains(k) by {
            if coins_map(s).dom().contains(k) {
                let i = choose|i: int| 0 <= i < s.len() && #[trigger] s[i].0@ == k;
                assert(ks[i] == k);
            }
            if ks.to_set().contains(k) {
                let i = choose|i: int| 0 <= i < ks.len() && ks[i] == k;
                assert(s[i].0@ == k);
            }
        }
    }
    ks.unique_seq_to_set();
}

/// An empty coin list holds the empty map.
pub proof fn lemma_coins_map_empty(s: Seq<(Bytes32, CoinRecord)>)
    requires
        s.len() == 0,
    ensures
        coins_map(s) == Map::<Seq<u8>, CoinRecord>::empty(),
        coin_list_wf(s),
{
    assert(coins_map(s) =~= Map::<Seq<u8>, CoinRecord>::empty());
}

/// Writes `rec` under its coin id: replaces an entry with that id or inserts a new one.
pub fn upsert_coin(coins: &mut Vec<(Bytes32, CoinRecord)>, id: Bytes32, rec: CoinRecord)
    requires
        coin_list_wf(old(coins)@),
        id@ == coin_id_of(rec.coin),
    ensures
        coin_list_wf(final(coins)@),
        coins_map(final(coins)@) == coins_map(old(coins)@).insert(id@, rec),
{
    match find_coin(coins, &id) {
        Some(i) => {
            update_coin_at(coins, i, rec);
        },
        None => {
            insert_coin_sorted(coins, id, rec);
        },
    }
}

/// A copy of a coin list.
pub fn copy_coins(v: &Vec<(Bytes32, CoinRecord)>) -> (r: Vec<(Bytes32, CoinRecord)>)
    ensures
        r@ == v@,
{
    let mut r: Vec<(Bytes32, CoinRecord)> = Vec::new();
    let mut i: usize = 0;
    while i < v.len()
        invariant
            i <= v@.len(),
            r@ =~= v@.take(i as int),
        decreases v.len() - i,
    {
        r.push(v[i]);
        i = i + 1;
    }
    assert(v@.take(v@.len() as int) =~= v@);
    r
}

} // verus!
