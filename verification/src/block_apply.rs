//! Block application: what a block does to the coin set, and the checks it must pass first.
//!
//! A block is checked in this order; the first failing check is the error and nothing changes:
//!
//! | Check | Error |
//! |-------|-------|
//! | genesis has run | `NotInitialized` |
//! | `block.height == height + 1` | `HeightMismatch` |
//! | `block.parent_hash == tip_hash` | `ParentHashMismatch` |
//! | at least two coinbase coins | `InvalidRewardCoinCount` |
//! | each removal (in order) exists and is unspent | `CoinNotFound` / `DoubleSpend` |
//! | each addition carries the id of its own coin | `StorageError` |
//! | each new coin (coinbase first, then additions) is not in the store nor earlier in the block | `CoinAlreadyExists` |
//! | no coin is removed twice | `SpendCountMismatch` |
//! | the new state root equals `expected_state_root`, when given | `StateRootMismatch` |
//!
//! Then the new coins are inserted (confirmed at the block height with the block timestamp;
//! coinbase coins marked coinbase, additions fast-forward eligible when `same_as_parent`), the
//! removals are marked spent at the block height, the non-zero hints are stored, and the block
//! becomes the chain tip.
use crate::bytes::{zero32, Bytes32};
use crate::error::CoinStoreError;
use crate::hints::hint_entry;
use crate::merkle::SparseMerkleTree;
use crate::queries::id_views;
use crate::records::{
    coin_list_wf, coins_map, find_coin, insert_coin_sorted, leaf_map, lemma_coins_map_at,
    lemma_leaf_map_insert, lookup_coin, record_leaf, update_coin_at,
};
use crate::types::{coin_id_of, BlockData, Coin, CoinAddition, CoinRecord};
use vstd::prelude::*;

verus! {

// ─────────────────────────────────────────────────────────────────────────────
// Removals
// ─────────────────────────────────────────────────────────────────────────────

/// The error for removing coin `id` from `m`, if any.
pub open spec fn removal_check(m: Map<Seq<u8>, CoinRecord>, id: Bytes32) -> Option<CoinStoreError> {
    if !m.dom().contains(id@) {
        Some(CoinStoreError::CoinNotFound(id))
    } else if m[id@].spent_height is Some {
        Some(CoinStoreError::DoubleSpend(id))
    } else {
        None
    }
}

/// The error of the first removal of `rem` that fails its check.
pub open spec fn removal_error(m: Map<Seq<u8>, CoinRecord>, rem: Seq<Bytes32>) -> Option<
    CoinStoreError,
>
    decreases rem.len(),
{
    if rem.len() == 0 {
        None
    } else {
        match removal_error(m, rem.drop_last()) {
            Some(e) => Some(e),
            None => removal_check(m, rem.last()),
        }
    }
}

/// No removal check fails exactly when every removed coin exists unspent.
pub proof fn lemma_removal_error_none(m: Map<Seq<u8>, CoinRecord>, rem: Seq<Bytes32>)
    ensures
        removal_error(m, rem) is None <==> forall|i: int|
            0 <= i < rem.len() ==> m.dom().contains(#[trigger] rem[i]@) && m[rem[i]@].spent_height
                is None,
    decreases rem.len(),
{
    if rem.len() > 0 {
        lemma_removal_error_none(m, rem.drop_last());
        if removal_error(m, rem) is None {
            assert forall|i: int| 0 <= i < rem.len() implies m.dom().contains(#[trigger] rem[i]@)
                && m[rem[i]@].spent_height is None by {
                if i < rem.len() - 1 {
                    assert(rem.drop_last()[i] == rem[i]);
                }
            }
        }
        if forall|i: int|
            0 <= i < rem.len() ==> m.dom().contains(#[trigger] rem[i]@) && m[rem[i]@].spent_height
                is None {
            assert forall|i: int| 0 <= i < rem.drop_last().len() implies m.dom().contains(
                #[trigger] rem.drop_last()[i]@,
            ) && m[rem.drop_last()[i]@].spent_height is None by {
                assert(rem.drop_last()[i] == rem[i]);
            }
            assert(rem.last() == rem[rem.len() - 1]);
        }
    }
}

/// The first failing removal check of `rem`.
pub fn check_removals(coins: &Vec<(Bytes32, CoinRecord)>, rem: &[Bytes32]) -> (r: Option<
    CoinStoreError,
>)
    requires
        coin_list_wf(coins@),
    ensures
        r == removal_error(coins_map(coins@), rem@),
{
    let ghost m = coins_map(coins@);
    let mut i: usize = 0;
    while i < rem.len()
        invariant
            coin_list_wf(coins@),
            m == coins_map(coins@),
            i <= rem@.len(),
            removal_error(m, rem@.take(i as int)) is None,
        decreases rem.len() - i,
    {
        proof {
            assert(rem@.take(i + 1).drop_last() =~= rem@.take(i as int));
            assert(rem@.take(i + 1).last() == rem@[i as int]);
        }
        let id = rem[i];
        match lookup_coin(coins, &id) {
            None => {
                proof {
                    lemma_removal_error_prefix(m, rem@, i as int + 1);
                }
                return Some(CoinStoreError::CoinNotFound(id));
            },
            Some(rec) => {
                if rec.spent_height.is_some() {
                    proof {
                        lemma_removal_error_prefix(m, rem@, i as int + 1);
                    }
                    return Some(CoinStoreError::DoubleSpend(id));
                }
            },
        }
        i = i + 1;
    }
    proof {
        assert(rem@.take(rem@.len() as int) =~= rem@);
    }
    None
}

/// Once a prefix has an error, the whole sequence has the same error.
pub proof fn lemma_removal_error_prefix(m: Map<Seq<u8>, CoinRecord>, rem: Seq<Bytes32>, n: int)
    requires
        0 <= n <= rem.len(),
        removal_error(m, rem.take(n)) is Some,
    ensures
        removal_error(m, rem) == removal_error(m, rem.take(n)),
    decreases rem.len() - n,
{
    if n < rem.len() {
        lemma_removal_error_prefix_step(m, rem, n);
        lemma_removal_error_prefix(m, rem, n + 1);
    } else {
        assert(rem.take(n) =~= rem);
    }
}

proof fn lemma_removal_error_prefix_step(m: Map<Seq<u8>, CoinRecord>, rem: Seq<Bytes32>, n: int)
    requires
        0 <= n < rem.len(),
        removal_error(m, rem.take(n)) is Some,
    ensures
        removal_error(m, rem.take(n + 1)) == removal_error(m, rem.take(n)),
{
    assert(rem.take(n + 1).drop_last() =~= rem.take(n));
}

/// No coin id is removed twice.
pub open spec fn removals_distinct(rem: Seq<Bytes32>) -> bool {
    forall|i: int, j: int| 0 <= i < j < rem.len() ==> #[trigger] rem[i]@ != #[trigger] rem[j]@
}

/// Whether no coin id occurs twice in `rem`, and the number of distinct ids.
pub fn distinct_removals(rem: &[Bytes32]) -> (r: (bool, usize))
    ensures
        r.0 == removals_distinct(rem@),
        r.1 == id_views(rem@).to_set().len(),
{
    let mut distinct = true;
    let mut n: usize = 0;
    let mut i: usize = 0;
    assert(id_views(rem@.take(0)).to_set() =~= Set::<Seq<u8>>::empty());
    while i < rem.len()
        invariant
            i <= rem@.len(),
            distinct == removals_distinct(rem@.take(i as int)),
            n == id_views(rem@.take(i as int)).to_set().len(),
            n <= i,
            id_views(rem@.take(i as int)).to_set().finite(),
        decreases rem.len() - i,
    {
        let mut seen = false;
        let mut j: usize = 0;
        while j < i
            invariant
                i < rem@.len(),
                j <= i,
                seen == exists|a: int| 0 <= a < j && #[trigger] rem@[a]@ == rem@[i as int]@,
            decreases i - j,
        {
            if rem[j].equals(&rem[i]) {
                seen = true;
            }
            j = j + 1;
        }
        proof {
            let prev = id_views(rem@.take(i as int));
            let next = id_views(rem@.take(i + 1));
            assert(next =~= prev.push(rem@[i as int]@));
            assert forall|x: Seq<u8>| #[trigger] next.to_set().contains(x) <==> prev.to_set().insert(
                rem@[i as int]@,
            ).contains(x) by {
                if next.to_set().contains(x) {
                    let a = choose|a: int| 0 <= a < next.len() && next[a] == x;
                    if a < i {
                        assert(prev[a] == x);
                    }
                }
                if prev.to_set().contains(x) {
                    let a = choose|a: int| 0 <= a < prev.len() && prev[a] == x;
                    assert(next[a] == x);
                }
                if x == rem@[i as int]@ {
                    assert(next[i as int] == x);
                }
            }
            assert(next.to_set() =~= prev.to_set().insert(rem@[i as int]@));
            assert(prev.to_set().contains(rem@[i as int]@) == seen) by {
                if seen {
                    let a = choose|a: int| 0 <= a < i && #[trigger] rem@[a]@ == rem@[i as int]@;
                    assert(prev[a] == rem@[i as int]@);
                }
                if prev.to_set().contains(rem@[i as int]@) {
                    let a = choose|a: int| 0 <= a < prev.len() && prev[a] == rem@[i as int]@;
                    assert(rem@[a]@ == rem@[i as int]@);
                }
            }
            if distinct && !seen {
                assert forall|a: int, b: int| 0 <= a < b < rem@.take(i + 1).len() implies #[trigger] rem@.take(
                    i + 1,
                )[a]@ != #[trigger] rem@.take(i + 1)[b]@ by {
                    if b < i {
                        assert(rem@.take(i as int)[a] == rem@.take(i + 1)[a]);
                        assert(rem@.take(i as int)[b] == rem@.take(i + 1)[b]);
                    }
                }
            }
            if seen {
                let a = choose|a: int| 0 <= a < i && #[trigger] rem@[a]@ == rem@[i as int]@;
                assert(rem@.take(i + 1)[a]@ == rem@.take(i + 1)[i as int]@);
            }
            if !distinct {
                let (a, b) = choose|a: int, b: int|
                    0 <= a < b < rem@.take(i as int).len() && #[trigger] rem@.take(i as int)[a]@
                        == #[trigger] rem@.take(i as int)[b]@;
                assert(rem@.take(i + 1)[a]@ == rem@.take(i + 1)[b]@);
            }
        }
        if seen {
            distinct = false;
        } else {
            n = n + 1;
        }
        i = i + 1;
    }
    proof {
        assert(rem@.take(rem@.len() as int) =~= rem@);
    }
    (distinct, n)
}

// ─────────────────────────────────────────────────────────────────────────────
// New coins
// ─────────────────────────────────────────────────────────────────────────────

/// The record of a coinbase coin of a block at `height`.
pub open spec fn coinbase_record(c: Coin, height: u64, timestamp: u64) -> CoinRecord {
    CoinRecord {
        coin: c,
        confirmed_height: height,
        spent_height: None,
        coinbase: true,
        timestamp,
        ff_eligible: false,
    }
}

/// The record of an addition of a block at `height`.
pub open spec fn addition_record(a: CoinAddition, height: u64, timestamp: u64) -> CoinRecord {
    CoinRecord {
        coin: a.coin,
        confirmed_height: height,
        spent_height: None,
        coinbase: false,
        timestamp,
        ff_eligible: a.same_as_parent,
    }
}

/// The coins a block creates, with their ids: coinbase coins first, then additions.
pub open spec fn new_records(b: BlockData) -> Seq<(Seq<u8>, CoinRecord)> {
    b.coinbase_coins@.map_values(
        |c: Coin| (coin_id_of(c), coinbase_record(c, b.height, b.timestamp)),
    ) + b.additions@.map_values(
        |a: CoinAddition| (coin_id_of(a.coin), addition_record(a, b.height, b.timestamp)),
    )
}

/// Every addition of `b` carries the id of its own coin.
pub open spec fn addition_ids_ok(b: BlockData) -> bool {
    forall|i: int|
        0 <= i < b.additions@.len() ==> (#[trigger] b.additions@[i]).coin_id@ == coin_id_of(
            b.additions@[i].coin,
        )
}

/// Whether every addition carries the id of its own coin ([`addition_ids_ok`]).
pub fn check_addition_ids(additions: &[CoinAddition]) -> (r: bool)
    ensures
        r == (forall|i: int|
            0 <= i < additions@.len() ==> (#[trigger] additions@[i]).coin_id@ == coin_id_of(
                additions@[i].coin,
            )),
{
    let mut i: usize = 0;
    while i < additions.len()
        invariant
            i <= additions@.len(),
            forall|j: int|
                0 <= j < i ==> (#[trigger] additions@[j]).coin_id@ == coin_id_of(additions@[j].coin),
        decreases additions.len() - i,
    {
        let a = &additions[i];
        let id = a.coin.coin_id();
        if !a.coin_id.equals(&id) {
            return false;
        }
        i = i + 1;
    }
    true
}

/// The `k`-th new coin is neither in `m` nor among the earlier new coins.
pub open spec fn fresh_at(m: Map<Seq<u8>, CoinRecord>, n: Seq<(Seq<u8>, CoinRecord)>, k: int) -> bool {
    &&& !m.dom().contains(n[k].0)
    &&& forall|j: int| 0 <= j < k ==> #[trigger] n[j].0 != n[k].0
}

/// Every new coin is fresh.
pub open spec fn all_fresh(m: Map<Seq<u8>, CoinRecord>, n: Seq<(Seq<u8>, CoinRecord)>) -> bool {
    forall|k: int| 0 <= k < n.len() ==> #[trigger] fresh_at(m, n, k)
}

/// Views of a list of new records.
pub open spec fn new_views(v: Seq<(Bytes32, CoinRecord)>) -> Seq<(Seq<u8>, CoinRecord)> {
    v.map_values(|p: (Bytes32, CoinRecord)| (p.0@, p.1))
}

/// Whether `id` is among the first `n` ids of `v`.
fn new_id_taken(v: &Vec<(Bytes32, CoinRecord)>, id: &Bytes32) -> (r: bool)
    ensures
        r == exists|j: int| 0 <= j < v@.len() && #[trigger] v@[j].0@ == id@,
{
    let mut j: usize = 0;
    while j < v.len()
        invariant
            j <= v@.len(),
            forall|a: int| 0 <= a < j ==> #[trigger] v@[a].0@ != id@,
        decreases v.len() - j,
    {
        if v[j].0.equals(id) {
            return true;
        }
        j = j + 1;
    }
    false
}

/// The records a block creates, with their ids; or the first id that is not fresh.
pub fn collect_new_records(coins: &Vec<(Bytes32, CoinRecord)>, block: &BlockData) -> (r: Result<
    Vec<(Bytes32, CoinRecord)>,
    Bytes32,
>)
    requires
        coin_list_wf(coins@),
        block.coinbase_coins@.len() + block.additions@.len() <= usize::MAX,
    ensures
        r matches Ok(v) ==> new_views(v@) == new_records(*block) && all_fresh(
            coins_map(coins@),
            new_records(*block),
        ) && (forall|k: int| 0 <= k < v@.len() ==> #[trigger] v@[k].0@ == coin_id_of(v@[k].1.coin)),
        r matches Err(id) ==> exists|i: int|
            0 <= i < new_records(*block).len() && !fresh_at(coins_map(coins@), new_records(*block), i)
                && (forall|k: int|
                0 <= k < i ==> #[trigger] fresh_at(coins_map(coins@), new_records(*block), k))
                && id@ == new_records(*block)[i].0,
{
    let ghost m = coins_map(coins@);
    let ghost n = new_records(*block);
    let ghost ncb = block.coinbase_coins@.len();
    let mut out: Vec<(Bytes32, CoinRecord)> = Vec::new();
    let total = block.coinbase_coins.len() + block.additions.len();
    let mut i: usize = 0;
    while i < total
        invariant
            coin_list_wf(coins@),
            m == coins_map(coins@),
            n == new_records(*block),
            ncb == block.coinbase_coins@.len(),
            total == n.len(),
            i <= total,
            new_views(out@) == n.take(i as int),
            out@.len() == i,
            forall|k: int| 0 <= k < i ==> #[trigger] fresh_at(m, n, k),
            forall|k: int| 0 <= k < out@.len() ==> #[trigger] out@[k].0@ == coin_id_of(out@[k].1.coin),
        decreases total - i,
    {
        let rec = if i < block.coinbase_coins.len() {
            let c = block.coinbase_coins[i];
            CoinRecord {
                coin: c,
                confirmed_height: block.height,
                spent_height: None,
                coinbase: true,
                timestamp: block.timestamp,
                ff_eligible: false,
            }
        } else {
            let a = block.additions[i - block.coinbase_coins.len()];
            CoinRecord {
                coin: a.coin,
                confirmed_height: block.height,
                spent_height: None,
                coinbase: false,
                timestamp: block.timestamp,
                ff_eligible: a.same_as_parent,
            }
        };
        let id = rec.coin.coin_id();
        proof {
            assert(n[i as int] == (id@, rec));
        }
        let exists_already = lookup_coin(coins, &id).is_some();
        let taken = new_id_taken(&out, &id);
        proof {
            assert forall|j: int| 0 <= j < i implies (#[trigger] n[j]).0 == out@[j].0@ by {
                assert(new_views(out@)[j] == n.take(i as int)[j]);
                assert(new_views(out@)[j] == (out@[j].0@, out@[j].1));
            }
        }
        if exists_already || taken {
            proof {
                if taken {
                    let j = choose|j: int| 0 <= j < out@.len() && #[trigger] out@[j].0@ == id@;
                    assert(n[j].0 == n[i as int].0);
                }
                assert(!fresh_at(m, n, i as int));
                assert(0 <= i < n.len() && !fresh_at(m, n, i as int) && (forall|k: int|
                    0 <= k < i ==> #[trigger] fresh_at(m, n, k)) && id@ == n[i as int].0);
            }
            return Err(id);
        }
        let ghost before = out@;
        out.push((id, rec));
        proof {
            assert(new_views(out@) =~= n.take(i + 1));
            assert forall|j: int| 0 <= j < i implies #[trigger] n[j].0 != n[i as int].0 by {
                assert(out@[j].0@ == n[j].0);
            }
            assert(fresh_at(m, n, i as int));
        }
        i = i + 1;
    }
    proof {
        assert(n.take(total as int) =~= n);
    }
    Ok(out)
}

// ─────────────────────────────────────────────────────────────────────────────
// The effect of a block
// ─────────────────────────────────────────────────────────────────────────────

/// `m` with each new record inserted in order.
pub open spec fn insert_all(m: Map<Seq<u8>, CoinRecord>, n: Seq<(Seq<u8>, CoinRecord)>) -> Map<
    Seq<u8>,
    CoinRecord,
>
    decreases n.len(),
{
    if n.len() == 0 {
        m
    } else {
        insert_all(m, n.drop_last()).insert(n.last().0, n.last().1)
    }
}

/// `m` with each removed coin marked spent at `height`.
pub open spec fn spend_all(m: Map<Seq<u8>, CoinRecord>, rem: Seq<Bytes32>, height: u64) -> Map<
    Seq<u8>,
    CoinRecord,
>
    decreases rem.len(),
{
    if rem.len() == 0 {
        m
    } else {
        let p = spend_all(m, rem.drop_last(), height);
        p.insert(rem.last()@, CoinRecord { spent_height: Some(height), ..p[rem.last()@] })
    }
}

/// The coin map after applying block `b` to `m`.
pub open spec fn applied_map(m: Map<Seq<u8>, CoinRecord>, b: BlockData) -> Map<Seq<u8>, CoinRecord> {
    spend_all(insert_all(m, new_records(b)), b.removals@, b.height)
}

/// The hint entries a block adds: its non-zero hints.
pub open spec fn block_hint_entries(b: BlockData) -> Set<Seq<u8>> {
    Set::new(
        |e: Seq<u8>|
            exists|i: int|
                0 <= i < b.hints@.len() && #[trigger] b.hints@[i].1@ != zero32() && e == hint_entry(
                    b.hints@[i].0@,
                    b.hints@[i].1@,
                ),
    )
}

/// The ids of the coins a block creates.
pub open spec fn new_ids(b: BlockData) -> Set<Seq<u8>> {
    new_records(b).map_values(|p: (Seq<u8>, CoinRecord)| p.0).to_set()
}

/// Inserting fresh records keeps the domain of the earlier map.
proof fn lemma_insert_all_keeps(m: Map<Seq<u8>, CoinRecord>, n: Seq<(Seq<u8>, CoinRecord)>, k: Seq<u8>)
    requires
        m.dom().contains(k),
        forall|i: int| 0 <= i < n.len() ==> (#[trigger] n[i]).0 != k,
    ensures
        insert_all(m, n).dom().contains(k),
        insert_all(m, n)[k] == m[k],
    decreases n.len(),
{
    if n.len() > 0 {
        assert forall|i: int| 0 <= i < n.drop_last().len() implies (#[trigger] n.drop_last()[i]).0 != k by {
            assert(n.drop_last()[i] == n[i]);
        }
        lemma_insert_all_keeps(m, n.drop_last(), k);
        assert(n.last() == n[n.len() - 1]);
    }
}

/// Writes the new records and the spends of a checked block into a coin list and its Merkle
/// tree.
pub fn apply_changes(
    coins: &mut Vec<(Bytes32, CoinRecord)>,
    tree: &mut SparseMerkleTree,
    news: &Vec<(Bytes32, CoinRecord)>,
    rem: &[Bytes32],
    height: u64,
)
    requires
        coin_list_wf(old(coins)@),
        old(tree).wf(),
        old(tree)@ == leaf_map(coins_map(old(coins)@)),
        all_fresh(coins_map(old(coins)@), new_views(news@)),
        forall|k: int| 0 <= k < news@.len() ==> #[trigger] news@[k].0@ == coin_id_of(news@[k].1.coin),
        forall|i: int|
            0 <= i < rem@.len() ==> coins_map(old(coins)@).dom().contains(#[trigger] rem@[i]@),
    ensures
        coin_list_wf(final(coins)@),
        final(tree).wf(),
        final(tree)@ == leaf_map(coins_map(final(coins)@)),
        coins_map(final(coins)@) == spend_all(
            insert_all(coins_map(old(coins)@), new_views(news@)),
            rem@,
            height,
        ),
{
    let ghost m0 = coins_map(coins@);
    let ghost nv = new_views(news@);
    let mut i: usize = 0;
    while i < news.len()
        invariant
            i <= news@.len(),
            m0 == coins_map(old(coins)@),
            nv == new_views(news@),
            all_fresh(m0, nv),
            forall|k: int| 0 <= k < news@.len() ==> #[trigger] news@[k].0@ == coin_id_of(news@[k].1.coin),
            coin_list_wf(coins@),
            tree.wf(),
            tree@ == leaf_map(coins_map(coins@)),
            coins_map(coins@) == insert_all(m0, nv.take(i as int)),
            forall|k: Seq<u8>| #[trigger] coins_map(coins@).dom().contains(k) ==> m0.dom().contains(k)
                || exists|j: int| 0 <= j < i && nv[j].0 == k,
        decreases news.len() - i,
    {
        let (id, rec) = news[i];
        proof {
            assert(nv[i as int] == (id@, rec));
            assert(fresh_at(m0, nv, i as int));
            assert(nv.take(i + 1).drop_last() =~= nv.take(i as int));
            assert(nv.take(i + 1).last() == nv[i as int]);
            if coins_map(coins@).dom().contains(id@) {
                if !m0.dom().contains(id@) {
                    let j = choose|j: int| 0 <= j < i && nv[j].0 == id@;
                }
            }
        }
        let leaf = record_leaf(&rec);
        let ghost before = coins_map(coins@);
        insert_coin_sorted(coins, id, rec);
        tree.put_leaf(id, leaf);
        proof {
            lemma_leaf_map_insert(before, id@, rec);
            assert forall|k: Seq<u8>| #[trigger] coins_map(coins@).dom().contains(k) implies m0.dom().contains(k)
                || exists|j: int| 0 <= j < i + 1 && nv[j].0 == k by {
                if k != id@ {
                    assert(before.dom().contains(k));
                } else {
                    assert(nv[i as int].0 == k);
                }
            }
        }
        i = i + 1;
    }
    proof {
        assert(nv.take(news@.len() as int) =~= nv);
    }
    let ghost m1 = coins_map(coins@);
    proof {
        assert forall|k: Seq<u8>| m0.dom().contains(k) implies #[trigger] m1.dom().contains(k) by {
            assert forall|j: int| 0 <= j < nv.len() implies (#[trigger] nv[j]).0 != k by {
                assert(fresh_at(m0, nv, j));
            }
            lemma_insert_all_keeps(m0, nv, k);
        }
    }
    let mut r: usize = 0;
    while r < rem.len()
        invariant
            r <= rem@.len(),
            m0 == coins_map(old(coins)@),
            m1 == insert_all(m0, nv),
            forall|i: int| 0 <= i < rem@.len() ==> m0.dom().contains(#[trigger] rem@[i]@),
            coin_list_wf(coins@),
            tree.wf(),
            tree@ == leaf_map(coins_map(coins@)),
            coins_map(coins@) == spend_all(m1, rem@.take(r as int), height),
            coins_map(coins@).dom() == m1.dom(),
            m0.dom().subset_of(m1.dom()),
        decreases rem.len() - r,
    {
        let id = rem[r];
        proof {
            assert(rem@.take(r + 1).drop_last() =~= rem@.take(r as int));
            assert(rem@.take(r + 1).last() == rem@[r as int]);
            assert(m0.dom().contains(id@));
        }
        match find_coin(coins, &id) {
            Some(p) => {
                let mut rec = coins[p].1;
                rec.spent_height = Some(height);
                let leaf = record_leaf(&rec);
                let ghost before = coins_map(coins@);
                proof {
                    lemma_coins_map_at(coins@, p as int);
                    assert(coins@[p as int].0@ == coin_id_of(coins@[p as int].1.coin));
                }
                update_coin_at(coins, p, rec);
                tree.put_leaf(id, leaf);
                proof {
                    lemma_leaf_map_insert(before, id@, rec);
                    assert(coins_map(coins@).dom() =~= m1.dom());
                }
            },
            None => {
                proof {
                    assert(false);
                }
            },
        }
        r = r + 1;
    }
    proof {
        assert(rem@.take(rem@.len() as int) =~= rem@);
    }
}

// ─────────────────────────────────────────────────────────────────────────────
// Laws
// ─────────────────────────────────────────────────────────────────────────────

/// What a checked block stores for the coins it creates: each coinbase coin under its id,
/// unspent, confirmed at the block height with the block timestamp, marked coinbase and not
/// fast-forward eligible; each addition under its coin's id, unspent, confirmed at the block
/// height with the block timestamp, not coinbase, fast-forward eligible exactly when it is
/// `same_as_parent`. No other new coin is marked coinbase.
pub proof fn lemma_block_creates(m: Map<Seq<u8>, CoinRecord>, b: BlockData)
    requires
        all_fresh(m, new_records(b)),
        removal_error(m, b.removals@) is None,
        removals_distinct(b.removals@),
    ensures
        forall|i: int|
            0 <= i < b.coinbase_coins@.len() ==> {
                let k = coin_id_of(#[trigger] b.coinbase_coins@[i]);
                &&& applied_map(m, b).dom().contains(k)
                &&& applied_map(m, b)[k].coin == b.coinbase_coins@[i]
                &&& applied_map(m, b)[k].coinbase
                &&& !applied_map(m, b)[k].ff_eligible
                &&& applied_map(m, b)[k].spent_height is None
                &&& applied_map(m, b)[k].confirmed_height == b.height
                &&& applied_map(m, b)[k].timestamp == b.timestamp
            },
        forall|i: int|
            0 <= i < b.additions@.len() ==> {
                let k = coin_id_of((#[trigger] b.additions@[i]).coin);
                &&& applied_map(m, b).dom().contains(k)
                &&& applied_map(m, b)[k].coin == b.additions@[i].coin
                &&& !applied_map(m, b)[k].coinbase
                &&& applied_map(m, b)[k].ff_eligible == b.additions@[i].same_as_parent
                &&& applied_map(m, b)[k].spent_height is None
                &&& applied_map(m, b)[k].confirmed_height == b.height
                &&& applied_map(m, b)[k].timestamp == b.timestamp
            },
        forall|k: Seq<u8>|
            #[trigger] applied_map(m, b).dom().contains(k) && !m.dom().contains(k) && applied_map(
                m,
                b,
            )[k].coinbase ==> exists|i: int|
                0 <= i < b.coinbase_coins@.len() && coin_id_of(#[trigger] b.coinbase_coins@[i]) == k,
{
    lemma_apply_effects(m, b);
    let n = new_records(b);
    let cb = b.coinbase_coins@.len();
    assert forall|i: int| 0 <= i < cb implies {
        let k = coin_id_of(#[trigger] b.coinbase_coins@[i]);
        &&& applied_map(m, b).dom().contains(k)
        &&& applied_map(m, b)[k].coin == b.coinbase_coins@[i]
        &&& applied_map(m, b)[k].coinbase
        &&& !applied_map(m, b)[k].ff_eligible
        &&& applied_map(m, b)[k].spent_height is None
        &&& applied_map(m, b)[k].confirmed_height == b.height
        &&& applied_map(m, b)[k].timestamp == b.timestamp
    } by {
        assert(n[i].0 == coin_id_of(b.coinbase_coins@[i]));
        assert(n[i].1 == coinbase_record(b.coinbase_coins@[i], b.height, b.timestamp));
    }
    assert forall|i: int| 0 <= i < b.additions@.len() implies {
        let k = coin_id_of((#[trigger] b.additions@[i]).coin);
        &&& applied_map(m, b).dom().contains(k)
        &&& applied_map(m, b)[k].coin == b.additions@[i].coin
        &&& !applied_map(m, b)[k].coinbase
        &&& applied_map(m, b)[k].ff_eligible == b.additions@[i].same_as_parent
        &&& applied_map(m, b)[k].spent_height is None
        &&& applied_map(m, b)[k].confirmed_height == b.height
        &&& applied_map(m, b)[k].timestamp == b.timestamp
    } by {
        assert(n[cb + i].0 == coin_id_of(b.additions@[i].coin));
        assert(n[cb + i].1 == addition_record(b.additions@[i], b.height, b.timestamp));
    }
    assert forall|k: Seq<u8>|
        #[trigger] applied_map(m, b).dom().contains(k) && !m.dom().contains(k) && applied_map(
            m,
            b,
        )[k].coinbase implies exists|i: int|
        0 <= i < b.coinbase_coins@.len() && coin_id_of(#[trigger] b.coinbase_coins@[i]) == k by {
        assert(new_ids(b).contains(k));
        let ks = n.map_values(|p: (Seq<u8>, CoinRecord)| p.0);
        let idx = choose|idx: int| 0 <= idx < ks.len() && ks[idx] == k;
        assert(n[idx].0 == k);
        if idx >= cb {
            let a = idx - cb;
            assert(n[idx] == (coin_id_of(b.additions@[a].coin), addition_record(b.additions@[a], b.height, b.timestamp)));
            assert(!applied_map(m, b)[k].coinbase);
        } else {
            assert(n[idx].0 == coin_id_of(b.coinbase_coins@[idx]));
        }
    }
}

/// What applying a checked block does to the coin map: every new coin is present with its new
/// record, every removed coin is marked spent at the block height (its other fields kept), and
/// every other coin is unchanged.
pub proof fn lemma_apply_effects(m: Map<Seq<u8>, CoinRecord>, b: BlockData)
    requires
        all_fresh(m, new_records(b)),
        removal_error(m, b.removals@) is None,
        removals_distinct(b.removals@),
    ensures
        forall|k: int|
            0 <= k < new_records(b).len() ==> applied_map(m, b).dom().contains(
                (#[trigger] new_records(b)[k]).0,
            ) && applied_map(m, b)[new_records(b)[k].0] == new_records(b)[k].1,
        forall|i: int|
            0 <= i < b.removals@.len() ==> applied_map(m, b).dom().contains(
                (#[trigger] b.removals@[i])@,
            ) && applied_map(m, b)[b.removals@[i]@] == (CoinRecord {
                spent_height: Some(b.height),
                ..m[b.removals@[i]@]
            }),
        forall|k: Seq<u8>|
            #[trigger] m.dom().contains(k) && !id_views(b.removals@).contains(k) ==> applied_map(
                m,
                b,
            ).dom().contains(k) && applied_map(m, b)[k] == m[k],
        applied_map(m, b).dom() == m.dom().union(new_ids(b)),
{
    let n = new_records(b);
    let rem = b.removals@;
    lemma_removal_error_none(m, rem);
    lemma_insert_all_fresh(m, n);
    let m1 = insert_all(m, n);
    assert forall|i: int| 0 <= i < rem.len() implies m1.dom().contains(#[trigger] rem[i]@) && m1[rem[i]@]
        == m[rem[i]@] by {
        assert(m.dom().contains(rem[i]@));
        assert forall|j: int| 0 <= j < n.len() implies (#[trigger] n[j]).0 != rem[i]@ by {
            assert(fresh_at(m, n, j));
        }
        lemma_insert_all_keeps(m, n, rem[i]@);
    }
    lemma_spend_all(m1, rem, b.height);
    assert forall|k: int| 0 <= k < n.len() implies applied_map(m, b).dom().contains((#[trigger] n[k]).0)
        && applied_map(m, b)[n[k].0] == n[k].1 by {
        assert(fresh_at(m, n, k));
        if id_views(rem).contains(n[k].0) {
            let i = choose|i: int| 0 <= i < id_views(rem).len() && id_views(rem)[i] == n[k].0;
            assert(m.dom().contains(rem[i]@));
        }
    }
    assert forall|i: int| 0 <= i < rem.len() implies applied_map(m, b).dom().contains(
        (#[trigger] rem[i])@,
    ) && applied_map(m, b)[rem[i]@] == CoinRecord { spent_height: Some(b.height), ..m[rem[i]@] } by {
        assert(m1[rem[i]@] == m[rem[i]@]);
    }
    assert forall|k: Seq<u8>| #[trigger] m.dom().contains(k) && !id_views(rem).contains(k) implies applied_map(
        m,
        b,
    ).dom().contains(k) && applied_map(m, b)[k] == m[k] by {
        assert forall|j: int| 0 <= j < n.len() implies (#[trigger] n[j]).0 != k by {
            assert(fresh_at(m, n, j));
        }
        lemma_insert_all_keeps(m, n, k);
    }
}

/// Inserting fresh records: each is present with its record, and the domain grows by their ids.
proof fn lemma_insert_all_fresh(m: Map<Seq<u8>, CoinRecord>, n: Seq<(Seq<u8>, CoinRecord)>)
    requires
        all_fresh(m, n),
    ensures
        forall|k: int|
            0 <= k < n.len() ==> insert_all(m, n).dom().contains((#[trigger] n[k]).0) && insert_all(
                m,
                n,
            )[n[k].0] == n[k].1,
        insert_all(m, n).dom() == m.dom().union(key_set(n)),
    decreases n.len(),
{
    if n.len() > 0 {
        let p = n.drop_last();
        assert forall|k: int| 0 <= k < p.len() implies #[trigger] fresh_at(m, p, k) by {
            assert(fresh_at(m, n, k));
            assert(p[k] == n[k]);
            assert forall|j: int| 0 <= j < k implies #[trigger] p[j].0 != p[k].0 by {
                assert(p[j] == n[j]);
            }
        }
        lemma_insert_all_fresh(m, p);
        assert(fresh_at(m, n, n.len() - 1));
        assert forall|k: int| 0 <= k < n.len() implies insert_all(m, n).dom().contains(
            (#[trigger] n[k]).0,
        ) && insert_all(m, n)[n[k].0] == n[k].1 by {
            if k < n.len() - 1 {
                assert(p[k] == n[k]);
            }
        }
        let ks = n.map_values(|q: (Seq<u8>, CoinRecord)| q.0);
        let pks = p.map_values(|q: (Seq<u8>, CoinRecord)| q.0);
        assert(ks =~= pks.push(n.last().0));
        assert(insert_all(m, n).dom() =~= m.dom().union(ks.to_set())) by {
            assert forall|x: Seq<u8>| #[trigger] ks.to_set().contains(x) <==> pks.to_set().contains(x)
                || x == n.last().0 by {
                if ks.to_set().contains(x) {
                    let j = choose|j: int| 0 <= j < ks.len() && ks[j] == x;
                    if j < ks.len() - 1 {
                        assert(pks[j] == x);
                    }
                }
                if pks.to_set().contains(x) {
                    let j = choose|j: int| 0 <= j < pks.len() && pks[j] == x;
                    assert(ks[j] == x);
                }
                if x == n.last().0 {
                    assert(ks[ks.len() - 1] == x);
                }
            }
        }
    } else {
        assert(n.map_values(|p: (Seq<u8>, CoinRecord)| p.0).to_set() =~= Set::empty());
        assert(insert_all(m, n).dom() =~= m.dom().union(Set::empty()));
    }
}

/// The ids of a list of new records.
pub open spec fn key_set(n: Seq<(Seq<u8>, CoinRecord)>) -> Set<Seq<u8>> {
    n.map_values(|p: (Seq<u8>, CoinRecord)| p.0).to_set()
}

/// Spending distinct present coins marks exactly those coins spent.
proof fn lemma_spend_all(m: Map<Seq<u8>, CoinRecord>, rem: Seq<Bytes32>, h: u64)
    requires
        removals_distinct(rem),
        forall|i: int| 0 <= i < rem.len() ==> m.dom().contains(#[trigger] rem[i]@),
    ensures
        spend_all(m, rem, h).dom() == m.dom(),
        forall|i: int|
            0 <= i < rem.len() ==> spend_all(m, rem, h)[(#[trigger] rem[i])@] == (CoinRecord {
                spent_height: Some(h),
                ..m[rem[i]@]
            }),
        forall|k: Seq<u8>|
            #[trigger] m.dom().contains(k) && !id_views(rem).contains(k) ==> spend_all(m, rem, h)[k]
                == m[k],
    decreases rem.len(),
{
    if rem.len() > 0 {
        let p = rem.drop_last();
        assert forall|i: int, j: int| 0 <= i < j < p.len() implies #[trigger] p[i]@ != #[trigger] p[j]@ by {
            assert(p[i] == rem[i]);
            assert(p[j] == rem[j]);
        }
        assert forall|i: int| 0 <= i < p.len() implies m.dom().contains(#[trigger] p[i]@) by {
            assert(p[i] == rem[i]);
        }
        lemma_spend_all(m, p, h);
        let last = rem.last();
        assert(last == rem[rem.len() - 1]);
        assert(!id_views(p).contains(last@)) by {
            if id_views(p).contains(last@) {
                let j = choose|j: int| 0 <= j < id_views(p).len() && id_views(p)[j] == last@;
                assert(p[j] == rem[j]);
                assert(rem[j]@ != rem[rem.len() - 1]@);
            }
        }
        assert(spend_all(m, rem, h).dom() =~= m.dom());
        assert forall|i: int| 0 <= i < rem.len() implies spend_all(m, rem, h)[(#[trigger] rem[i])@]
            == CoinRecord { spent_height: Some(h), ..m[rem[i]@] } by {
            if i < rem.len() - 1 {
                assert(p[i] == rem[i]);
                assert(rem[i]@ != last@);
            }
        }
        assert forall|k: Seq<u8>| #[trigger] m.dom().contains(k) && !id_views(rem).contains(k) implies spend_all(
            m,
            rem,
            h,
        )[k] == m[k] by {
            assert(id_views(rem)[rem.len() - 1] == last@);
            if id_views(p).contains(k) {
                let j = choose|j: int| 0 <= j < id_views(p).len() && id_views(p)[j] == k;
                assert(id_views(rem)[j] == k);
            }
        }
    }
}

} // verus!
