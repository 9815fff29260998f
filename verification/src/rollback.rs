//! Rollback: the coin set as it was at a target height.
//!
//! Rolling back to height `t` (negative for a full reset):
//! - deletes every coin confirmed above `t`;
//! - marks unspent every remaining coin spent above `t`; such a coin stays fast-forward
//!   eligible only if it was and its parent coin is still in the store;
//! - reports every deleted coin (with its record before deletion) and every un-spent coin (with
//!   its new record), in coin id order.
use crate::bytes::{lemma_lex_lt_transitive, lex_lt, Bytes32};
use crate::merkle::SparseMerkleTree;
use crate::records::{
    coin_list_wf, coins_map, ids_sorted, leaf_map, lemma_coins_map_at, lemma_coins_map_empty,
    lemma_leaf_map_empty, lemma_leaf_map_insert, lemma_sorted_distinct, lookup_coin, record_leaf,
};
use crate::select::{count, lemma_select_step, lemma_take_all, select};
use crate::block_apply::{
    all_fresh, applied_map, fresh_at, lemma_apply_effects, new_ids, new_records, removal_error,
    removals_distinct,
};
use crate::queries::id_views;
use crate::types::{BlockData, CoinRecord};
use vstd::prelude::*;

verus! {

/// A record confirmed at or below `t` survives a rollback to `t`.
pub open spec fn survives(r: CoinRecord, t: int) -> bool {
    r.confirmed_height <= t
}

/// A record spent above `t`.
pub open spec fn spent_above(r: CoinRecord, t: int) -> bool {
    r.spent_height matches Some(s) && s > t
}

/// The record after a rollback to `t` of the coin map `m`: a spend above `t` is undone, and the
/// coin then stays fast-forward eligible only if its parent survives.
pub open spec fn reverted(r: CoinRecord, t: int, m: Map<Seq<u8>, CoinRecord>) -> CoinRecord {
    if spent_above(r, t) {
        CoinRecord {
            spent_height: None,
            ff_eligible: r.ff_eligible && m.dom().contains(r.coin.parent_coin_info@) && survives(
                m[r.coin.parent_coin_info@],
                t,
            ),
            ..r
        }
    } else {
        r
    }
}

/// The coin map after a rollback of `m` to `t`.
pub open spec fn rolled_back_map(m: Map<Seq<u8>, CoinRecord>, t: int) -> Map<Seq<u8>, CoinRecord> {
    Map::new(|k: Seq<u8>| m.dom().contains(k) && survives(m[k], t), |k: Seq<u8>| reverted(m[k], t, m))
}

/// Entries a rollback to `t` changes: deleted or un-spent.
pub open spec fn is_modified(t: int) -> spec_fn((Bytes32, CoinRecord)) -> bool {
    |p: (Bytes32, CoinRecord)| !survives(p.1, t) || spent_above(p.1, t)
}

/// Entries a rollback to `t` deletes.
pub open spec fn is_deleted(t: int) -> spec_fn((Bytes32, CoinRecord)) -> bool {
    |p: (Bytes32, CoinRecord)| !survives(p.1, t)
}

/// Entries a rollback to `t` un-spends.
pub open spec fn is_unspent_again(t: int) -> spec_fn((Bytes32, CoinRecord)) -> bool {
    |p: (Bytes32, CoinRecord)| survives(p.1, t) && spent_above(p.1, t)
}

/// How a rollback reports a changed entry: a deleted record as it was, an un-spent one as it is
/// now.
pub open spec fn report(t: int, m: Map<Seq<u8>, CoinRecord>) -> spec_fn((Bytes32, CoinRecord)) -> (
    Bytes32,
    CoinRecord,
) {
    |p: (Bytes32, CoinRecord)|
        if survives(p.1, t) {
            (p.0, reverted(p.1, t, m))
        } else {
            p
        }
}

/// The coin map after a rollback to `t`: exactly the coins confirmed at or below `t` remain;
/// a coin spent above `t` becomes unspent and stays fast-forward eligible only if it was and its
/// parent remains; every other field of a remaining coin is unchanged.
pub proof fn lemma_rolled_back_map_exact(m: Map<Seq<u8>, CoinRecord>, t: int)
    ensures
        forall|k: Seq<u8>|
            #[trigger] rolled_back_map(m, t).dom().contains(k) <==> m.dom().contains(k)
                && m[k].confirmed_height <= t,
        forall|k: Seq<u8>|
            #[trigger] rolled_back_map(m, t).dom().contains(k) ==> {
                let old = m[k];
                let new = rolled_back_map(m, t)[k];
                let parent = old.coin.parent_coin_info@;
                &&& new.coin == old.coin
                &&& new.confirmed_height == old.confirmed_height
                &&& new.coinbase == old.coinbase
                &&& new.timestamp == old.timestamp
                &&& (if old.spent_height matches Some(h) && h > t {
                    &&& new.spent_height is None
                    &&& new.ff_eligible == (old.ff_eligible && m.dom().contains(parent)
                        && m[parent].confirmed_height <= t)
                } else {
                    &&& new.spent_height == old.spent_height
                    &&& new.ff_eligible == old.ff_eligible
                })
            },
{
}

/// What a rollback reports: each reported coin is one of the store's coins that the rollback
/// deletes or un-spends, and every such coin is reported. A deleted coin (confirmed above `t`)
/// is reported with its record before the rollback; a coin that survives is reported with the
/// record the store holds for it afterwards, which is unspent.
pub proof fn lemma_rollback_report(s: Seq<(Bytes32, CoinRecord)>, t: int)
    requires
        ids_sorted(s),
    ensures
        forall|k: int|
            #![trigger select(s, is_modified(t), report(t, coins_map(s)))[k]]
            0 <= k < select(s, is_modified(t), report(t, coins_map(s))).len() ==> {
                let e = select(s, is_modified(t), report(t, coins_map(s)))[k];
                &&& coins_map(s).dom().contains(e.0@)
                &&& (coins_map(s)[e.0@].confirmed_height > t ==> e.1 == coins_map(s)[e.0@]
                    && !rolled_back_map(coins_map(s), t).dom().contains(e.0@))
                &&& (coins_map(s)[e.0@].confirmed_height <= t ==> {
                    &&& coins_map(s)[e.0@].spent_height matches Some(h) && h > t
                    &&& rolled_back_map(coins_map(s), t).dom().contains(e.0@)
                    &&& e.1 == rolled_back_map(coins_map(s), t)[e.0@]
                    &&& e.1.spent_height is None
                    &&& e.1.coin == coins_map(s)[e.0@].coin
                    &&& e.1.confirmed_height == coins_map(s)[e.0@].confirmed_height
                })
            },
        forall|i: int|
            0 <= i < s.len() && ((#[trigger] s[i]).1.confirmed_height > t || (s[i].1.spent_height matches Some(
                h,
            ) && h > t)) ==> exists|k: int|
                0 <= k < select(s, is_modified(t), report(t, coins_map(s))).len() && select(
                    s,
                    is_modified(t),
                    report(t, coins_map(s)),
                )[k].0 == s[i].0,
{
    let m = coins_map(s);
    let f = report(t, m);
    let pred = is_modified(t);
    let r = select(s, pred, f);
    assert forall|k: int| 0 <= k < r.len() implies {
        let e = #[trigger] r[k];
        &&& m.dom().contains(e.0@)
        &&& (m[e.0@].confirmed_height > t ==> e.1 == m[e.0@] && !rolled_back_map(m, t).dom().contains(
            e.0@,
        ))
        &&& (m[e.0@].confirmed_height <= t ==> {
            &&& m[e.0@].spent_height matches Some(h) && h > t
            &&& rolled_back_map(m, t).dom().contains(e.0@)
            &&& e.1 == rolled_back_map(m, t)[e.0@]
            &&& e.1.spent_height is None
            &&& e.1.coin == m[e.0@].coin
            &&& e.1.confirmed_height == m[e.0@].confirmed_height
        })
    } by {
        crate::select::lemma_select_members(s, pred, f, k);
        let i = choose|i: int| 0 <= i < s.len() && pred(s[i]) && r[k] == f(#[trigger] s[i]);
        lemma_coins_map_at(s, i);
    }
    assert forall|i: int|
        0 <= i < s.len() && ((#[trigger] s[i]).1.confirmed_height > t || (s[i].1.spent_height matches Some(
            h,
        ) && h > t)) implies exists|k: int| 0 <= k < r.len() && r[k].0 == s[i].0 by {
        crate::select::lemma_select_complete(s, pred, f, i);
        let k = choose|k: int| 0 <= k < r.len() && r[k] == f(s[i]);
        assert(r[k].0 == s[i].0);
    }
}

/// The id of an entry.
pub open spec fn id_of() -> spec_fn((Bytes32, CoinRecord)) -> Bytes32 {
    |p: (Bytes32, CoinRecord)| p.0
}

/// The ids present among the first `n` entries of `s`.
pub open spec fn prefix_ids(s: Seq<(Bytes32, CoinRecord)>, n: int) -> Set<Seq<u8>> {
    Set::new(|k: Seq<u8>| exists|a: int| 0 <= a < n && #[trigger] s[a].0@ == k)
}

/// Whether a record survives a rollback to `target`.
fn survives_exec(r: &CoinRecord, target: i64) -> (b: bool)
    ensures
        b == survives(*r, target as int),
{
    target >= 0 && r.confirmed_height <= target as u64
}

/// Whether a record was spent above `target`.
fn spent_above_exec(r: &CoinRecord, target: i64) -> (b: bool)
    ensures
        b == spent_above(*r, target as int),
{
    match r.spent_height {
        Some(s) => target < 0 || s > target as u64,
        None => false,
    }
}

/// The rollback of a coin list to `target`: the surviving entries (in order) with a Merkle tree
/// over them, the report of changed entries, the ids of deleted coins, and the numbers of deleted
/// and un-spent coins.
pub fn rollback_coins(coins: &Vec<(Bytes32, CoinRecord)>, target: i64) -> (r: (
    Vec<(Bytes32, CoinRecord)>,
    SparseMerkleTree,
    Vec<(Bytes32, CoinRecord)>,
    Vec<Bytes32>,
    usize,
    usize,
))
    requires
        coin_list_wf(coins@),
    ensures
        coin_list_wf(r.0@),
        coins_map(r.0@) == rolled_back_map(coins_map(coins@), target as int),
        r.1.wf(),
        r.1@ == leaf_map(coins_map(r.0@)),
        r.2@ == select(coins@, is_modified(target as int), report(target as int, coins_map(coins@))),
        r.3@ == select(coins@, is_deleted(target as int), id_of()),
        r.4 == count(coins@, is_deleted(target as int)),
        r.5 == count(coins@, is_unspent_again(target as int)),
{
    let ghost t = target as int;
    let ghost m = coins_map(coins@);
    let ghost rm = rolled_back_map(m, t);
    let mut kept: Vec<(Bytes32, CoinRecord)> = Vec::new();
    let mut tree = SparseMerkleTree::new();
    let mut modified: Vec<(Bytes32, CoinRecord)> = Vec::new();
    let mut deleted: Vec<Bytes32> = Vec::new();
    let mut n_deleted: usize = 0;
    let mut n_unspent: usize = 0;
    let mut i: usize = 0;
    proof {
        lemma_coins_map_empty(kept@);
        lemma_leaf_map_empty();
        assert(rm.restrict(prefix_ids(coins@, 0)) =~= Map::<Seq<u8>, CoinRecord>::empty());
    }
    while i < coins.len()
        invariant
            coin_list_wf(coins@),
            t == target as int,
            m == coins_map(coins@),
            rm == rolled_back_map(m, t),
            i <= coins@.len(),
            coin_list_wf(kept@),
            kept@.len() > 0 ==> exists|a: int|
                0 <= a < i && #[trigger] coins@[a].0@ == kept@[kept@.len() - 1].0@,
            coins_map(kept@) == rm.restrict(prefix_ids(coins@, i as int)),
            tree.wf(),
            tree@ == leaf_map(coins_map(kept@)),
            modified@ == select(coins@.take(i as int), is_modified(t), report(t, m)),
            deleted@ == select(coins@.take(i as int), is_deleted(t), id_of()),
            n_deleted == count(coins@.take(i as int), is_deleted(t)),
            n_unspent == count(coins@.take(i as int), is_unspent_again(t)),
            n_deleted <= i,
            n_unspent <= i,
        decreases coins.len() - i,
    {
        let (id, rec) = coins[i];
        proof {
            lemma_select_step(coins@, i as int, is_modified(t), report(t, m));
            lemma_select_step(coins@, i as int, is_deleted(t), id_of());
            lemma_select_step(coins@, i as int, is_unspent_again(t), id_of());
            lemma_coins_map_at(coins@, i as int);
            assert(coins@[i as int] == (id, rec));
        }
        let ghost prev_ids = prefix_ids(coins@, i as int);
        proof {
            assert(prefix_ids(coins@, i + 1) =~= prev_ids.insert(id@)) by {
                assert forall|k: Seq<u8>| #[trigger] prefix_ids(coins@, i + 1).contains(k) <==> prev_ids.insert(
                    id@,
                ).contains(k) by {
                    if prefix_ids(coins@, i + 1).contains(k) {
                        let a = choose|a: int| 0 <= a < i + 1 && #[trigger] coins@[a].0@ == k;
                        if a < i {
                            assert(prev_ids.contains(k));
                        }
                    }
                    if prev_ids.contains(k) {
                        let a = choose|a: int| 0 <= a < i && #[trigger] coins@[a].0@ == k;
                        assert(prefix_ids(coins@, i + 1).contains(k));
                    }
                    if k == id@ {
                        assert(coins@[i as int].0@ == k);
                    }
                }
            }
            assert(!prev_ids.contains(id@)) by {
                if prev_ids.contains(id@) {
                    let a = choose|a: int| 0 <= a < i && #[trigger] coins@[a].0@ == id@;
                    lemma_sorted_distinct(coins@, a, i as int);
                }
            }
        }
        if survives_exec(&rec, target) {
            let mut new_rec = rec;
            if spent_above_exec(&rec, target) {
                let parent_ok = match lookup_coin(coins, &rec.coin.parent_coin_info) {
                    Some(p) => survives_exec(&p, target),
                    None => false,
                };
                new_rec.spent_height = None;
                new_rec.ff_eligible = rec.ff_eligible && parent_ok;
                modified.push((id, new_rec));
                n_unspent = n_unspent + 1;
            }
            proof {
                assert(new_rec == reverted(rec, t, m));
                assert(rm.dom().contains(id@));
                assert(rm[id@] == new_rec);
            }
            let leaf = record_leaf(&new_rec);
            let ghost before = kept@;
            kept.push((id, new_rec));
            tree.put_leaf(id, leaf);
            proof {
                lemma_push_sorted(before, (id, new_rec), coins@, i as int);
                assert(coins_map(kept@) =~= rm.restrict(prefix_ids(coins@, i + 1)));
                lemma_leaf_map_insert(coins_map(before), id@, new_rec);
            }
        } else {
            modified.push((id, rec));
            deleted.push(id);
            n_deleted = n_deleted + 1;
            proof {
                assert(!rm.dom().contains(id@));
                assert(rm.restrict(prefix_ids(coins@, i + 1)) =~= rm.restrict(prev_ids));
            }
        }
        i = i + 1;
    }
    proof {
        lemma_take_all(coins@);
        assert(rm.restrict(prefix_ids(coins@, coins@.len() as int)) =~= rm) by {
            assert forall|k: Seq<u8>| rm.dom().contains(k) implies #[trigger] prefix_ids(
                coins@,
                coins@.len() as int,
            ).contains(k) by {
                let a = choose|a: int| 0 <= a < coins@.len() && #[trigger] coins@[a].0@ == k;
            }
        }
    }
    (kept, tree, modified, deleted, n_deleted, n_unspent)
}

/// Every coin of `m` was confirmed, and spent if it was, at or below height `h`.
pub open spec fn settled_at(m: Map<Seq<u8>, CoinRecord>, h: int) -> bool {
    forall|k: Seq<u8>|
        #[trigger] m.dom().contains(k) ==> m[k].confirmed_height <= h && (m[k].spent_height matches Some(
            s,
        ) ==> s <= h)
}

/// Rolling back to a height at or above every confirmation and spend changes nothing.
pub proof fn lemma_rollback_to_settled_height(m: Map<Seq<u8>, CoinRecord>, h: int)
    requires
        settled_at(m, h),
    ensures
        rolled_back_map(m, h) == m,
{
    assert(rolled_back_map(m, h) =~= m);
}

/// Rolling back a checked block restores the coin map it was applied to: with every coin of `m`
/// settled at the tip height `h`, the block at `h + 1`, and each fast-forward eligible coin it
/// spends having its parent in `m`.
pub proof fn lemma_rollback_undoes_apply(m: Map<Seq<u8>, CoinRecord>, b: BlockData, h: int)
    requires
        settled_at(m, h),
        b.height == h + 1,
        all_fresh(m, new_records(b)),
        removal_error(m, b.removals@) is None,
        removals_distinct(b.removals@),
        forall|i: int|
            0 <= i < b.removals@.len() && m[(#[trigger] b.removals@[i])@].ff_eligible ==> m.dom().contains(
                m[b.removals@[i]@].coin.parent_coin_info@,
            ),
    ensures
        rolled_back_map(applied_map(m, b), h) == m,
{
    lemma_apply_effects(m, b);
    crate::block_apply::lemma_removal_error_none(m, b.removals@);
    let a = applied_map(m, b);
    let n = new_records(b);
    let r = rolled_back_map(a, h);
    assert forall|k: Seq<u8>| #[trigger] r.dom().contains(k) <==> m.dom().contains(k) by {
        if a.dom().contains(k) && !m.dom().contains(k) {
            assert(new_ids(b).contains(k));
            let ks = n.map_values(|p: (Seq<u8>, CoinRecord)| p.0);
            let j = choose|j: int| 0 <= j < ks.len() && #[trigger] ks[j] == k;
            assert(n[j].0 == k);
            assert(a[n[j].0] == n[j].1);
        }
        if m.dom().contains(k) {
            if id_views(b.removals@).contains(k) {
                let i = choose|i: int| 0 <= i < id_views(b.removals@).len() && id_views(b.removals@)[i] == k;
                assert(b.removals@[i]@ == k);
            }
        }
    }
    assert forall|k: Seq<u8>| #[trigger] r.dom().contains(k) implies r[k] == m[k] by {
        if id_views(b.removals@).contains(k) {
            let i = choose|i: int| 0 <= i < id_views(b.removals@).len() && id_views(b.removals@)[i] == k;
            assert(b.removals@[i]@ == k);
            let parent = m[k].coin.parent_coin_info@;
            if m[k].ff_eligible {
                assert(m.dom().contains(parent));
                if id_views(b.removals@).contains(parent) {
                    let i2 = choose|i2: int| 0 <= i2 < id_views(b.removals@).len() && id_views(b.removals@)[i2]
                        == parent;
                    assert(b.removals@[i2]@ == parent);
                }
            }
        }
    }
    assert(r =~= m);
}

/// Appending an entry whose id exceeds every earlier id of the source list keeps a sub-list
/// sorted and adds the entry to its map.
proof fn lemma_push_sorted(
    before: Seq<(Bytes32, CoinRecord)>,
    e: (Bytes32, CoinRecord),
    src: Seq<(Bytes32, CoinRecord)>,
    i: int,
)
    requires
        coin_list_wf(before),
        coin_list_wf(src),
        0 <= i < src.len(),
        src[i].0 == e.0,
        src[i].1.coin == e.1.coin,
        before.len() > 0 ==> exists|a: int| 0 <= a < i && #[trigger] src[a].0@ == before[before.len() - 1].0@,
    ensures
        coin_list_wf(before.push(e)),
        coins_map(before.push(e)) == coins_map(before).insert(e.0@, e.1),
        exists|a: int| 0 <= a < i + 1 && #[trigger] src[a].0@ == before.push(e)[before.push(e).len() - 1].0@,
{
    let after = before.push(e);
    if before.len() > 0 {
        let a = choose|a: int| 0 <= a < i && #[trigger] src[a].0@ == before[before.len() - 1].0@;
        assert(lex_lt(src[a].0@, src[i].0@));
        assert forall|x: int, y: int| 0 <= x < y < after.len() implies lex_lt(
            #[trigger] after[x].0@,
            #[trigger] after[y].0@,
        ) by {
            if y == after.len() - 1 {
                if x < before.len() - 1 {
                    assert(lex_lt(before[x].0@, before[before.len() - 1].0@));
                    lemma_lex_lt_transitive(after[x].0@, before[before.len() - 1].0@, e.0@);
                }
            } else {
                assert(lex_lt(before[x].0@, before[y].0@));
            }
        }
    }
    assert forall|j: int| 0 <= j < after.len() implies #[trigger] after[j].0@ == crate::types::coin_id_of(
        after[j].1.coin,
    ) by {
        if j < before.len() {
            assert(after[j] == before[j]);
        } else {
            assert(src[i].0@ == crate::types::coin_id_of(src[i].1.coin));
        }
    }
    let lhs = coins_map(after);
    let rhs = coins_map(before).insert(e.0@, e.1);
    assert forall|k: Seq<u8>| #[trigger] lhs.dom().contains(k) <==> rhs.dom().contains(k) by {
        if lhs.dom().contains(k) {
            let j = choose|j: int| 0 <= j < after.len() && #[trigger] after[j].0@ == k;
            if j < before.len() {
                assert(before[j].0@ == k);
            }
        }
        if rhs.dom().contains(k) && k != e.0@ {
            let j = choose|j: int| 0 <= j < before.len() && #[trigger] before[j].0@ == k;
            assert(after[j].0@ == k);
        }
        if k == e.0@ {
            assert(after[after.len() - 1].0@ == k);
        }
    }
    assert forall|k: Seq<u8>| #[trigger] lhs.dom().contains(k) implies lhs[k] == rhs[k] by {
        let j = choose|j: int| 0 <= j < after.len() && #[trigger] after[j].0@ == k;
        lemma_coins_map_at(after, j);
        if j < before.len() {
            assert(after[j] == before[j]);
            lemma_coins_map_at(before, j);
            lemma_sorted_distinct(after, j, after.len() - 1);
        }
    }
    assert(lhs =~= rhs);
}

} // verus!
