//! Snapshots: a full export of the store's state, checked before it is restored.
//!
//! A snapshot holds the tip, the state root, every coin record with its id, the hints that are
//! 32 bytes long, the number of coins and the total unspent value (saturating at `u64::MAX`).
//! Restoring one checks, in order, that the coin count matches, that every id is the id of its
//! coin and occurs once, that the total value matches, and that the state root is the root of the
//! coins.
use crate::bytes::Bytes32;
use crate::hints::{
    entry_coin, entry_hint, hint_entry, hint_list_wf, insert_entry, is_hint_entry, key_views,
    lemma_hint_entry_parts, lemma_insert_keeps_wf, make_hint_entry,
};
use crate::merkle::SparseMerkleTree;
use crate::records::{
    coin_list_wf, coins_map, find_coin, ids_distinct, insert_coin_sorted, leaf_map,
    lemma_coins_map_at, lemma_coins_map_empty, lemma_coins_map_push_fresh, lemma_leaf_map_empty,
    lemma_leaf_map_insert, record_leaf,
};
use crate::select::{lemma_select_step, lemma_take_all, select};
use crate::types::{coin_id_of, CoinRecord, CoinStoreSnapshot};
use vstd::prelude::*;

verus! {

/// The fields of a snapshot as plain values.
pub open spec fn snap_view(s: CoinStoreSnapshot) -> (
    u64,
    Bytes32,
    Bytes32,
    u64,
    Seq<(Bytes32, CoinRecord)>,
    Seq<(Bytes32, Bytes32)>,
    u64,
    u64,
) {
    (
        s.height,
        s.block_hash,
        s.state_root,
        s.timestamp,
        s.coins@,
        s.hints@,
        s.total_coins,
        s.total_value,
    )
}

/// Hint entries whose hint is 32 bytes long.
pub open spec fn full_entry() -> spec_fn(Seq<u8>) -> bool {
    |e: Seq<u8>| e.len() == 64
}

/// An entry as a `(coin id, hint)` pair.
pub open spec fn entry_pair() -> spec_fn(Seq<u8>) -> (Seq<u8>, Seq<u8>) {
    |e: Seq<u8>| (entry_coin(e), entry_hint(e))
}

/// The views of `(coin id, hint)` pairs.
pub open spec fn pair_views(v: Seq<(Bytes32, Bytes32)>) -> Seq<(Seq<u8>, Seq<u8>)> {
    v.map_values(|p: (Bytes32, Bytes32)| (p.0@, p.1@))
}

/// The hint entries of a list of `(coin id, hint)` pairs.
pub open spec fn pair_entries(v: Seq<(Bytes32, Bytes32)>) -> Set<Seq<u8>> {
    Set::new(|e: Seq<u8>| exists|i: int| 0 <= i < v.len() && e == hint_entry((#[trigger] v[i]).0@, v[i].1@))
}

/// Every id of a snapshot's coin list is the id of its coin and occurs once.
pub open spec fn snapshot_ids_ok(coins: Seq<(Bytes32, CoinRecord)>) -> bool {
    &&& forall|i: int| 0 <= i < coins.len() ==> #[trigger] coins[i].0@ == coin_id_of(coins[i].1.coin)
    &&& ids_distinct(coins)
}

/// The `(coin id, hint)` pairs of the entries whose hint is 32 bytes long, in entry order.
pub fn hint_pairs(hints: &Vec<Vec<u8>>) -> (r: Vec<(Bytes32, Bytes32)>)
    requires
        hint_list_wf(key_views(hints@)),
    ensures
        pair_views(r@) == select(key_views(hints@), full_entry(), entry_pair()),
{
    let ghost s = key_views(hints@);
    let mut out: Vec<(Bytes32, Bytes32)> = Vec::new();
    let mut i: usize = 0;
    while i < hints.len()
        invariant
            s == key_views(hints@),
            hint_list_wf(s),
            i <= hints@.len(),
            pair_views(out@) == select(s.take(i as int), full_entry(), entry_pair()),
        decreases hints.len() - i,
    {
        proof {
            lemma_select_step(s, i as int, full_entry(), entry_pair());
        }
        assert(s[i as int] == hints@[i as int]@);
        if hints[i].len() == 64 {
            let c = Bytes32::from_prefix(hints[i].as_slice());
            let h = Bytes32::from_range(hints[i].as_slice(), 32);
            let ghost before = out@;
            out.push((c, h));
            proof {
                assert(h@ =~= entry_hint(s[i as int]));
                assert(pair_views(out@) =~= pair_views(before).push((c@, h@)));
            }
        }
        i = i + 1;
    }
    proof {
        lemma_take_all(s);
    }
    out
}

/// The hint entry list holding the entries of `pairs`.
pub fn entries_from_pairs(pairs: &Vec<(Bytes32, Bytes32)>) -> (r: Vec<Vec<u8>>)
    ensures
        hint_list_wf(key_views(r@)),
        key_views(r@).to_set() == pair_entries(pairs@),
{
    let mut out: Vec<Vec<u8>> = Vec::new();
    let mut i: usize = 0;
    proof {
        assert(key_views(out@).to_set() =~= pair_entries(pairs@.take(0)));
    }
    while i < pairs.len()
        invariant
            i <= pairs@.len(),
            hint_list_wf(key_views(out@)),
            key_views(out@).to_set() == pair_entries(pairs@.take(i as int)),
        decreases pairs.len() - i,
    {
        let (c, h) = pairs[i];
        let ghost before = key_views(out@);
        let e = make_hint_entry(&c, h.as_slice());
        let _added = insert_entry(&mut out, e);
        proof {
            lemma_hint_entry_parts(c@, h@);
            lemma_insert_keeps_wf(before, key_views(out@), hint_entry(c@, h@));
            let p = pairs@.take(i as int);
            let q = pairs@.take(i + 1);
            assert(q[i as int] == (c, h));
            assert forall|x: Seq<u8>| #[trigger] pair_entries(q).contains(x) <==> pair_entries(p).insert(
                hint_entry(c@, h@),
            ).contains(x) by {
                if pair_entries(q).contains(x) {
                    let j = choose|j: int| 0 <= j < q.len() && x == hint_entry((#[trigger] q[j]).0@, q[j].1@);
                    if j < i {
                        assert(p[j] == q[j]);
                        assert(pair_entries(p).contains(x));
                    }
                }
                if pair_entries(p).contains(x) {
                    let j = choose|j: int| 0 <= j < p.len() && x == hint_entry((#[trigger] p[j]).0@, p[j].1@);
                    assert(q[j] == p[j]);
                    assert(pair_entries(q).contains(x));
                }
                if x == hint_entry(c@, h@) {
                    assert(pair_entries(q).contains(x));
                }
            }
            assert(pair_entries(q) =~= pair_entries(p).insert(hint_entry(c@, h@)));
        }
        i = i + 1;
    }
    proof {
        assert(pairs@.take(pairs@.len() as int) =~= pairs@);
    }
    out
}

/// The coins of a snapshot as a sorted coin list, or `None` when an id is not the id of its coin
/// or occurs twice.
pub fn sorted_snapshot_coins(coins: &Vec<(Bytes32, CoinRecord)>) -> (r: Option<
    Vec<(Bytes32, CoinRecord)>,
>)
    ensures
        r is Some <==> snapshot_ids_ok(coins@),
        r matches Some(v) ==> coin_list_wf(v@) && coins_map(v@) == coins_map(coins@),
{
    let mut out: Vec<(Bytes32, CoinRecord)> = Vec::new();
    let mut i: usize = 0;
    proof {
        lemma_coins_map_empty(out@);
        assert(coins_map(coins@.take(0)) =~= coins_map(out@));
    }
    while i < coins.len()
        invariant
            i <= coins@.len(),
            coin_list_wf(out@),
            snapshot_ids_ok(coins@.take(i as int)),
            coins_map(out@) == coins_map(coins@.take(i as int)),
        decreases coins.len() - i,
    {
        let (id, rec) = coins[i];
        let ghost p = coins@.take(i as int);
        let ghost q = coins@.take(i + 1);
        proof {
            assert(q =~= p.push((id, rec)));
        }
        let computed = rec.coin.coin_id();
        if !computed.equals(&id) {
            proof {
                assert(q[i as int].0@ != coin_id_of(q[i as int].1.coin));
                lemma_ids_ok_prefix(coins@, i + 1);
            }
            return None;
        }
        match find_coin(&out, &id) {
            Some(k) => {
                proof {
                    lemma_coins_map_at(out@, k as int);
                    assert(coins_map(p).dom().contains(id@));
                    let j = choose|j: int| 0 <= j < p.len() && #[trigger] p[j].0@ == id@;
                    assert(q[j].0@ == q[i as int].0@);
                    lemma_ids_ok_prefix(coins@, i + 1);
                }
                return None;
            },
            None => {},
        }
        proof {
            assert forall|j: int| 0 <= j < p.len() implies #[trigger] p[j].0@ != id@ by {
                if p[j].0@ == id@ {
                    crate::records::lemma_coins_map_at_distinct(p, j);
                }
            }
            lemma_coins_map_push_fresh(p, (id, rec));
        }
        insert_coin_sorted(&mut out, id, rec);
        proof {
            assert forall|j: int| 0 <= j < q.len() implies #[trigger] q[j].0@ == coin_id_of(q[j].1.coin) by {
                if j < i {
                    assert(q[j] == p[j]);
                }
            }
        }
        i = i + 1;
    }
    proof {
        assert(coins@.take(coins@.len() as int) =~= coins@);
    }
    Some(out)
}

/// A failing prefix check fails for the whole list.
proof fn lemma_ids_ok_prefix(coins: Seq<(Bytes32, CoinRecord)>, n: int)
    requires
        0 <= n <= coins.len(),
        !snapshot_ids_ok(coins.take(n)),
    ensures
        !snapshot_ids_ok(coins),
{
    let p = coins.take(n);
    if snapshot_ids_ok(coins) {
        assert forall|i: int| 0 <= i < p.len() implies #[trigger] p[i].0@ == coin_id_of(p[i].1.coin) by {
            assert(p[i] == coins[i]);
        }
        assert forall|i: int, j: int| 0 <= i < j < p.len() implies #[trigger] p[i].0@ != #[trigger] p[j].0@ by {
            assert(p[i] == coins[i]);
            assert(p[j] == coins[j]);
        }
    }
}

/// A Merkle tree holding the leaves of a coin list.
pub fn tree_of(coins: &Vec<(Bytes32, CoinRecord)>) -> (r: SparseMerkleTree)
    requires
        coin_list_wf(coins@),
    ensures
        r.wf(),
        r@ == leaf_map(coins_map(coins@)),
{
    let mut tree = SparseMerkleTree::new();
    let mut i: usize = 0;
    proof {
        lemma_leaf_map_empty();
        assert(coins_map(coins@.take(0)) =~= Map::<Seq<u8>, CoinRecord>::empty());
    }
    while i < coins.len()
        invariant
            coin_list_wf(coins@),
            i <= coins@.len(),
            tree.wf(),
            tree@ == leaf_map(coins_map(coins@.take(i as int))),
        decreases coins.len() - i,
    {
        let (id, rec) = coins[i];
        let leaf = record_leaf(&rec);
        tree.put_leaf(id, leaf);
        proof {
            let p = coins@.take(i as int);
            assert(coins@.take(i + 1) =~= p.push((id, rec)));
            assert(crate::records::ids_distinct(coins@)) by {
                assert forall|a: int, b: int| 0 <= a < b < coins@.len() implies #[trigger] coins@[a].0@
                    != #[trigger] coins@[b].0@ by {
                    crate::records::lemma_sorted_distinct(coins@, a, b);
                }
            }
            assert(ids_distinct(p)) by {
                assert forall|a: int, b: int| 0 <= a < b < p.len() implies #[trigger] p[a].0@ != #[trigger] p[b].0@ by {
                    assert(p[a] == coins@[a] && p[b] == coins@[b]);
                }
            }
            assert forall|j: int| 0 <= j < p.len() implies #[trigger] p[j].0@ != id@ by {
                assert(p[j] == coins@[j]);
                crate::records::lemma_sorted_distinct(coins@, j, i as int);
            }
            lemma_coins_map_push_fresh(p, (id, rec));
            lemma_leaf_map_insert(coins_map(p), id@, rec);
        }
        i = i + 1;
    }
    proof {
        assert(coins@.take(coins@.len() as int) =~= coins@);
    }
    tree
}

/// A copy of a list of `(coin id, hint)` pairs.
pub fn copy_pairs(v: &Vec<(Bytes32, Bytes32)>) -> (r: Vec<(Bytes32, Bytes32)>)
    ensures
        r@ == v@,
{
    let mut r: Vec<(Bytes32, Bytes32)> = Vec::new();
    let mut i: usize = 0;
    while i < v.len()
        invariant
            i <= v@.len(),
            r@ =~= v@.take(i as int),
        decreases v.len() - i,
    {
        r.push(v[i]);
        i = i + 1;
    }
    assert(v@.take(v@.len() as int) =~= v@);
    r
}

/// A copy of a snapshot.
pub fn copy_snapshot(s: &CoinStoreSnapshot) -> (r: CoinStoreSnapshot)
    ensures
        snap_view(r) == snap_view(*s),
{
    CoinStoreSnapshot {
        height: s.height,
        block_hash: s.block_hash,
        state_root: s.state_root,
        timestamp: s.timestamp,
        coins: crate::records::copy_coins(&s.coins),
        hints: copy_pairs(&s.hints),
        total_coins: s.total_coins,
        total_value: s.total_value,
    }
}

// ─────────────────────────────────────────────────────────────────────────────
// Saved snapshots
// ─────────────────────────────────────────────────────────────────────────────

/// Saved snapshots are in strictly increasing height order.
pub open spec fn snaps_sorted(s: Seq<CoinStoreSnapshot>) -> bool {
    forall|i: int, j: int| 0 <= i < j < s.len() ==> (#[trigger] s[i]).height < (#[trigger] s[j]).height
}

/// The first index at or after `i` whose height is at least `h`, or the length.
pub open spec fn first_at_least(s: Seq<CoinStoreSnapshot>, h: u64, i: int) -> int
    decreases s.len() - i,
{
    if i >= s.len() {
        s.len() as int
    } else if s[i].height >= h {
        i
    } else {
        first_at_least(s, h, i + 1)
    }
}

/// The saved list after saving `x`: it replaces a snapshot of the same height, or is inserted in
/// height order.
pub open spec fn put_snapshot(s: Seq<CoinStoreSnapshot>, x: CoinStoreSnapshot) -> Seq<
    CoinStoreSnapshot,
> {
    let p = first_at_least(s, x.height, 0);
    if p < s.len() && s[p].height == x.height {
        s.update(p, x)
    } else {
        s.insert(p, x)
    }
}

/// The newest `max` snapshots of `s`.
pub open spec fn keep_latest(s: Seq<CoinStoreSnapshot>, max: int) -> Seq<CoinStoreSnapshot> {
    if s.len() > max {
        s.skip(s.len() - max)
    } else {
        s
    }
}

/// Saves `snap` into a sorted list of snapshots and keeps the newest `max`.
pub fn save_into(snaps: &mut Vec<CoinStoreSnapshot>, snap: CoinStoreSnapshot, max: usize)
    requires
        snaps_sorted(old(snaps)@),
    ensures
        snaps_sorted(final(snaps)@),
        final(snaps)@ == keep_latest(put_snapshot(old(snaps)@, snap), max as int),
{
    let h = snap.height;
    let mut p: usize = 0;
    while p < snaps.len()
        invariant
            p <= snaps@.len(),
            snaps@ == old(snaps)@,
            first_at_least(snaps@, h, 0) == first_at_least(snaps@, h, p as int),
        ensures
            snaps@ == old(snaps)@,
            first_at_least(snaps@, h, 0) == p,
        decreases snaps.len() - p,
    {
        if snaps[p].height >= h {
            break;
        }
        p = p + 1;
    }
    proof {
        lemma_put_keep_sorted(snaps@, snap, max as int);
    }
    if p < snaps.len() && snaps[p].height == h {
        snaps.set(p, snap);
    } else {
        snaps.insert(p, snap);
    }
    if snaps.len() > max {
        let ghost before = snaps@;
        let drop = snaps.len() - max;
        let mut k: usize = 0;
        while k < drop
            invariant
                k <= drop,
                drop == before.len() - max,
                snaps@ == before.skip(k as int),
            decreases drop - k,
        {
            let _gone = snaps.remove(0);
            proof {
                assert(before.skip(k as int).remove(0) =~= before.skip(k + 1));
            }
            k = k + 1;
        }
    }
}

/// Entries before `first_at_least` are lower; a sorted list's entries from there are at least `h`.
proof fn lemma_first_at_least(s: Seq<CoinStoreSnapshot>, h: u64, i: int)
    requires
        snaps_sorted(s),
        0 <= i <= s.len(),
        forall|j: int| 0 <= j < i ==> (#[trigger] s[j]).height < h,
    ensures
        i <= first_at_least(s, h, i) <= s.len(),
        forall|j: int| 0 <= j < first_at_least(s, h, i) ==> (#[trigger] s[j]).height < h,
        forall|j: int| first_at_least(s, h, i) <= j < s.len() ==> (#[trigger] s[j]).height >= h,
    decreases s.len() - i,
{
    if i < s.len() {
        if s[i].height < h {
            lemma_first_at_least(s, h, i + 1);
        } else {
            assert forall|j: int| i <= j < s.len() implies (#[trigger] s[j]).height >= h by {
                if j > i {
                    assert(s[i].height < s[j].height);
                }
            }
        }
    }
}

/// Saving into a sorted list and keeping the newest ones keeps it sorted.
pub proof fn lemma_put_keep_sorted(s: Seq<CoinStoreSnapshot>, x: CoinStoreSnapshot, max: int)
    requires
        snaps_sorted(s),
        max >= 0,
    ensures
        snaps_sorted(keep_latest(put_snapshot(s, x), max)),
{
    lemma_first_at_least(s, x.height, 0);
    let p = first_at_least(s, x.height, 0);
    let t = put_snapshot(s, x);
    assert(snaps_sorted(t)) by {
        assert forall|a: int, b: int| 0 <= a < b < t.len() implies (#[trigger] t[a]).height < (
        #[trigger] t[b]).height by {
            if p < s.len() && s[p].height == x.height {
                if a != p && b != p {
                    assert(s[a].height < s[b].height);
                } else if a == p {
                    assert(s[p].height < s[b].height);
                } else {
                    assert(s[a].height < s[p].height);
                }
            } else {
                if b < p {
                    assert(s[a].height < s[b].height);
                } else if b == p {
                } else if a < p {
                    assert(s[b - 1].height > x.height || s[b - 1].height >= x.height);
                    if a < p {
                        assert(s[a].height < x.height);
                    }
                } else if a == p {
                    assert(s[b - 1].height >= x.height);
                    assert(s[b - 1].height != x.height || p < s.len());
                    if p < s.len() {
                        assert(s[p].height != x.height);
                        assert(s[p].height > x.height);
                        if b - 1 > p {
                            assert(s[p].height < s[b - 1].height);
                        }
                    }
                } else {
                    assert(s[a - 1].height < s[b - 1].height);
                }
            }
        }
    }
    let k = keep_latest(t, max);
    assert forall|a: int, b: int| 0 <= a < b < k.len() implies (#[trigger] k[a]).height < (
    #[trigger] k[b]).height by {
        if t.len() > max {
            assert(k[a] == t[a + (t.len() - max)]);
            assert(k[b] == t[b + (t.len() - max)]);
        }
    }
}

} // verus!
