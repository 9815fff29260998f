//! Paginated coin state queries by puzzle hash.
//!
//! The candidates are the coins whose puzzle hash is requested and, when hinted coins are
//! included, the coins carrying one of the requested puzzle hashes as a 32-byte hint; each coin
//! once. They are filtered (spent / unspent, minimum confirmed height, minimum amount) and
//! ordered by `max(confirmed_height, spent_height)` with ties in coin id order. When more than
//! `max_items` remain, the page stops before the first block boundary at or after `max_items`: it
//! holds the coins below the height of the first coin left out, and that height is returned to
//! resume from.
use crate::bytes::{lemma_lex_lt_irreflexive, lemma_lex_lt_transitive, lex_lt, Bytes32};
use crate::hints::{hint_entry, key_views, keys_sorted, locate_entry, make_hint_entry};
use crate::queries::{id_views, states_of};
use crate::records::{coin_list_wf, ids_sorted};
use crate::select::{lemma_select_step, lemma_take_all, select};
use crate::types::{spec_coin_state, CoinRecord, CoinState, CoinStateFilters};
use vstd::prelude::*;

verus! {

/// Most puzzle hashes one batch request may carry.
pub const MAX_PUZZLE_HASH_BATCH_SIZE: usize = 990;

/// The height a coin is ordered by: the later of its confirmed and spent heights.
pub open spec fn batch_height(r: CoinRecord) -> u64 {
    let s: u64 = match r.spent_height {
        Some(h) => h,
        None => 0,
    };
    if r.confirmed_height >= s {
        r.confirmed_height
    } else {
        s
    }
}

/// The coin `p` carries one of `phs` as a hint.
pub open spec fn hinted_by(hints: Seq<Seq<u8>>, phs: Seq<Bytes32>, p: (Bytes32, CoinRecord)) -> bool {
    exists|j: int| 0 <= j < phs.len() && hints.contains(hint_entry(p.0@, #[trigger] phs[j]@))
}

/// The coin `p` is in the result before pagination.
pub open spec fn batch_candidate(
    hints: Seq<Seq<u8>>,
    phs: Seq<Bytes32>,
    filters: CoinStateFilters,
    min_height: u64,
) -> spec_fn((Bytes32, CoinRecord)) -> bool {
    |p: (Bytes32, CoinRecord)|
        {
            &&& (id_views(phs).contains(p.1.coin.puzzle_hash@) || (filters.include_hinted
                && hinted_by(hints, phs, p)))
            &&& (p.1.spent_height is Some ==> filters.include_spent)
            &&& (p.1.spent_height is None ==> filters.include_unspent)
            &&& p.1.confirmed_height >= min_height
            &&& p.1.coin.amount >= filters.min_amount
        }
}

/// The list entry itself.
pub open spec fn same_entry() -> spec_fn((Bytes32, CoinRecord)) -> (Bytes32, CoinRecord) {
    |p: (Bytes32, CoinRecord)| p
}

/// The first index at or after `i` whose height exceeds `h`, or the length.
pub open spec fn first_above(s: Seq<(Bytes32, CoinRecord)>, h: u64, i: int) -> int
    decreases s.len() - i,
{
    if i >= s.len() {
        s.len() as int
    } else if batch_height(s[i].1) > h {
        i
    } else {
        first_above(s, h, i + 1)
    }
}

/// `s` with `x` inserted before the first entry of greater height.
pub open spec fn insert_by_height(s: Seq<(Bytes32, CoinRecord)>, x: (Bytes32, CoinRecord)) -> Seq<
    (Bytes32, CoinRecord),
> {
    s.insert(first_above(s, batch_height(x.1), 0), x)
}

/// Stable sort by height: each entry in turn is inserted after the entries of lower or equal
/// height.
pub open spec fn sort_by_height(s: Seq<(Bytes32, CoinRecord)>) -> Seq<(Bytes32, CoinRecord)>
    decreases s.len(),
{
    if s.len() == 0 {
        s
    } else {
        insert_by_height(sort_by_height(s.drop_last()), s.last())
    }
}

/// The page end: from `e`, drop entries while the one before has height at least `h`.
pub open spec fn trim_end(s: Seq<(Bytes32, CoinRecord)>, e: int, h: u64) -> int
    decreases e,
{
    if e <= 0 {
        0
    } else if batch_height(s[e - 1].1) >= h {
        trim_end(s, e - 1, h)
    } else {
        e
    }
}

/// The sorted candidates of a batch request.
pub open spec fn batch_sorted(
    coins: Seq<(Bytes32, CoinRecord)>,
    hints: Seq<Seq<u8>>,
    phs: Seq<Bytes32>,
    filters: CoinStateFilters,
    min_height: u64,
) -> Seq<(Bytes32, CoinRecord)> {
    sort_by_height(select(coins, batch_candidate(hints, phs, filters, min_height), same_entry()))
}

/// The sync views of list entries.
pub open spec fn entry_states(s: Seq<(Bytes32, CoinRecord)>) -> Seq<CoinState> {
    s.map_values(|p: (Bytes32, CoinRecord)| spec_coin_state(p.1))
}

/// A page of a sorted candidate list and the height to resume from.
pub open spec fn batch_page(s: Seq<(Bytes32, CoinRecord)>, max_items: int) -> (Seq<CoinState>, Option<u64>) {
    if s.len() <= max_items {
        (entry_states(s), None)
    } else {
        let h = batch_height(s[max_items].1);
        (entry_states(s.take(trim_end(s, max_items, h))), Some(h))
    }
}

// ─────────────────────────────────────────────────────────────────────────────
// Laws
// ─────────────────────────────────────────────────────────────────────────────

/// `a` comes before `b`: lower height, or the same height and a lower coin id.
pub open spec fn key_lt(a: (Bytes32, CoinRecord), b: (Bytes32, CoinRecord)) -> bool {
    batch_height(a.1) < batch_height(b.1) || (batch_height(a.1) == batch_height(b.1) && lex_lt(
        a.0@,
        b.0@,
    ))
}

/// Entries strictly increase by height, then coin id.
pub open spec fn height_id_sorted(s: Seq<(Bytes32, CoinRecord)>) -> bool {
    forall|i: int, j: int| 0 <= i < j < s.len() ==> key_lt(#[trigger] s[i], #[trigger] s[j])
}

/// What `first_above` finds: every entry it passes has height at most `h`, and the entry it
/// stops at has a greater height.
proof fn lemma_first_above(s: Seq<(Bytes32, CoinRecord)>, h: u64, i: int)
    requires
        0 <= i <= s.len(),
    ensures
        i <= first_above(s, h, i) <= s.len(),
        forall|j: int| i <= j < first_above(s, h, i) ==> batch_height((#[trigger] s[j]).1) <= h,
        first_above(s, h, i) < s.len() ==> batch_height(s[first_above(s, h, i)].1) > h,
    decreases s.len() - i,
{
    if i < s.len() && batch_height(s[i].1) <= h {
        lemma_first_above(s, h, i + 1);
    }
}

/// Sorting a list in coin id order by height gives the same entries, in strictly increasing
/// (height, coin id) order.
pub proof fn lemma_sort_by_height(s: Seq<(Bytes32, CoinRecord)>)
    requires
        ids_sorted(s),
    ensures
        height_id_sorted(sort_by_height(s)),
        sort_by_height(s).len() == s.len(),
        forall|e: (Bytes32, CoinRecord)| #[trigger] sort_by_height(s).contains(e) <==> s.contains(e),
    decreases s.len(),
{
    if s.len() > 0 {
        let p = s.drop_last();
        let x = s.last();
        assert forall|i: int, j: int| 0 <= i < j < p.len() implies lex_lt(#[trigger] p[i].0@, #[trigger] p[j].0@) by {
            assert(p[i] == s[i] && p[j] == s[j]);
        }
        lemma_sort_by_height(p);
        let t = sort_by_height(p);
        let h = batch_height(x.1);
        lemma_first_above(t, h, 0);
        let q = first_above(t, h, 0);
        let u = t.insert(q, x);
        assert(sort_by_height(s) == u);
        assert forall|a: int| 0 <= a < t.len() implies lex_lt((#[trigger] t[a]).0@, x.0@) by {
            assert(t.contains(t[a]));
            assert(p.contains(t[a]));
            let k = choose|k: int| 0 <= k < p.len() && p[k] == t[a];
            assert(s[k] == p[k]);
            assert(lex_lt(s[k].0@, s[s.len() - 1].0@));
        }
        assert forall|a: int| q <= a < t.len() implies batch_height((#[trigger] t[a]).1) > h by {
            if a > q {
                assert(key_lt(t[q], t[a]));
            }
        }
        assert forall|a: int, b: int| 0 <= a < b < u.len() implies key_lt(#[trigger] u[a], #[trigger] u[b]) by {
            if b < q {
                assert(u[a] == t[a] && u[b] == t[b]);
            } else if b == q {
                assert(u[a] == t[a]);
            } else if a < q {
                assert(u[a] == t[a] && u[b] == t[b - 1]);
                assert(key_lt(t[a], t[b - 1]));
            } else if a == q {
                assert(u[b] == t[b - 1]);
            } else {
                assert(u[a] == t[a - 1] && u[b] == t[b - 1]);
            }
        }
        assert forall|e: (Bytes32, CoinRecord)| #[trigger] u.contains(e) <==> s.contains(e) by {
            if u.contains(e) {
                let k = choose|k: int| 0 <= k < u.len() && u[k] == e;
                if k < q {
                    assert(t[k] == e);
                    assert(t.contains(e));
                    let j = choose|j: int| 0 <= j < p.len() && p[j] == e;
                    assert(s[j] == e);
                } else if k > q {
                    assert(t[k - 1] == e);
                    assert(t.contains(e));
                    let j = choose|j: int| 0 <= j < p.len() && p[j] == e;
                    assert(s[j] == e);
                } else {
                    assert(s[s.len() - 1] == e);
                }
            }
            if s.contains(e) {
                let k = choose|k: int| 0 <= k < s.len() && s[k] == e;
                if k < s.len() - 1 {
                    assert(p[k] == e);
                    assert(p.contains(e));
                    assert(t.contains(e));
                    let j = choose|j: int| 0 <= j < t.len() && t[j] == e;
                    if j < q {
                        assert(u[j] == e);
                    } else {
                        assert(u[j + 1] == e);
                    }
                } else {
                    assert(u[q] == e);
                }
            }
        }
    }
}

/// Selecting from a list in coin id order keeps coin id order.
proof fn lemma_select_keeps_ids_sorted(
    s: Seq<(Bytes32, CoinRecord)>,
    pred: spec_fn((Bytes32, CoinRecord)) -> bool,
)
    requires
        ids_sorted(s),
    ensures
        ids_sorted(select(s, pred, same_entry())),
    decreases s.len(),
{
    if s.len() > 0 {
        let p = s.drop_last();
        assert forall|i: int, j: int| 0 <= i < j < p.len() implies lex_lt(#[trigger] p[i].0@, #[trigger] p[j].0@) by {
            assert(p[i] == s[i] && p[j] == s[j]);
        }
        lemma_select_keeps_ids_sorted(p, pred);
        let r = select(p, pred, same_entry());
        if pred(s.last()) {
            let u = r.push(s.last());
            assert forall|i: int, j: int| 0 <= i < j < u.len() implies lex_lt(#[trigger] u[i].0@, #[trigger] u[j].0@) by {
                if j == u.len() - 1 {
                    crate::select::lemma_select_members(p, pred, same_entry(), i);
                    let k = choose|k: int| 0 <= k < p.len() && pred(p[k]) && r[i] == same_entry()(#[trigger] p[k]);
                    assert(p[k] == s[k]);
                    assert(lex_lt(s[k].0@, s[s.len() - 1].0@));
                } else {
                    assert(u[i] == r[i] && u[j] == r[j]);
                }
            }
        }
    }
}

/// The sorted candidates of a batch request over a coin list are in strictly increasing
/// (height, coin id) order.
pub proof fn lemma_batch_sorted(
    coins: Seq<(Bytes32, CoinRecord)>,
    hints: Seq<Seq<u8>>,
    phs: Seq<Bytes32>,
    filters: CoinStateFilters,
    min_height: u64,
)
    requires
        ids_sorted(coins),
    ensures
        height_id_sorted(batch_sorted(coins, hints, phs, filters, min_height)),
{
    let pred = batch_candidate(hints, phs, filters, min_height);
    lemma_select_keeps_ids_sorted(coins, pred);
    lemma_sort_by_height(select(coins, pred, same_entry()));
}

/// The coin passes the spent / unspent, minimum height and minimum amount filters of a batch
/// request.
pub open spec fn passes_batch_filters(r: CoinRecord, filters: CoinStateFilters, min_height: u64) -> bool {
    &&& (r.spent_height is Some ==> filters.include_spent)
    &&& (r.spent_height is None ==> filters.include_unspent)
    &&& r.confirmed_height >= min_height
    &&& r.coin.amount >= filters.min_amount
}

/// Which coins a batch request considers: every coin of the list that passes the filters and
/// has one of the requested puzzle hashes, or (with `include_hinted`) carries one of them as a
/// stored hint entry `coin_id || puzzle_hash`, is among the sorted candidates; and every
/// candidate is such a coin of the list.
pub proof fn lemma_batch_candidates_exact(
    coins: Seq<(Bytes32, CoinRecord)>,
    hints: Seq<Seq<u8>>,
    phs: Seq<Bytes32>,
    filters: CoinStateFilters,
    min_height: u64,
)
    requires
        ids_sorted(coins),
    ensures
        forall|i: int, j: int|
            #![trigger coins[i], phs[j]]
            0 <= i < coins.len() && 0 <= j < phs.len() && coins[i].1.coin.puzzle_hash@ == phs[j]@
                && passes_batch_filters(coins[i].1, filters, min_height) ==> batch_sorted(
                coins,
                hints,
                phs,
                filters,
                min_height,
            ).contains(coins[i]),
        forall|i: int, j: int|
            #![trigger coins[i], phs[j]]
            0 <= i < coins.len() && 0 <= j < phs.len() && filters.include_hinted && hints.contains(
                coins[i].0@ + phs[j]@,
            ) && passes_batch_filters(coins[i].1, filters, min_height) ==> batch_sorted(
                coins,
                hints,
                phs,
                filters,
                min_height,
            ).contains(coins[i]),
        forall|e: (Bytes32, CoinRecord)|
            #[trigger] batch_sorted(coins, hints, phs, filters, min_height).contains(e) ==> {
                &&& coins.contains(e)
                &&& passes_batch_filters(e.1, filters, min_height)
                &&& (exists|j: int| 0 <= j < phs.len() && e.1.coin.puzzle_hash@ == (#[trigger] phs[j])@)
                    || (filters.include_hinted && exists|j: int|
                    0 <= j < phs.len() && hints.contains(e.0@ + (#[trigger] phs[j])@))
            },
{
    let pred = batch_candidate(hints, phs, filters, min_height);
    let sel = select(coins, pred, same_entry());
    lemma_select_keeps_ids_sorted(coins, pred);
    lemma_sort_by_height(sel);
    assert forall|i: int, j: int|
        #![trigger coins[i], phs[j]]
        0 <= i < coins.len() && 0 <= j < phs.len() && coins[i].1.coin.puzzle_hash@ == phs[j]@
            && passes_batch_filters(coins[i].1, filters, min_height) implies batch_sorted(
            coins,
            hints,
            phs,
            filters,
            min_height,
        ).contains(coins[i]) by {
        assert(id_views(phs)[j] == phs[j]@);
        crate::select::lemma_select_complete(coins, pred, same_entry(), i);
    }
    assert forall|i: int, j: int|
        #![trigger coins[i], phs[j]]
        0 <= i < coins.len() && 0 <= j < phs.len() && filters.include_hinted && hints.contains(
            coins[i].0@ + phs[j]@,
        ) && passes_batch_filters(coins[i].1, filters, min_height) implies batch_sorted(
            coins,
            hints,
            phs,
            filters,
            min_height,
        ).contains(coins[i]) by {
        assert(hint_entry(coins[i].0@, phs[j]@) == coins[i].0@ + phs[j]@);
        assert(hinted_by(hints, phs, coins[i]));
        crate::select::lemma_select_complete(coins, pred, same_entry(), i);
    }
    assert forall|e: (Bytes32, CoinRecord)|
        #[trigger] batch_sorted(coins, hints, phs, filters, min_height).contains(e) implies {
            &&& coins.contains(e)
            &&& passes_batch_filters(e.1, filters, min_height)
            &&& (exists|j: int| 0 <= j < phs.len() && e.1.coin.puzzle_hash@ == (#[trigger] phs[j])@)
                || (filters.include_hinted && exists|j: int|
                0 <= j < phs.len() && hints.contains(e.0@ + (#[trigger] phs[j])@))
        } by {
        assert(sel.contains(e));
        let k = choose|k: int| 0 <= k < sel.len() && sel[k] == e;
        crate::select::lemma_select_members(coins, pred, same_entry(), k);
        let i = choose|i: int| 0 <= i < coins.len() && pred(coins[i]) && sel[k] == same_entry()(#[trigger] coins[i]);
        assert(coins[i] == e);
        if id_views(phs).contains(e.1.coin.puzzle_hash@) {
            let j = choose|j: int| 0 <= j < id_views(phs).len() && id_views(phs)[j] == e.1.coin.puzzle_hash@;
            assert(id_views(phs)[j] == phs[j]@);
        } else {
            let j = choose|j: int| 0 <= j < phs.len() && hints.contains(hint_entry(e.0@, #[trigger] phs[j]@));
            assert(hint_entry(e.0@, phs[j]@) == e.0@ + phs[j]@);
        }
    }
}

/// What `trim_end` finds: it stops after an entry of height below `h` (or at 0), having dropped
/// only entries of height at least `h`.
proof fn lemma_trim_end(s: Seq<(Bytes32, CoinRecord)>, e: int, h: u64)
    requires
        0 <= e <= s.len(),
    ensures
        0 <= trim_end(s, e, h) <= e,
        forall|j: int| trim_end(s, e, h) <= j < e ==> batch_height((#[trigger] s[j]).1) >= h,
        trim_end(s, e, h) > 0 ==> batch_height(s[trim_end(s, e, h) - 1].1) < h,
    decreases e,
{
    if e > 0 && batch_height(s[e - 1].1) >= h {
        lemma_trim_end(s, e - 1, h);
    }
}

/// A page never splits a block: when the sorted candidates do not fit, the page holds exactly
/// the candidates below the resume height, and every candidate left out is at or above it.
pub proof fn lemma_page_at_block_boundary(s: Seq<(Bytes32, CoinRecord)>, max_items: int)
    requires
        height_id_sorted(s),
        0 <= max_items < s.len(),
    ensures
        ({
            let h = batch_height(s[max_items].1);
            let e = trim_end(s, max_items, h);
            &&& e <= max_items
            &&& forall|j: int| 0 <= j < e ==> batch_height((#[trigger] s[j]).1) < h
            &&& forall|j: int| e <= j < s.len() ==> batch_height((#[trigger] s[j]).1) >= h
        }),
{
    let h = batch_height(s[max_items].1);
    lemma_trim_end(s, max_items, h);
    let e = trim_end(s, max_items, h);
    assert forall|j: int| 0 <= j < e implies batch_height((#[trigger] s[j]).1) < h by {
        if j < e - 1 {
            assert(key_lt(s[j], s[e - 1]));
        }
    }
    assert forall|j: int| e <= j < s.len() implies batch_height((#[trigger] s[j]).1) >= h by {
        if j > max_items {
            assert(key_lt(s[max_items], s[j]));
        }
    }
}

fn batch_height_exec(r: &CoinRecord) -> (h: u64)
    ensures
        h == batch_height(*r),
{
    let s: u64 = match r.spent_height {
        Some(h) => h,
        None => 0,
    };
    if r.confirmed_height >= s {
        r.confirmed_height
    } else {
        s
    }
}

/// Whether the sorted entry list `v` holds `k`.
fn contains_entry(v: &Vec<Vec<u8>>, k: &[u8]) -> (r: bool)
    requires
        keys_sorted(key_views(v@)),
    ensures
        r == key_views(v@).contains(k@),
{
    let (p, found) = locate_entry(v, k);
    proof {
        if found {
            assert(key_views(v@)[p as int] == k@);
        } else if key_views(v@).contains(k@) {
            let j = choose|j: int| 0 <= j < key_views(v@).len() && key_views(v@)[j] == k@;
            assert(key_views(v@)[j] == v@[j]@);
            lemma_lex_lt_irreflexive(k@);
        }
    }
    found
}

/// Whether coin `p` is a candidate of the request.
fn is_candidate(
    p: &(Bytes32, CoinRecord),
    hints: &Vec<Vec<u8>>,
    phs: &[Bytes32],
    filters: &CoinStateFilters,
    min_height: u64,
) -> (r: bool)
    requires
        keys_sorted(key_views(hints@)),
    ensures
        r == batch_candidate(key_views(hints@), phs@, *filters, min_height)(*p),
{
    let rec = &p.1;
    let spent = rec.spent_height.is_some();
    if spent && !filters.include_spent {
        return false;
    }
    if !spent && !filters.include_unspent {
        return false;
    }
    if rec.confirmed_height < min_height || rec.coin.amount < filters.min_amount {
        return false;
    }
    let mut j: usize = 0;
    while j < phs.len()
        invariant
            *rec == p.1,
            rec.spent_height is Some ==> filters.include_spent,
            rec.spent_height is None ==> filters.include_unspent,
            rec.confirmed_height >= min_height,
            rec.coin.amount >= filters.min_amount,
            j <= phs@.len(),
            forall|a: int| 0 <= a < j ==> #[trigger] phs@[a]@ != rec.coin.puzzle_hash@,
        decreases phs.len() - j,
    {
        if rec.coin.puzzle_hash.equals(&phs[j]) {
            proof {
                assert(id_views(phs@)[j as int] == rec.coin.puzzle_hash@);
            }
            return true;
        }
        j = j + 1;
    }
    proof {
        if id_views(phs@).contains(rec.coin.puzzle_hash@) {
            let a = choose|a: int| 0 <= a < id_views(phs@).len() && id_views(phs@)[a] == rec.coin.puzzle_hash@;
            assert(phs@[a]@ == rec.coin.puzzle_hash@);
        }
    }
    if !filters.include_hinted {
        return false;
    }
    let mut j: usize = 0;
    while j < phs.len()
        invariant
            *rec == p.1,
            rec.spent_height is Some ==> filters.include_spent,
            rec.spent_height is None ==> filters.include_unspent,
            rec.confirmed_height >= min_height,
            rec.coin.amount >= filters.min_amount,
            filters.include_hinted,
            !id_views(phs@).contains(rec.coin.puzzle_hash@),
            keys_sorted(key_views(hints@)),
            j <= phs@.len(),
            forall|a: int| 0 <= a < j ==> !key_views(hints@).contains(hint_entry(p.0@, #[trigger] phs@[a]@)),
        decreases phs.len() - j,
    {
        let e = make_hint_entry(&p.0, phs[j].as_slice());
        if contains_entry(hints, e.as_slice()) {
            proof {
                assert(hinted_by(key_views(hints@), phs@, *p));
            }
            return true;
        }
        j = j + 1;
    }
    false
}

/// Inserts `x` before the first entry of `v` of greater height.
fn insert_sorted_by_height(v: &mut Vec<(Bytes32, CoinRecord)>, x: (Bytes32, CoinRecord))
    ensures
        final(v)@ == insert_by_height(old(v)@, x),
{
    let h = batch_height_exec(&x.1);
    let mut p: usize = 0;
    while p < v.len()
        invariant
            p <= v@.len(),
            v@ == old(v)@,
            first_above(v@, h, 0) == first_above(v@, h, p as int),
        ensures
            p <= v@.len(),
            v@ == old(v)@,
            first_above(v@, h, 0) == p,
        decreases v.len() - p,
    {
        if batch_height_exec(&v[p].1) > h {
            break;
        }
        p = p + 1;
    }
    v.insert(p, x);
}

/// The paginated batch query over a coin list and hint entries; see the module documentation.
pub fn batch_states(
    coins: &Vec<(Bytes32, CoinRecord)>,
    hints: &Vec<Vec<u8>>,
    phs: &[Bytes32],
    min_height: u64,
    filters: &CoinStateFilters,
    max_items: usize,
) -> (r: (Vec<CoinState>, Option<u64>))
    requires
        keys_sorted(key_views(hints@)),
    ensures
        (r.0@, r.1) == batch_page(
            batch_sorted(coins@, key_views(hints@), phs@, *filters, min_height),
            max_items as int,
        ),
{
    let ghost pred = batch_candidate(key_views(hints@), phs@, *filters, min_height);
    let mut sorted: Vec<(Bytes32, CoinRecord)> = Vec::new();
    let mut i: usize = 0;
    while i < coins.len()
        invariant
            keys_sorted(key_views(hints@)),
            pred == batch_candidate(key_views(hints@), phs@, *filters, min_height),
            i <= coins@.len(),
            sorted@ == sort_by_height(select(coins@.take(i as int), pred, same_entry())),
        decreases coins.len() - i,
    {
        proof {
            lemma_select_step(coins@, i as int, pred, same_entry());
        }
        let p = coins[i];
        if is_candidate(&p, hints, phs, filters, min_height) {
            proof {
                let s = select(coins@.take(i as int), pred, same_entry());
                assert(s.push(p).drop_last() =~= s);
            }
            insert_sorted_by_height(&mut sorted, p);
        }
        i = i + 1;
    }
    proof {
        lemma_take_all(coins@);
    }
    let ghost s = sorted@;
    if sorted.len() <= max_items {
        let states = entry_states_exec(&sorted, sorted.len());
        proof {
            assert(s.take(s.len() as int) =~= s);
        }
        return (states, None);
    }
    let overflow = batch_height_exec(&sorted[max_items].1);
    let mut end = max_items;
    while end > 0
        invariant
            end <= max_items < s.len(),
            sorted@ == s,
            overflow == batch_height(s[max_items as int].1),
            trim_end(s, max_items as int, overflow) == trim_end(s, end as int, overflow),
        ensures
            end <= max_items,
            trim_end(s, max_items as int, overflow) == end,
        decreases end,
    {
        if batch_height_exec(&sorted[end - 1].1) < overflow {
            break;
        }
        end = end - 1;
    }
    let states = entry_states_exec(&sorted, end);
    (states, Some(overflow))
}

/// The sync views of the first `n` entries.
fn entry_states_exec(v: &Vec<(Bytes32, CoinRecord)>, n: usize) -> (r: Vec<CoinState>)
    requires
        n <= v@.len(),
    ensures
        r@ == entry_states(v@.take(n as int)),
{
    let mut out: Vec<CoinState> = Vec::new();
    let mut i: usize = 0;
    while i < n
        invariant
            n <= v@.len(),
            i <= n,
            out@ == entry_states(v@.take(i as int)),
        decreases n - i,
    {
        out.push(v[i].1.to_coin_state());
        proof {
            assert(entry_states(v@.take(i + 1)) =~= entry_states(v@.take(i as int)).push(
                spec_coin_state(v@[i as int].1),
            ));
        }
        i = i + 1;
    }
    out
}

} // verus!
