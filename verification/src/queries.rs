//! Coin record queries over a coin list sorted by coin id.
//!
//! Every query returns records in coin id order within each requested key (puzzle hash, parent,
//! height), the order of an ordered index whose keys end in the coin id. Requests with several
//! keys return the results for each key in turn.
use crate::bytes::{zero32, Bytes32};
use crate::records::{coin_list_wf, coins_map, ids_sorted, lemma_coins_map_at, lookup_coin};
use crate::select::{
    count, flat_map, lemma_count_le_len, lemma_flat_map_complete, lemma_flat_map_member,
    lemma_flat_map_step, lemma_select_complete, lemma_select_members, lemma_select_step, lemma_sum_bound,
    lemma_sum_step, lemma_take_all, select, sum, take_upto,
};
use crate::types::{spec_coin_state, CoinRecord, CoinState, UnspentLineageInfo};
use vstd::prelude::*;

verus! {

// ─────────────────────────────────────────────────────────────────────────────
// Filters
// ─────────────────────────────────────────────────────────────────────────────

/// The index key a query selects records by.
#[derive(Clone, Copy, Debug)]
pub enum RecordFilter {
    /// Records whose coin has this puzzle hash.
    PuzzleHash(Bytes32),
    /// Records whose coin has this parent coin id.
    Parent(Bytes32),
    /// Records confirmed at this height.
    Confirmed(u64),
    /// Records spent at this height.
    Spent(u64),
}

/// `r` has the key `f` selects.
pub open spec fn filter_matches(f: RecordFilter, r: CoinRecord) -> bool {
    match f {
        RecordFilter::PuzzleHash(ph) => r.coin.puzzle_hash@ == ph@,
        RecordFilter::Parent(p) => r.coin.parent_coin_info@ == p@,
        RecordFilter::Confirmed(h) => r.confirmed_height == h,
        RecordFilter::Spent(h) => r.spent_height == Some(h),
    }
}

/// `r` passes the spent filter and its confirmed height lies in `start..=end`.
pub open spec fn passes(r: CoinRecord, include_spent: bool, start: u64, end: u64) -> bool {
    &&& include_spent || r.spent_height is None
    &&& start <= r.confirmed_height
    &&& r.confirmed_height <= end
}

/// List entries whose record has key `f` and passes the filters.
pub open spec fn record_pred(f: RecordFilter, include_spent: bool, start: u64, end: u64) -> spec_fn(
    (Bytes32, CoinRecord),
) -> bool {
    |p: (Bytes32, CoinRecord)| filter_matches(f, p.1) && passes(p.1, include_spent, start, end)
}

/// The record of a list entry.
pub open spec fn rec_of() -> spec_fn((Bytes32, CoinRecord)) -> CoinRecord {
    |p: (Bytes32, CoinRecord)| p.1
}

/// The records of `coins` with key `f` that pass the filters, in coin id order.
pub open spec fn records_matching(
    coins: Seq<(Bytes32, CoinRecord)>,
    f: RecordFilter,
    include_spent: bool,
    start: u64,
    end: u64,
) -> Seq<CoinRecord> {
    select(coins, record_pred(f, include_spent, start, end), rec_of())
}

fn filter_matches_exec(f: &RecordFilter, r: &CoinRecord) -> (b: bool)
    ensures
        b == filter_matches(*f, *r),
{
    match f {
        RecordFilter::PuzzleHash(ph) => r.coin.puzzle_hash.equals(ph),
        RecordFilter::Parent(p) => r.coin.parent_coin_info.equals(p),
        RecordFilter::Confirmed(h) => r.confirmed_height == *h,
        RecordFilter::Spent(h) => match r.spent_height {
            Some(s) => s == *h,
            None => false,
        },
    }
}

fn passes_exec(r: &CoinRecord, include_spent: bool, start: u64, end: u64) -> (b: bool)
    ensures
        b == passes(*r, include_spent, start, end),
{
    (include_spent || r.spent_height.is_none()) && start <= r.confirmed_height
        && r.confirmed_height <= end
}

/// The records of `coins` with key `f` that pass the filters, in coin id order.
pub fn collect_records(
    coins: &Vec<(Bytes32, CoinRecord)>,
    f: &RecordFilter,
    include_spent: bool,
    start: u64,
    end: u64,
) -> (r: Vec<CoinRecord>)
    ensures
        r@ == records_matching(coins@, *f, include_spent, start, end),
{
    let ghost pred = record_pred(*f, include_spent, start, end);
    let mut out: Vec<CoinRecord> = Vec::new();
    let mut i: usize = 0;
    while i < coins.len()
        invariant
            i <= coins@.len(),
            pred == record_pred(*f, include_spent, start, end),
            out@ == select(coins@.take(i as int), pred, rec_of()),
        decreases coins.len() - i,
    {
        proof {
            lemma_select_step(coins@, i as int, pred, rec_of());
        }
        let rec = coins[i].1;
        if filter_matches_exec(f, &rec) && passes_exec(&rec, include_spent, start, end) {
            out.push(rec);
        }
        i = i + 1;
    }
    proof {
        lemma_take_all(coins@);
    }
    out
}

// ─────────────────────────────────────────────────────────────────────────────
// Multi-key queries
// ─────────────────────────────────────────────────────────────────────────────

/// For a key, the matching records.
pub open spec fn by_key(
    coins: Seq<(Bytes32, CoinRecord)>,
    make: spec_fn(Bytes32) -> RecordFilter,
    include_spent: bool,
    start: u64,
    end: u64,
) -> spec_fn(Bytes32) -> Seq<CoinRecord> {
    |k: Bytes32| records_matching(coins, make(k), include_spent, start, end)
}

/// A record query answers exactly the records of the list that have the requested key, pass the
/// spent filter and were confirmed within `start..=end`.
pub proof fn lemma_records_matching_exact(
    coins: Seq<(Bytes32, CoinRecord)>,
    f: RecordFilter,
    include_spent: bool,
    start: u64,
    end: u64,
)
    ensures
        forall|k: int|
            #![trigger records_matching(coins, f, include_spent, start, end)[k]]
            0 <= k < records_matching(coins, f, include_spent, start, end).len() ==> {
                &&& start <= records_matching(coins, f, include_spent, start, end)[k].confirmed_height
                &&& records_matching(coins, f, include_spent, start, end)[k].confirmed_height <= end
                &&& (include_spent || records_matching(
                    coins,
                    f,
                    include_spent,
                    start,
                    end,
                )[k].spent_height is None)
                &&& match f {
                    RecordFilter::PuzzleHash(ph) => records_matching(
                        coins,
                        f,
                        include_spent,
                        start,
                        end,
                    )[k].coin.puzzle_hash@ == ph@,
                    RecordFilter::Parent(pa) => records_matching(
                        coins,
                        f,
                        include_spent,
                        start,
                        end,
                    )[k].coin.parent_coin_info@ == pa@,
                    RecordFilter::Confirmed(h) => records_matching(
                        coins,
                        f,
                        include_spent,
                        start,
                        end,
                    )[k].confirmed_height == h,
                    RecordFilter::Spent(h) => records_matching(
                        coins,
                        f,
                        include_spent,
                        start,
                        end,
                    )[k].spent_height == Some(h),
                }
                &&& exists|i: int|
                    0 <= i < coins.len() && (#[trigger] coins[i]).1 == records_matching(
                        coins,
                        f,
                        include_spent,
                        start,
                        end,
                    )[k]
            },
        forall|i: int|
            0 <= i < coins.len() && start <= (#[trigger] coins[i]).1.confirmed_height <= end && (
            include_spent || coins[i].1.spent_height is None) && match f {
                RecordFilter::PuzzleHash(ph) => coins[i].1.coin.puzzle_hash@ == ph@,
                RecordFilter::Parent(pa) => coins[i].1.coin.parent_coin_info@ == pa@,
                RecordFilter::Confirmed(h) => coins[i].1.confirmed_height == h,
                RecordFilter::Spent(h) => coins[i].1.spent_height == Some(h),
            } ==> records_matching(coins, f, include_spent, start, end).contains(coins[i].1),
{
    let pred = record_pred(f, include_spent, start, end);
    let res = records_matching(coins, f, include_spent, start, end);
    assert forall|k: int| 0 <= k < res.len() implies start <= (#[trigger] res[k]).confirmed_height
        && res[k].confirmed_height <= end && (include_spent || res[k].spent_height is None)
        && filter_matches(f, res[k]) && exists|i: int| 0 <= i < coins.len() && (#[trigger] coins[i]).1
        == res[k] by {
        lemma_select_members(coins, pred, rec_of(), k);
        let i = choose|i: int| 0 <= i < coins.len() && pred(coins[i]) && res[k] == rec_of()(#[trigger] coins[i]);
        assert(coins[i].1 == res[k]);
    }
    assert forall|i: int|
        0 <= i < coins.len() && start <= (#[trigger] coins[i]).1.confirmed_height <= end && (
        include_spent || coins[i].1.spent_height is None) && filter_matches(f, coins[i].1)
            implies res.contains(coins[i].1) by {
        lemma_select_complete(coins, pred, rec_of(), i);
    }
}

/// Every record a multi-key record query answers lies in the list, passes the spent filter and
/// was confirmed within `start..=end`.
pub proof fn lemma_records_for_keys_in_range(
    coins: Seq<(Bytes32, CoinRecord)>,
    keys: Seq<Bytes32>,
    make: spec_fn(Bytes32) -> RecordFilter,
    include_spent: bool,
    start: u64,
    end: u64,
)
    ensures
        forall|k: int|
            #![trigger records_for_keys(coins, keys, make, include_spent, start, end)[k]]
            0 <= k < records_for_keys(coins, keys, make, include_spent, start, end).len() ==> {
                let r = records_for_keys(coins, keys, make, include_spent, start, end)[k];
                &&& start <= r.confirmed_height <= end
                &&& (include_spent || r.spent_height is None)
                &&& exists|i: int| 0 <= i < coins.len() && (#[trigger] coins[i]).1 == r
            },
{
    let g = by_key(coins, make, include_spent, start, end);
    let res = records_for_keys(coins, keys, make, include_spent, start, end);
    assert forall|k: int| 0 <= k < res.len() implies {
        let r = #[trigger] res[k];
        &&& start <= r.confirmed_height <= end
        &&& (include_spent || r.spent_height is None)
        &&& exists|i: int| 0 <= i < coins.len() && (#[trigger] coins[i]).1 == r
    } by {
        lemma_flat_map_member(keys, g, k);
        let (j, t) = choose|j: int, t: int|
            0 <= j < keys.len() && 0 <= t < g(keys[j]).len() && #[trigger] g(keys[j])[t] == res[k];
        lemma_records_matching_exact(coins, make(keys[j]), include_spent, start, end);
        assert(g(keys[j]) == records_matching(coins, make(keys[j]), include_spent, start, end));
    }
}

/// Every record a puzzle hash query answers has one of the requested puzzle hashes, and every
/// record a parent query answers has one of the requested parents.
pub proof fn lemma_records_for_keys_match(
    coins: Seq<(Bytes32, CoinRecord)>,
    keys: Seq<Bytes32>,
    include_spent: bool,
    start: u64,
    end: u64,
)
    ensures
        forall|k: int|
            #![trigger records_for_keys(coins, keys, ph_key(), include_spent, start, end)[k]]
            0 <= k < records_for_keys(coins, keys, ph_key(), include_spent, start, end).len()
                ==> exists|j: int|
                0 <= j < keys.len() && records_for_keys(
                    coins,
                    keys,
                    ph_key(),
                    include_spent,
                    start,
                    end,
                )[k].coin.puzzle_hash@ == (#[trigger] keys[j])@,
        forall|k: int|
            #![trigger records_for_keys(coins, keys, parent_key(), include_spent, start, end)[k]]
            0 <= k < records_for_keys(coins, keys, parent_key(), include_spent, start, end).len()
                ==> exists|j: int|
                0 <= j < keys.len() && records_for_keys(
                    coins,
                    keys,
                    parent_key(),
                    include_spent,
                    start,
                    end,
                )[k].coin.parent_coin_info@ == (#[trigger] keys[j])@,
{
    let g = by_key(coins, ph_key(), include_spent, start, end);
    let res = records_for_keys(coins, keys, ph_key(), include_spent, start, end);
    assert forall|k: int| 0 <= k < res.len() implies exists|j: int|
        0 <= j < keys.len() && (#[trigger] res[k]).coin.puzzle_hash@ == (#[trigger] keys[j])@ by {
        lemma_flat_map_member(keys, g, k);
        let (j, t) = choose|j: int, t: int|
            0 <= j < keys.len() && 0 <= t < g(keys[j]).len() && #[trigger] g(keys[j])[t] == res[k];
        lemma_records_matching_exact(coins, ph_key()(keys[j]), include_spent, start, end);
        assert(g(keys[j]) == records_matching(coins, ph_key()(keys[j]), include_spent, start, end));
        assert(g(keys[j])[t] == records_matching(coins, ph_key()(keys[j]), include_spent, start, end)[t]);
    }
    let g2 = by_key(coins, parent_key(), include_spent, start, end);
    let res2 = records_for_keys(coins, keys, parent_key(), include_spent, start, end);
    assert forall|k: int| 0 <= k < res2.len() implies exists|j: int|
        0 <= j < keys.len() && (#[trigger] res2[k]).coin.parent_coin_info@ == (#[trigger] keys[j])@ by {
        lemma_flat_map_member(keys, g2, k);
        let (j, t) = choose|j: int, t: int|
            0 <= j < keys.len() && 0 <= t < g2(keys[j]).len() && #[trigger] g2(keys[j])[t] == res2[k];
        lemma_records_matching_exact(coins, parent_key()(keys[j]), include_spent, start, end);
        assert(g2(keys[j]) == records_matching(coins, parent_key()(keys[j]), include_spent, start, end));
        assert(g2(keys[j])[t] == records_matching(coins, parent_key()(keys[j]), include_spent, start, end)[t]);
    }
}

/// The puzzle hash filter, as a function of the puzzle hash.
pub open spec fn ph_key() -> spec_fn(Bytes32) -> RecordFilter {
    |k: Bytes32| RecordFilter::PuzzleHash(k)
}

/// The parent filter, as a function of the parent id.
pub open spec fn parent_key() -> spec_fn(Bytes32) -> RecordFilter {
    |k: Bytes32| RecordFilter::Parent(k)
}

/// For each key of `keys` in turn, the matching records.
pub open spec fn records_for_keys(
    coins: Seq<(Bytes32, CoinRecord)>,
    keys: Seq<Bytes32>,
    make: spec_fn(Bytes32) -> RecordFilter,
    include_spent: bool,
    start: u64,
    end: u64,
) -> Seq<CoinRecord> {
    flat_map(keys, by_key(coins, make, include_spent, start, end))
}

/// For each puzzle hash (`by_parent == false`) or parent id (`by_parent == true`) of `keys` in
/// turn, the matching records.
pub fn collect_for_keys(
    coins: &Vec<(Bytes32, CoinRecord)>,
    keys: &[Bytes32],
    by_parent: bool,
    include_spent: bool,
    start: u64,
    end: u64,
) -> (r: Vec<CoinRecord>)
    ensures
        r@ == records_for_keys(
            coins@,
            keys@,
            if by_parent {
                parent_key()
            } else {
                ph_key()
            },
            include_spent,
            start,
            end,
        ),
{
    let ghost make = if by_parent {
        parent_key()
    } else {
        ph_key()
    };
    let ghost img = by_key(coins@, make, include_spent, start, end);
    let mut out: Vec<CoinRecord> = Vec::new();
    let mut i: usize = 0;
    while i < keys.len()
        invariant
            i <= keys@.len(),
            make == (if by_parent {
                parent_key()
            } else {
                ph_key()
            }),
            img == by_key(coins@, make, include_spent, start, end),
            out@ == flat_map(keys@.take(i as int), img),
        decreases keys.len() - i,
    {
        proof {
            lemma_flat_map_step(keys@, i as int, img);
        }
        let f = if by_parent {
            RecordFilter::Parent(keys[i])
        } else {
            RecordFilter::PuzzleHash(keys[i])
        };
        assert(f == make(keys@[i as int]));
        let mut part = collect_records(coins, &f, include_spent, start, end);
        let ghost before = out@;
        out.append(&mut part);
        assert(out@ =~= before + img(keys@[i as int]));
        i = i + 1;
    }
    proof {
        lemma_take_all(keys@);
    }
    out
}

// ─────────────────────────────────────────────────────────────────────────────
// Lookups by coin id
// ─────────────────────────────────────────────────────────────────────────────

/// The views of a list of ids.
pub open spec fn id_views(ids: Seq<Bytes32>) -> Seq<Seq<u8>> {
    ids.map_values(|b: Bytes32| b@)
}

/// The records of the ids of `ids` that are in `m`, each id once, in order of first occurrence.
pub open spec fn records_by_ids(m: Map<Seq<u8>, CoinRecord>, ids: Seq<Bytes32>) -> Seq<CoinRecord>
    decreases ids.len(),
{
    if ids.len() == 0 {
        Seq::empty()
    } else {
        let prev = records_by_ids(m, ids.drop_last());
        let id = ids.last();
        if m.dom().contains(id@) && !id_views(ids.drop_last()).contains(id@) {
            prev.push(m[id@])
        } else {
            prev
        }
    }
}

/// For an id, its record when it exists and passes the filters.
pub open spec fn name_image(
    m: Map<Seq<u8>, CoinRecord>,
    include_spent: bool,
    start: u64,
    end: u64,
) -> spec_fn(Bytes32) -> Seq<CoinRecord> {
    |id: Bytes32|
        if m.dom().contains(id@) && passes(m[id@], include_spent, start, end) {
            seq![m[id@]]
        } else {
            Seq::empty()
        }
}

/// For an id, the sync view of its record when it exists and passes the filters.
pub open spec fn state_image(
    m: Map<Seq<u8>, CoinRecord>,
    include_spent: bool,
    start: u64,
    end: u64,
) -> spec_fn(Bytes32) -> Seq<CoinState> {
    |id: Bytes32|
        if m.dom().contains(id@) && passes(m[id@], include_spent, start, end) {
            seq![spec_coin_state(m[id@])]
        } else {
            Seq::empty()
        }
}

/// A lookup by names answers, for each name in turn, the record of that coin when it exists,
/// passes the spent filter and was confirmed within `start..=end`, and nothing else.
pub proof fn lemma_names_exact(
    m: Map<Seq<u8>, CoinRecord>,
    ids: Seq<Bytes32>,
    include_spent: bool,
    start: u64,
    end: u64,
)
    ensures
        forall|k: int|
            #![trigger flat_map(ids, name_image(m, include_spent, start, end))[k]]
            0 <= k < flat_map(ids, name_image(m, include_spent, start, end)).len() ==> exists|j: int|
                0 <= j < ids.len() && m.dom().contains((#[trigger] ids[j])@) && flat_map(
                    ids,
                    name_image(m, include_spent, start, end),
                )[k] == m[ids[j]@] && start <= m[ids[j]@].confirmed_height <= end && (include_spent
                    || m[ids[j]@].spent_height is None),
        forall|j: int|
            0 <= j < ids.len() && m.dom().contains((#[trigger] ids[j])@) && start
                <= m[ids[j]@].confirmed_height <= end && (include_spent || m[ids[j]@].spent_height
                is None) ==> flat_map(ids, name_image(m, include_spent, start, end)).contains(
                m[ids[j]@],
            ),
{
    let g = name_image(m, include_spent, start, end);
    let res = flat_map(ids, g);
    assert forall|k: int| 0 <= k < res.len() implies exists|j: int|
        0 <= j < ids.len() && m.dom().contains((#[trigger] ids[j])@) && #[trigger] res[k] == m[ids[j]@] && start
            <= m[ids[j]@].confirmed_height <= end && (include_spent || m[ids[j]@].spent_height
            is None) by {
        lemma_flat_map_member(ids, g, k);
        let (j, t) = choose|j: int, t: int|
            0 <= j < ids.len() && 0 <= t < g(ids[j]).len() && #[trigger] g(ids[j])[t] == res[k];
    }
    assert forall|j: int|
        0 <= j < ids.len() && m.dom().contains((#[trigger] ids[j])@) && start
            <= m[ids[j]@].confirmed_height <= end && (include_spent || m[ids[j]@].spent_height
            is None) implies res.contains(m[ids[j]@]) by {
        assert(g(ids[j])[0] == m[ids[j]@]);
        lemma_flat_map_complete(ids, g, j, 0);
    }
}

/// A coin state lookup by ids answers, for each id in turn, the sync view of that coin's record
/// when it exists, passes the spent filter and was confirmed within `start..=end`, and nothing
/// else.
pub proof fn lemma_states_by_ids_exact(
    m: Map<Seq<u8>, CoinRecord>,
    ids: Seq<Bytes32>,
    include_spent: bool,
    start: u64,
    end: u64,
)
    ensures
        forall|k: int|
            #![trigger flat_map(ids, state_image(m, include_spent, start, end))[k]]
            0 <= k < flat_map(ids, state_image(m, include_spent, start, end)).len() ==> exists|j: int|
                0 <= j < ids.len() && m.dom().contains((#[trigger] ids[j])@) && flat_map(
                    ids,
                    state_image(m, include_spent, start, end),
                )[k] == spec_coin_state(m[ids[j]@]) && start <= m[ids[j]@].confirmed_height <= end
                    && (include_spent || m[ids[j]@].spent_height is None),
        forall|j: int|
            0 <= j < ids.len() && m.dom().contains((#[trigger] ids[j])@) && start
                <= m[ids[j]@].confirmed_height <= end && (include_spent || m[ids[j]@].spent_height
                is None) ==> flat_map(ids, state_image(m, include_spent, start, end)).contains(
                spec_coin_state(m[ids[j]@]),
            ),
{
    let g = state_image(m, include_spent, start, end);
    let res = flat_map(ids, g);
    assert forall|k: int| 0 <= k < res.len() implies exists|j: int|
        0 <= j < ids.len() && m.dom().contains((#[trigger] ids[j])@) && #[trigger] res[k] == spec_coin_state(
            m[ids[j]@],
        ) && start <= m[ids[j]@].confirmed_height <= end && (include_spent
            || m[ids[j]@].spent_height is None) by {
        lemma_flat_map_member(ids, g, k);
        let (j, t) = choose|j: int, t: int|
            0 <= j < ids.len() && 0 <= t < g(ids[j]).len() && #[trigger] g(ids[j])[t] == res[k];
    }
    assert forall|j: int|
        0 <= j < ids.len() && m.dom().contains((#[trigger] ids[j])@) && start
            <= m[ids[j]@].confirmed_height <= end && (include_spent || m[ids[j]@].spent_height
            is None) implies res.contains(spec_coin_state(m[ids[j]@])) by {
        assert(g(ids[j])[0] == spec_coin_state(m[ids[j]@]));
        lemma_flat_map_complete(ids, g, j, 0);
    }
}

/// The sync views of records.
pub open spec fn states_of(s: Seq<CoinRecord>) -> Seq<CoinState> {
    s.map_values(|r: CoinRecord| spec_coin_state(r))
}

/// Appending to a list capped at `max` keeps it capped.
pub proof fn lemma_take_upto_push<A>(s: Seq<A>, x: A, max: int)
    requires
        max >= 0,
    ensures
        take_upto(s.push(x), max) == if s.len() < max {
            s.push(x)
        } else {
            take_upto(s, max)
        },
{
    if s.len() >= max {
        assert(s.push(x).take(max) =~= s.take(max));
        if max == s.len() {
            assert(s.take(max) =~= s);
        }
    }
}

/// Whether `id` occurs among the first `n` ids.
fn id_in_prefix(ids: &[Bytes32], n: usize, id: &Bytes32) -> (r: bool)
    requires
        n <= ids@.len(),
    ensures
        r == id_views(ids@.take(n as int)).contains(id@),
{
    let mut j: usize = 0;
    while j < n
        invariant
            n <= ids@.len(),
            j <= n,
            forall|a: int| 0 <= a < j ==> #[trigger] ids@[a]@ != id@,
        decreases n - j,
    {
        if ids[j].equals(id) {
            proof {
                assert(id_views(ids@.take(n as int))[j as int] == id@);
            }
            return true;
        }
        j = j + 1;
    }
    proof {
        if id_views(ids@.take(n as int)).contains(id@) {
            let a = choose|a: int| 0 <= a < n && id_views(ids@.take(n as int))[a] == id@;
            assert(ids@[a]@ == id@);
        }
    }
    false
}

/// The records of the ids of `ids` present in `coins`, each id once.
pub fn lookup_distinct(coins: &Vec<(Bytes32, CoinRecord)>, ids: &[Bytes32]) -> (r: Vec<CoinRecord>)
    requires
        ids_sorted(coins@),
    ensures
        r@ == records_by_ids(coins_map(coins@), ids@),
{
    let ghost m = coins_map(coins@);
    let mut out: Vec<CoinRecord> = Vec::new();
    let mut i: usize = 0;
    while i < ids.len()
        invariant
            ids_sorted(coins@),
            m == coins_map(coins@),
            i <= ids@.len(),
            out@ == records_by_ids(m, ids@.take(i as int)),
        decreases ids.len() - i,
    {
        proof {
            assert(ids@.take(i + 1).drop_last() =~= ids@.take(i as int));
            assert(ids@.take(i + 1).last() == ids@[i as int]);
        }
        let seen = id_in_prefix(ids, i, &ids[i]);
        match lookup_coin(coins, &ids[i]) {
            Some(rec) => {
                if !seen {
                    out.push(rec);
                }
            },
            None => {},
        }
        i = i + 1;
    }
    proof {
        lemma_take_all(ids@);
    }
    out
}

/// For each id of `ids` in turn, its record when it exists and passes the filters.
pub fn lookup_filtered(
    coins: &Vec<(Bytes32, CoinRecord)>,
    ids: &[Bytes32],
    include_spent: bool,
    start: u64,
    end: u64,
) -> (r: Vec<CoinRecord>)
    requires
        ids_sorted(coins@),
    ensures
        r@ == flat_map(ids@, name_image(coins_map(coins@), include_spent, start, end)),
{
    let ghost img = name_image(coins_map(coins@), include_spent, start, end);
    let mut out: Vec<CoinRecord> = Vec::new();
    let mut i: usize = 0;
    while i < ids.len()
        invariant
            ids_sorted(coins@),
            img == name_image(coins_map(coins@), include_spent, start, end),
            i <= ids@.len(),
            out@ == flat_map(ids@.take(i as int), img),
        decreases ids.len() - i,
    {
        proof {
            lemma_flat_map_step(ids@, i as int, img);
        }
        let ghost before = out@;
        match lookup_coin(coins, &ids[i]) {
            Some(rec) => {
                if passes_exec(&rec, include_spent, start, end) {
                    out.push(rec);
                }
            },
            None => {},
        }
        assert(out@ =~= before + img(ids@[i as int]));
        i = i + 1;
    }
    proof {
        lemma_take_all(ids@);
    }
    out
}

/// For each id of `ids` in turn, the sync view of its record when it exists and passes the
/// filters; at most `max_items` in all.
pub fn lookup_states(
    coins: &Vec<(Bytes32, CoinRecord)>,
    ids: &[Bytes32],
    include_spent: bool,
    start: u64,
    end: u64,
    max_items: usize,
) -> (r: Vec<CoinState>)
    requires
        ids_sorted(coins@),
    ensures
        r@ == take_upto(
            flat_map(ids@, state_image(coins_map(coins@), include_spent, start, end)),
            max_items as int,
        ),
{
    let ghost img = state_image(coins_map(coins@), include_spent, start, end);
    let mut out: Vec<CoinState> = Vec::new();
    let mut i: usize = 0;
    while i < ids.len()
        invariant
            ids_sorted(coins@),
            img == state_image(coins_map(coins@), include_spent, start, end),
            i <= ids@.len(),
            out@ == take_upto(flat_map(ids@.take(i as int), img), max_items as int),
        decreases ids.len() - i,
    {
        proof {
            lemma_flat_map_step(ids@, i as int, img);
        }
        let ghost prev = flat_map(ids@.take(i as int), img);
        match lookup_coin(coins, &ids[i]) {
            Some(rec) => {
                if passes_exec(&rec, include_spent, start, end) {
                    proof {
                        assert(img(ids@[i as int]) =~= seq![spec_coin_state(rec)]);
                        assert(prev + seq![spec_coin_state(rec)] =~= prev.push(spec_coin_state(rec)));
                        lemma_take_upto_push(prev, spec_coin_state(rec), max_items as int);
                    }
                    if out.len() < max_items {
                        out.push(rec.to_coin_state());
                    }
                } else {
                    assert(prev + img(ids@[i as int]) =~= prev);
                }
            },
            None => {
                assert(prev + img(ids@[i as int]) =~= prev);
            },
        }
        i = i + 1;
    }
    proof {
        lemma_take_all(ids@);
    }
    out
}

/// The sync views of records, at most `max_items`.
pub fn states_upto(recs: &Vec<CoinRecord>, max_items: usize) -> (r: Vec<CoinState>)
    ensures
        r@ == take_upto(states_of(recs@), max_items as int),
{
    let mut out: Vec<CoinState> = Vec::new();
    let mut i: usize = 0;
    while i < recs.len()
        invariant
            i <= recs@.len(),
            out@ == take_upto(states_of(recs@.take(i as int)), max_items as int),
        decreases recs.len() - i,
    {
        proof {
            assert(states_of(recs@.take(i + 1)) =~= states_of(recs@.take(i as int)).push(
                spec_coin_state(recs@[i as int]),
            ));
            lemma_take_upto_push(
                states_of(recs@.take(i as int)),
                spec_coin_state(recs@[i as int]),
                max_items as int,
            );
        }
        if out.len() < max_items {
            out.push(recs[i].to_coin_state());
        }
        i = i + 1;
    }
    proof {
        lemma_take_all(recs@);
    }
    out
}

// ─────────────────────────────────────────────────────────────────────────────
// Aggregates
// ─────────────────────────────────────────────────────────────────────────────

/// List entries whose record is unspent.
pub open spec fn unspent_entry() -> spec_fn((Bytes32, CoinRecord)) -> bool {
    |p: (Bytes32, CoinRecord)| p.1.spent_height is None
}

/// List entries whose record is spent.
pub open spec fn spent_entry() -> spec_fn((Bytes32, CoinRecord)) -> bool {
    |p: (Bytes32, CoinRecord)| p.1.spent_height is Some
}

/// The amount of an entry's coin.
pub open spec fn amount_of() -> spec_fn((Bytes32, CoinRecord)) -> int {
    |p: (Bytes32, CoinRecord)| p.1.coin.amount as int
}

/// Every record is either unspent or spent.
pub proof fn lemma_counts_partition(coins: Seq<(Bytes32, CoinRecord)>)
    ensures
        count(coins, unspent_entry()) + count(coins, spent_entry()) == coins.len(),
    decreases coins.len(),
{
    if coins.len() > 0 {
        lemma_counts_partition(coins.drop_last());
    }
}

/// Number of unspent records.
pub fn count_unspent(coins: &Vec<(Bytes32, CoinRecord)>) -> (r: usize)
    ensures
        r == count(coins@, unspent_entry()),
{
    let mut n: usize = 0;
    let mut i: usize = 0;
    while i < coins.len()
        invariant
            i <= coins@.len(),
            n == count(coins@.take(i as int), unspent_entry()),
            n <= i,
        decreases coins.len() - i,
    {
        proof {
            lemma_select_step(coins@, i as int, unspent_entry(), rec_of());
        }
        if coins[i].1.spent_height.is_none() {
            n = n + 1;
        }
        i = i + 1;
    }
    proof {
        lemma_take_all(coins@);
    }
    n
}

/// Number of spent records.
pub fn count_spent(coins: &Vec<(Bytes32, CoinRecord)>) -> (r: usize)
    ensures
        r == count(coins@, spent_entry()),
{
    let mut n: usize = 0;
    let mut i: usize = 0;
    while i < coins.len()
        invariant
            i <= coins@.len(),
            n == count(coins@.take(i as int), spent_entry()),
            n <= i,
        decreases coins.len() - i,
    {
        proof {
            lemma_select_step(coins@, i as int, spent_entry(), rec_of());
        }
        if coins[i].1.spent_height.is_some() {
            n = n + 1;
        }
        i = i + 1;
    }
    proof {
        lemma_take_all(coins@);
    }
    n
}

/// Sum of the amounts of unspent records.
pub fn sum_unspent(coins: &Vec<(Bytes32, CoinRecord)>) -> (r: u128)
    ensures
        r == sum(coins@, unspent_entry(), amount_of()),
{
    let mut total: u128 = 0;
    let mut i: usize = 0;
    let n = coins.len();
    while i < n
        invariant
            n == coins@.len(),
            i <= n,
            total == sum(coins@.take(i as int), unspent_entry(), amount_of()),
            total <= i * 0xffff_ffff_ffff_ffffu128,
        decreases n - i,
    {
        proof {
            lemma_sum_step(coins@, i as int, unspent_entry(), amount_of());
            assert(i * 0xffff_ffff_ffff_ffffu128 + 0xffff_ffff_ffff_ffffu128 == (i + 1)
                * 0xffff_ffff_ffff_ffffu128) by (nonlinear_arith);
            assert((i + 1) * 0xffff_ffff_ffff_ffffu128 <= 0xffff_ffff_ffff_ffffu128
                * 0xffff_ffff_ffff_ffffu128) by (nonlinear_arith)
                requires
                    i + 1 <= 0xffff_ffff_ffff_ffffu128,
            ;
        }
        if coins[i].1.spent_height.is_none() {
            total = total + coins[i].1.coin.amount as u128;
        }
        i = i + 1;
    }
    proof {
        lemma_take_all(coins@);
    }
    total
}

/// The total unspent amount of a coin list, saturating at `u64::MAX`.
pub open spec fn saturated_unspent_total(coins: Seq<(Bytes32, CoinRecord)>) -> int {
    if sum(coins, unspent_entry(), amount_of()) > u64::MAX {
        u64::MAX as int
    } else {
        sum(coins, unspent_entry(), amount_of())
    }
}

/// Sum of the amounts of unspent records, saturating at `u64::MAX`.
pub fn sum_unspent_saturating(coins: &Vec<(Bytes32, CoinRecord)>) -> (r: u64)
    ensures
        r == saturated_unspent_total(coins@),
{
    let mut total: u64 = 0;
    let mut i: usize = 0;
    while i < coins.len()
        invariant
            i <= coins@.len(),
            total == if sum(coins@.take(i as int), unspent_entry(), amount_of()) > u64::MAX {
                u64::MAX as int
            } else {
                sum(coins@.take(i as int), unspent_entry(), amount_of())
            },
        decreases coins.len() - i,
    {
        proof {
            lemma_sum_step(coins@, i as int, unspent_entry(), amount_of());
            lemma_sum_bound(coins@.take(i as int), unspent_entry(), amount_of(), u64::MAX as int);
        }
        if coins[i].1.spent_height.is_none() {
            total = total.saturating_add(coins[i].1.coin.amount);
        }
        i = i + 1;
    }
    proof {
        lemma_take_all(coins@);
    }
    total
}

/// A sum over a prefix is at most the sum over the whole sequence.
pub proof fn lemma_sum_prefix_le(
    s: Seq<(Bytes32, CoinRecord)>,
    i: int,
    pred: spec_fn((Bytes32, CoinRecord)) -> bool,
)
    requires
        0 <= i <= s.len(),
    ensures
        sum(s.take(i), pred, amount_of()) <= sum(s, pred, amount_of()),
    decreases s.len() - i,
{
    if i < s.len() {
        lemma_sum_prefix_le(s, i + 1, pred);
        lemma_sum_step(s, i, pred, amount_of());
    } else {
        lemma_take_all(s);
    }
}

/// `v` lists each puzzle hash of the unspent coins of `coins` once, with the total amount and
/// the number of unspent coins that have it.
pub open spec fn aggregate_ok(coins: Seq<(Bytes32, CoinRecord)>, v: Seq<(Bytes32, (u64, usize))>) -> bool {
    &&& forall|a: int, b: int| 0 <= a < b < v.len() ==> #[trigger] v[a].0@ != #[trigger] v[b].0@
    &&& forall|a: int|
        0 <= a < v.len() ==> (#[trigger] v[a]).1.0 == sum(coins, unspent_with_ph(v[a].0@), amount_of())
            && v[a].1.1 == count(coins, unspent_with_ph(v[a].0@)) && v[a].1.1 > 0
    &&& forall|i: int|
        0 <= i < coins.len() && (#[trigger] coins[i]).1.spent_height is None ==> exists|a: int|
            0 <= a < v.len() && v[a].0@ == coins[i].1.coin.puzzle_hash@
}

/// For each puzzle hash of the unspent coins, in order of first appearance: the total amount and
/// number of unspent coins with that puzzle hash.
pub fn aggregate_unspent(coins: &Vec<(Bytes32, CoinRecord)>) -> (r: Vec<(Bytes32, (u64, usize))>)
    requires
        forall|ph: Seq<u8>| sum(coins@, #[trigger] unspent_with_ph(ph), amount_of()) <= u64::MAX,
    ensures
        aggregate_ok(coins@, r@),
{
    let mut out: Vec<(Bytes32, (u64, usize))> = Vec::new();
    let mut i: usize = 0;
    while i < coins.len()
        invariant
            i <= coins@.len(),
            forall|ph: Seq<u8>| sum(coins@, #[trigger] unspent_with_ph(ph), amount_of()) <= u64::MAX,
            forall|a: int, b: int| 0 <= a < b < out@.len() ==> #[trigger] out@[a].0@ != #[trigger] out@[b].0@,
            forall|a: int|
                0 <= a < out@.len() ==> (#[trigger] out@[a]).1.0 == sum(
                    coins@.take(i as int),
                    unspent_with_ph(out@[a].0@),
                    amount_of(),
                ) && out@[a].1.1 == count(coins@.take(i as int), unspent_with_ph(out@[a].0@))
                    && out@[a].1.1 > 0,
            forall|k: int|
                0 <= k < i && (#[trigger] coins@[k]).1.spent_height is None ==> exists|a: int|
                    0 <= a < out@.len() && out@[a].0@ == coins@[k].1.coin.puzzle_hash@,
        decreases coins.len() - i,
    {
        let rec = coins[i].1;
        let ghost before = out@;
        proof {
            assert forall|ph: Seq<u8>| #![trigger unspent_with_ph(ph)] sum(
                coins@.take(i + 1),
                unspent_with_ph(ph),
                amount_of(),
            ) == sum(coins@.take(i as int), unspent_with_ph(ph), amount_of()) + if unspent_with_ph(ph)(
                coins@[i as int],
            ) {
                rec.coin.amount as int
            } else {
                0
            } && count(coins@.take(i + 1), unspent_with_ph(ph)) == count(
                coins@.take(i as int),
                unspent_with_ph(ph),
            ) + if unspent_with_ph(ph)(coins@[i as int]) {
                1nat
            } else {
                0nat
            } by {
                lemma_sum_step(coins@, i as int, unspent_with_ph(ph), amount_of());
                lemma_select_step(coins@, i as int, unspent_with_ph(ph), rec_of());
            }
        }
        if rec.spent_height.is_none() {
            let mut j: usize = 0;
            let mut found = false;
            while j < out.len()
                invariant
                    j <= out@.len(),
                    out@ == before,
                    !found ==> forall|a: int| 0 <= a < j ==> #[trigger] out@[a].0@ != rec.coin.puzzle_hash@,
                    found ==> j < out@.len() && out@[j as int].0@ == rec.coin.puzzle_hash@,
                ensures
                    out@ == before,
                    !found ==> forall|a: int| 0 <= a < out@.len() ==> #[trigger] out@[a].0@ != rec.coin.puzzle_hash@,
                    found ==> j < out@.len() && out@[j as int].0@ == rec.coin.puzzle_hash@,
                decreases out.len() - j,
            {
                if out[j].0.equals(&rec.coin.puzzle_hash) {
                    found = true;
                    break;
                }
                j = j + 1;
            }
            let ghost ph = rec.coin.puzzle_hash@;
            proof {
                lemma_sum_prefix_le(coins@, i + 1, unspent_with_ph(ph));
                crate::select::lemma_count_le_len(coins@.take(i as int), unspent_with_ph(ph));
                assert(unspent_with_ph(ph)(coins@[i as int]));
            }
            if found {
                let (key, (t, c)) = out[j];
                out.set(j, (key, (t + rec.coin.amount, c + 1)));
            } else {
                proof {
                    crate::select::lemma_count_le_len(coins@.take(i as int), unspent_with_ph(ph));
                    let pre = coins@.take(i as int);
                    assert forall|k: int| 0 <= k < pre.len() implies !unspent_with_ph(ph)(
                        #[trigger] pre[k],
                    ) by {
                        assert(pre[k] == coins@[k]);
                        if unspent_with_ph(ph)(pre[k]) {
                            assert(coins@[k].1.spent_height is None);
                            let a = choose|a: int|
                                0 <= a < out@.len() && out@[a].0@ == coins@[k].1.coin.puzzle_hash@;
                        }
                    }
                    lemma_none_satisfy(pre, unspent_with_ph(ph));
                }
                out.push((rec.coin.puzzle_hash, (rec.coin.amount, 1)));
            }
            proof {
                assert forall|a: int, b: int| 0 <= a < b < out@.len() implies #[trigger] out@[a].0@
                    != #[trigger] out@[b].0@ by {
                    if b < before.len() {
                        assert(out@[a].0@ == before[a].0@ && out@[b].0@ == before[b].0@);
                    } else {
                        assert(out@[a].0@ == before[a].0@);
                    }
                }
                assert forall|k: int|
                    0 <= k < i + 1 && (#[trigger] coins@[k]).1.spent_height is None implies exists|a: int|
                        0 <= a < out@.len() && out@[a].0@ == coins@[k].1.coin.puzzle_hash@ by {
                    if k < i {
                        let a = choose|a: int|
                            0 <= a < before.len() && before[a].0@ == coins@[k].1.coin.puzzle_hash@;
                        assert(out@[a].0@ == before[a].0@);
                    } else if found {
                        assert(out@[j as int].0@ == ph);
                    } else {
                        assert(out@[before.len() as int].0@ == ph);
                    }
                }
                assert forall|a: int| 0 <= a < out@.len() implies (#[trigger] out@[a]).1.0 == sum(
                    coins@.take(i + 1),
                    unspent_with_ph(out@[a].0@),
                    amount_of(),
                ) && out@[a].1.1 == count(coins@.take(i + 1), unspent_with_ph(out@[a].0@))
                    && out@[a].1.1 > 0 by {
                    if a < before.len() && out@[a].0@ != ph {
                        assert(out@[a] == before[a]);
                        assert(!unspent_with_ph(out@[a].0@)(coins@[i as int]));
                    }
                }
            }
        } else {
            proof {
                assert forall|a: int| 0 <= a < out@.len() implies (#[trigger] out@[a]).1.0 == sum(
                    coins@.take(i + 1),
                    unspent_with_ph(out@[a].0@),
                    amount_of(),
                ) && out@[a].1.1 == count(coins@.take(i + 1), unspent_with_ph(out@[a].0@))
                    && out@[a].1.1 > 0 by {
                    assert(!unspent_with_ph(out@[a].0@)(coins@[i as int]));
                }
            }
        }
        i = i + 1;
    }
    proof {
        lemma_take_all(coins@);
    }
    out
}

/// A predicate that no element satisfies has count zero and sum zero.
proof fn lemma_none_satisfy(s: Seq<(Bytes32, CoinRecord)>, pred: spec_fn((Bytes32, CoinRecord)) -> bool)
    requires
        forall|k: int| 0 <= k < s.len() ==> !pred(#[trigger] s[k]),
    ensures
        count(s, pred) == 0,
        sum(s, pred, amount_of()) == 0,
    decreases s.len(),
{
    if s.len() > 0 {
        assert forall|k: int| 0 <= k < s.drop_last().len() implies !pred(#[trigger] s.drop_last()[k]) by {
            assert(s.drop_last()[k] == s[k]);
        }
        lemma_none_satisfy(s.drop_last(), pred);
        assert(!pred(s[s.len() - 1]));
    }
}

// ─────────────────────────────────────────────────────────────────────────────
// Singleton lineage
// ─────────────────────────────────────────────────────────────────────────────

/// List entries whose record is unspent with puzzle hash `ph`.
pub open spec fn unspent_with_ph(ph: Seq<u8>) -> spec_fn((Bytes32, CoinRecord)) -> bool {
    |p: (Bytes32, CoinRecord)| p.1.spent_height is None && p.1.coin.puzzle_hash@ == ph
}

/// The unspent total of one puzzle hash is at most the unspent total of all coins.
pub proof fn lemma_ph_sum_le_unspent_total(coins: Seq<(Bytes32, CoinRecord)>, ph: Seq<u8>)
    ensures
        sum(coins, unspent_with_ph(ph), amount_of()) <= sum(coins, unspent_entry(), amount_of()),
    decreases coins.len(),
{
    if coins.len() > 0 {
        lemma_ph_sum_le_unspent_total(coins.drop_last(), ph);
    }
}

/// The list entry itself.
pub open spec fn entry_of() -> spec_fn((Bytes32, CoinRecord)) -> (Bytes32, CoinRecord) {
    |p: (Bytes32, CoinRecord)| p
}

/// The lineage of the only unspent coin with puzzle hash `ph`; `None` unless there is exactly one.
pub open spec fn spec_lineage(coins: Seq<(Bytes32, CoinRecord)>, ph: Seq<u8>) -> Option<
    (Seq<u8>, Seq<u8>, Seq<u8>),
> {
    let u = select(coins, unspent_with_ph(ph), entry_of());
    if u.len() != 1 {
        None
    } else {
        let parent = u[0].1.coin.parent_coin_info@;
        let m = coins_map(coins);
        Some(
            (
                u[0].0@,
                parent,
                if m.dom().contains(parent) {
                    m[parent].coin.parent_coin_info@
                } else {
                    zero32()
                },
            ),
        )
    }
}

/// A lineage is reported only for a singleton: when two coins of the list, or none, are
/// unspent with puzzle hash `ph`, there is none; when there is one, it names that coin, its
/// parent, and its parent's parent when the parent is in the list (the zero hash otherwise).
pub proof fn lemma_lineage_only_for_single_coin(coins: Seq<(Bytes32, CoinRecord)>, ph: Seq<u8>)
    ensures
        (exists|i: int, j: int|
            0 <= i < j < coins.len() && (#[trigger] coins[i]).1.spent_height is None
                && coins[i].1.coin.puzzle_hash@ == ph && (#[trigger] coins[j]).1.spent_height is None
                && coins[j].1.coin.puzzle_hash@ == ph) ==> spec_lineage(coins, ph) is None,
        (forall|i: int|
            0 <= i < coins.len() ==> !((#[trigger] coins[i]).1.spent_height is None
                && coins[i].1.coin.puzzle_hash@ == ph)) ==> spec_lineage(coins, ph) is None,
        spec_lineage(coins, ph) matches Some(t) ==> exists|i: int|
            0 <= i < coins.len() && (#[trigger] coins[i]).1.spent_height is None
                && coins[i].1.coin.puzzle_hash@ == ph && t.0 == coins[i].0@ && t.1
                == coins[i].1.coin.parent_coin_info@ && t.2 == (if coins_map(coins).dom().contains(
                t.1,
            ) {
                coins_map(coins)[t.1].coin.parent_coin_info@
            } else {
                zero32()
            }) && forall|j: int|
                0 <= j < coins.len() && j != i ==> !((#[trigger] coins[j]).1.spent_height is None
                    && coins[j].1.coin.puzzle_hash@ == ph),
{
    let pred = unspent_with_ph(ph);
    let u = select(coins, pred, entry_of());
    if exists|i: int, j: int|
        0 <= i < j < coins.len() && (#[trigger] coins[i]).1.spent_height is None
            && coins[i].1.coin.puzzle_hash@ == ph && (#[trigger] coins[j]).1.spent_height is None
            && coins[j].1.coin.puzzle_hash@ == ph {
        let (i, j) = choose|i: int, j: int|
            0 <= i < j < coins.len() && (#[trigger] coins[i]).1.spent_height is None
                && coins[i].1.coin.puzzle_hash@ == ph && (#[trigger] coins[j]).1.spent_height is None
                && coins[j].1.coin.puzzle_hash@ == ph;
        crate::select::lemma_select_two(coins, pred, entry_of(), i, j);
    }
    if u.len() > 0 {
        lemma_select_members(coins, pred, entry_of(), 0);
    }
    if u.len() == 1 {
        lemma_select_members(coins, pred, entry_of(), 0);
        let i = choose|i: int| 0 <= i < coins.len() && pred(coins[i]) && u[0] == entry_of()(#[trigger] coins[i]);
        assert forall|j: int|
            0 <= j < coins.len() && j != i implies !((#[trigger] coins[j]).1.spent_height is None
                && coins[j].1.coin.puzzle_hash@ == ph) by {
            if coins[j].1.spent_height is None && coins[j].1.coin.puzzle_hash@ == ph {
                if i < j {
                    crate::select::lemma_select_two(coins, pred, entry_of(), i, j);
                } else {
                    crate::select::lemma_select_two(coins, pred, entry_of(), j, i);
                }
            }
        }
    }
}

/// The lineage of the only unspent coin with puzzle hash `ph`, if there is exactly one.
pub fn lineage_of(coins: &Vec<(Bytes32, CoinRecord)>, ph: &Bytes32) -> (r: Option<
    UnspentLineageInfo,
>)
    requires
        ids_sorted(coins@),
    ensures
        match (r, spec_lineage(coins@, ph@)) {
            (Some(info), Some(t)) => info.coin_id@ == t.0 && info.parent_id@ == t.1
                && info.parent_parent_id@ == t.2,
            (None, None) => true,
            _ => false,
        },
{
    let ghost pred = unspent_with_ph(ph@);
    let mut found: Option<usize> = None;
    let mut n: usize = 0;
    let mut i: usize = 0;
    while i < coins.len()
        invariant
            i <= coins@.len(),
            pred == unspent_with_ph(ph@),
            n == select(coins@.take(i as int), pred, entry_of()).len(),
            n <= i,
            n >= 1 ==> (found matches Some(j) && j < coins@.len() && select(
                coins@.take(i as int),
                pred,
                entry_of(),
            )[0] == coins@[j as int]),
            n == 0 ==> found is None,
        decreases coins.len() - i,
    {
        proof {
            lemma_select_step(coins@, i as int, pred, entry_of());
        }
        let rec = coins[i].1;
        if rec.spent_height.is_none() && rec.coin.puzzle_hash.equals(ph) {
            if n == 0 {
                found = Some(i);
            }
            n = n + 1;
        }
        i = i + 1;
    }
    proof {
        lemma_take_all(coins@);
    }
    if n != 1 {
        return None;
    }
    let j = match found {
        Some(j) => j,
        None => {
            return None;
        },
    };
    let coin_id = coins[j].0;
    let parent_id = coins[j].1.coin.parent_coin_info;
    let parent_parent_id = match lookup_coin(coins, &parent_id) {
        Some(p) => p.coin.parent_coin_info,
        None => Bytes32::zero(),
    };
    Some(UnspentLineageInfo { coin_id, parent_id, parent_parent_id })
}

} // verus!
