//! Hint store for puzzle hash hints on coins.
//!
//! Hints are optional byte strings (1 to 32 bytes) attached to coins that signal which
//! wallet/puzzle hash a coin is intended for. The store keeps the set of `(coin_id, hint)` pairs;
//! the forward lookup (coin id to hints) and the reverse lookup (hint to coin ids) both read it.
//!
//! - Hints longer than [`MAX_HINT_LENGTH`] are rejected.
//! - Empty hints are skipped.
//! - Insertion is idempotent.
//!
//! The pairs are kept as *entries*: the 32-byte coin id followed by the hint bytes, in a list
//! sorted strictly by byte order. For a fixed hint, the entries that carry it come in coin id
//! order, the order in which a reverse index keyed by `hint || coin_id` is walked.
use crate::bytes::{
    compare_bytes, extend_from, lemma_lex_lt_asymmetric, lemma_lex_lt_transitive, lex_lt, ByteOrder,
    Bytes32,
};
use crate::select::{
    lemma_select_members, lemma_select_prefix, lemma_select_step, lemma_take_all, select, take_upto,
};
use vstd::prelude::*;

verus! {

/// Maximum allowed hint length in bytes.
pub const MAX_HINT_LENGTH: usize = 32;

/// Result of hint validation.
#[derive(Debug, Clone, Copy, PartialEq, Eq, Structural)]
pub enum HintAction {
    /// The hint is 0 bytes — silently ignore, do not store.
    Skip,
    /// The hint is valid (1-32 bytes) — proceed with storage.
    Store,
}

/// Errors from hint validation.
#[derive(Debug, Clone, Copy, PartialEq, Eq, Structural)]
pub enum HintError {
    /// Hint exceeds [`MAX_HINT_LENGTH`] bytes.
    HintTooLong {
        /// Actual hint length in bytes.
        length: usize,
        /// Maximum allowed length.
        max: usize,
    },
}

/// The outcome of validating a hint of `len` bytes.
pub open spec fn spec_validate_hint(len: nat) -> Result<HintAction, HintError> {
    if len == 0 {
        Ok(HintAction::Skip)
    } else if len > MAX_HINT_LENGTH {
        Err(HintError::HintTooLong { length: len as usize, max: MAX_HINT_LENGTH })
    } else {
        Ok(HintAction::Store)
    }
}

/// Validate a hint: empty → `Skip`; longer than 32 bytes → `HintTooLong`; otherwise `Store`.
pub fn validate_hint(hint: &[u8]) -> (r: Result<HintAction, HintError>)
    ensures
        r == spec_validate_hint(hint@.len()),
{
    if hint.len() == 0 {
        return Ok(HintAction::Skip);
    }
    if hint.len() > MAX_HINT_LENGTH {
        return Err(HintError::HintTooLong { length: hint.len(), max: MAX_HINT_LENGTH });
    }
    Ok(HintAction::Store)
}

// ─────────────────────────────────────────────────────────────────────────────
// Hint entries
// ─────────────────────────────────────────────────────────────────────────────

/// The byte strings held by a list of entries.
pub open spec fn key_views(v: Seq<Vec<u8>>) -> Seq<Seq<u8>> {
    v.map_values(|k: Vec<u8>| k@)
}

/// Entries strictly increase along the list.
pub open spec fn keys_sorted(s: Seq<Seq<u8>>) -> bool {
    forall|i: int, j: int| 0 <= i < j < s.len() ==> lex_lt(#[trigger] s[i], #[trigger] s[j])
}

/// A 32-byte coin id followed by a hint of 1 to 32 bytes.
pub open spec fn is_hint_entry(k: Seq<u8>) -> bool {
    33 <= k.len() <= 64
}

/// A well-formed list of hint entries.
pub open spec fn hint_list_wf(s: Seq<Seq<u8>>) -> bool {
    &&& keys_sorted(s)
    &&& forall|i: int| 0 <= i < s.len() ==> is_hint_entry(#[trigger] s[i])
}

/// The coin id of an entry.
pub open spec fn entry_coin(k: Seq<u8>) -> Seq<u8> {
    k.take(32)
}

/// The hint of an entry.
pub open spec fn entry_hint(k: Seq<u8>) -> Seq<u8> {
    k.skip(32)
}

/// The entry for `(coin, hint)`.
pub open spec fn hint_entry(coin: Seq<u8>, hint: Seq<u8>) -> Seq<u8> {
    coin + hint
}

/// The entry for `(coin, hint)` splits back into its parts.
pub proof fn lemma_hint_entry_parts(coin: Seq<u8>, hint: Seq<u8>)
    requires
        coin.len() == 32,
    ensures
        entry_coin(hint_entry(coin, hint)) == coin,
        entry_hint(hint_entry(coin, hint)) == hint,
        hint_entry(coin, hint).len() == 32 + hint.len(),
{
    assert(entry_coin(hint_entry(coin, hint)) =~= coin);
    assert(entry_hint(hint_entry(coin, hint)) =~= hint);
}

/// A copy of a byte vector.
pub fn copy_bytes(k: &Vec<u8>) -> (r: Vec<u8>)
    ensures
        r@ == k@,
{
    let mut r: Vec<u8> = Vec::new();
    extend_from(&mut r, k.as_slice());
    assert(r@ =~= k@);
    r
}

/// The entry bytes for `(coin, hint)`.
pub fn make_hint_entry(coin: &Bytes32, hint: &[u8]) -> (r: Vec<u8>)
    ensures
        r@ == hint_entry(coin@, hint@),
{
    let mut r: Vec<u8> = Vec::new();
    extend_from(&mut r, coin.as_slice());
    extend_from(&mut r, hint);
    assert(r@ =~= hint_entry(coin@, hint@));
    r
}

/// Whether `entry` carries exactly the hint `hint`.
pub fn entry_has_hint(entry: &Vec<u8>, hint: &[u8]) -> (r: bool)
    requires
        entry@.len() >= 32,
    ensures
        r == (entry_hint(entry@) == hint@),
{
    if entry.len() - 32 != hint.len() {
        proof {
            assert(entry_hint(entry@).len() != hint@.len());
        }
        return false;
    }
    let n = entry.len();
    let mut i: usize = 0;
    while i < hint.len()
        invariant
            n == entry@.len(),
            entry@.len() == hint@.len() + 32,
            i <= hint@.len(),
            forall|j: int| 0 <= j < i ==> entry@[32 + j] == hint@[j],
        decreases hint.len() - i,
    {
        if entry[32 + i] != hint[i] {
            assert(entry_hint(entry@)[i as int] != hint@[i as int]);
            return false;
        }
        i = i + 1;
    }
    assert(entry_hint(entry@) =~= hint@);
    true
}

/// Whether `entry` belongs to coin `coin`.
pub fn entry_has_coin(entry: &Vec<u8>, coin: &Bytes32) -> (r: bool)
    requires
        entry@.len() >= 32,
    ensures
        r == (entry_coin(entry@) == coin@),
{
    let mut i: usize = 0;
    while i < 32
        invariant
            entry@.len() >= 32,
            i <= 32,
            forall|j: int| 0 <= j < i ==> entry@[j] == coin@[j],
        decreases 32 - i,
    {
        if entry[i] != coin.bytes[i] {
            assert(entry_coin(entry@)[i as int] != coin@[i as int]);
            return false;
        }
        i = i + 1;
    }
    assert(entry_coin(entry@) =~= coin@);
    true
}

/// Position of `k` in a sorted list: `(p, true)` when `v[p] == k`, otherwise `(p, false)` with
/// every earlier entry below `k` and every later one above it.
pub fn locate_entry(v: &Vec<Vec<u8>>, k: &[u8]) -> (r: (usize, bool))
    requires
        keys_sorted(key_views(v@)),
    ensures
        r.0 <= v@.len(),
        r.1 ==> r.0 < v@.len() && v@[r.0 as int]@ == k@,
        !r.1 ==> (forall|j: int| 0 <= j < r.0 ==> lex_lt(#[trigger] v@[j]@, k@)) && (forall|j: int|
            r.0 <= j < v@.len() ==> lex_lt(k@, #[trigger] v@[j]@)),
{
    let mut p: usize = 0;
    while p < v.len()
        invariant
            p <= v@.len(),
            keys_sorted(key_views(v@)),
            forall|j: int| 0 <= j < p ==> lex_lt(#[trigger] v@[j]@, k@),
        decreases v.len() - p,
    {
        let c = compare_bytes(v[p].as_slice(), k);
        if c == ByteOrder::Equal {
            return (p, true);
        }
        if c == ByteOrder::Greater {
            proof {
                assert forall|j: int| p <= j < v@.len() implies lex_lt(k@, #[trigger] v@[j]@) by {
                    if j > p {
                        assert(key_views(v@)[p as int] == v@[p as int]@);
                        assert(key_views(v@)[j] == v@[j]@);
                        lemma_lex_lt_transitive(k@, v@[p as int]@, v@[j]@);
                    }
                }
            }
            return (p, false);
        }
        p = p + 1;
    }
    (p, false)
}

/// Adds `k` to a sorted list unless it is already there; tells whether it was added.
pub fn insert_entry(v: &mut Vec<Vec<u8>>, k: Vec<u8>) -> (added: bool)
    requires
        keys_sorted(key_views(old(v)@)),
    ensures
        keys_sorted(key_views(final(v)@)),
        key_views(final(v)@).to_set() == key_views(old(v)@).to_set().insert(k@),
        added == !key_views(old(v)@).contains(k@),
        added ==> key_views(final(v)@).len() == key_views(old(v)@).len() + 1,
        !added ==> final(v)@ == old(v)@,
{
    let ghost s = key_views(v@);
    let (p, found) = locate_entry(v, k.as_slice());
    if found {
        proof {
            assert(s[p as int] == k@);
            assert(s.to_set().insert(k@) =~= s.to_set());
        }
        return false;
    }
    proof {
        assert forall|j: int| 0 <= j < s.len() implies s[j] != k@ by {
            assert(s[j] == v@[j]@);
            if j < p {
                assert(lex_lt(v@[j]@, k@));
            } else {
                assert(lex_lt(k@, v@[j]@));
            }
        }
    }
    let ghost kv = k@;
    v.insert(p, k);
    let ghost t = key_views(v@);
    proof {
        assert forall|j: int| 0 <= j < t.len() implies #[trigger] t[j] == (if j < p {
            s[j]
        } else if j == p {
            kv
        } else {
            s[j - 1]
        }) by {}
        assert forall|a: int, b: int| 0 <= a < b < t.len() implies lex_lt(
            #[trigger] t[a],
            #[trigger] t[b],
        ) by {
            if b < p {
                assert(lex_lt(s[a], s[b]));
            } else if a < p && b == p {
                assert(s[a] == old(v)@[a]@);
            } else if a < p && b > p {
                assert(s[a] == old(v)@[a]@);
                assert(s[b - 1] == old(v)@[b - 1]@);
                lemma_lex_lt_transitive(t[a], kv, t[b]);
            } else if a == p {
                assert(s[b - 1] == old(v)@[b - 1]@);
            } else {
                assert(lex_lt(s[a - 1], s[b - 1]));
            }
        }
        assert forall|x: Seq<u8>| #[trigger] t.to_set().contains(x) <==> s.to_set().insert(kv).contains(x) by {
            if t.to_set().contains(x) {
                let j = choose|j: int| 0 <= j < t.len() && t[j] == x;
                if j < p {
                    assert(s[j] == x);
                } else if j > p {
                    assert(s[j - 1] == x);
                }
            }
            if s.to_set().contains(x) {
                let j = choose|j: int| 0 <= j < s.len() && s[j] == x;
                if j < p {
                    assert(t[j] == x);
                } else {
                    assert(t[j + 1] == x);
                }
            }
            if x == kv {
                assert(t[p as int] == x);
            }
        }
        assert(t.to_set() =~= s.to_set().insert(kv));
    }
    true
}

/// Adding a hint entry to a well-formed list keeps it well-formed.
pub proof fn lemma_insert_keeps_wf(before: Seq<Seq<u8>>, after: Seq<Seq<u8>>, e: Seq<u8>)
    requires
        hint_list_wf(before),
        keys_sorted(after),
        after.to_set() == before.to_set().insert(e),
        is_hint_entry(e),
    ensures
        hint_list_wf(after),
{
    assert forall|i: int| 0 <= i < after.len() implies is_hint_entry(#[trigger] after[i]) by {
        assert(after.to_set().contains(after[i]));
        if after[i] != e {
            assert(before.to_set().contains(after[i]));
            let j = choose|j: int| 0 <= j < before.len() && before[j] == after[i];
            assert(is_hint_entry(before[j]));
        }
    }
}

/// A stored hint is found again: when the entries hold `(coin, hint)`, the coins found for
/// `hint` include `coin`, and the 32-byte hints found for `coin` include a 32-byte `hint`.
pub proof fn lemma_stored_hint_found(entries: Seq<Seq<u8>>, coin: Seq<u8>, hint: Seq<u8>)
    requires
        coin.len() == 32,
        entries.contains(hint_entry(coin, hint)),
    ensures
        select(entries, with_hint(hint), coin_part()).contains(coin),
        hint.len() == 32 ==> select(entries, full_hint_of(coin), hint_part()).contains(hint),
{
    lemma_hint_entry_parts(coin, hint);
    let i = choose|i: int| 0 <= i < entries.len() && entries[i] == hint_entry(coin, hint);
    crate::select::lemma_select_complete(entries, with_hint(hint), coin_part(), i);
    if hint.len() == 32 {
        crate::select::lemma_select_complete(entries, full_hint_of(coin), hint_part(), i);
    }
}

/// A selection is strictly increasing in byte order when the images of any two selected
/// elements, taken in list order, are.
proof fn lemma_select_lex_sorted(
    s: Seq<Seq<u8>>,
    pred: spec_fn(Seq<u8>) -> bool,
    f: spec_fn(Seq<u8>) -> Seq<u8>,
)
    requires
        forall|i: int, j: int|
            #![trigger s[i], s[j]]
            0 <= i < j < s.len() && pred(s[i]) && pred(s[j]) ==> lex_lt(f(s[i]), f(s[j])),
    ensures
        forall|a: int, b: int|
            #![trigger select(s, pred, f)[a], select(s, pred, f)[b]]
            0 <= a < b < select(s, pred, f).len() ==> lex_lt(
                select(s, pred, f)[a],
                select(s, pred, f)[b],
            ),
    decreases s.len(),
{
    if s.len() > 0 {
        let t = s.drop_last();
        assert forall|i: int, j: int|
            #![trigger t[i], t[j]]
            0 <= i < j < t.len() && pred(t[i]) && pred(t[j]) implies lex_lt(f(t[i]), f(t[j])) by {
            assert(s[i] == t[i] && s[j] == t[j]);
        }
        lemma_select_lex_sorted(t, pred, f);
        let rest = select(t, pred, f);
        if pred(s.last()) {
            assert forall|a: int| 0 <= a < rest.len() implies lex_lt(
                #[trigger] rest[a],
                f(s.last()),
            ) by {
                lemma_select_members(t, pred, f, a);
                let i = choose|i: int| 0 <= i < t.len() && pred(t[i]) && rest[a] == f(#[trigger] t[i]);
                assert(s[i] == t[i]);
                assert(s[s.len() - 1] == s.last());
            }
            let all = select(s, pred, f);
            assert(all == rest.push(f(s.last())));
            assert forall|a: int, b: int|
                #![trigger all[a], all[b]]
                0 <= a < b < all.len() implies lex_lt(all[a], all[b]) by {
                if b < rest.len() {
                    assert(all[a] == rest[a] && all[b] == rest[b]);
                } else {
                    assert(all[a] == rest[a]);
                }
            }
        }
    }
}

/// Of two entries with the same hint, the smaller one has the smaller coin.
proof fn lemma_same_hint_order(a: Seq<u8>, b: Seq<u8>)
    requires
        is_hint_entry(a),
        is_hint_entry(b),
        entry_hint(a) == entry_hint(b),
        lex_lt(a, b),
    ensures
        lex_lt(entry_coin(a), entry_coin(b)),
{
    assert(a.len() == entry_hint(a).len() + 32);
    assert(b.len() == entry_hint(b).len() + 32);
    let i = choose|i: int|
        #![trigger a[i], b[i]]
        0 <= i < a.len() && i < b.len() && a[i] < b[i] && a.take(i) == b.take(i);
    let ca = entry_coin(a);
    let cb = entry_coin(b);
    if i < 32 {
        assert(ca[i] == a[i] && cb[i] == b[i]);
        assert(ca.take(i) =~= a.take(i));
        assert(cb.take(i) =~= b.take(i));
    } else {
        assert(a[i] == entry_hint(a)[i - 32]);
        assert(b[i] == entry_hint(b)[i - 32]);
    }
}

/// Of two full-length entries of the same coin, the smaller one has the smaller hint.
proof fn lemma_same_coin_order(a: Seq<u8>, b: Seq<u8>)
    requires
        a.len() == 64,
        b.len() == 64,
        entry_coin(a) == entry_coin(b),
        lex_lt(a, b),
    ensures
        lex_lt(entry_hint(a), entry_hint(b)),
{
    let i = choose|i: int|
        #![trigger a[i], b[i]]
        0 <= i < a.len() && i < b.len() && a[i] < b[i] && a.take(i) == b.take(i);
    let ha = entry_hint(a);
    let hb = entry_hint(b);
    if i < 32 {
        assert(a[i] == entry_coin(a)[i]);
        assert(b[i] == entry_coin(b)[i]);
    } else {
        assert(ha[i - 32] == a[i] && hb[i - 32] == b[i]);
        assert(ha.take(i - 32) =~= a.take(i).skip(32));
        assert(hb.take(i - 32) =~= b.take(i).skip(32));
        assert(lex_lt(ha, hb)) by {
            assert(0 <= i - 32 < ha.len() && i - 32 < hb.len() && ha[i - 32] < hb[i - 32]
                && ha.take(i - 32) == hb.take(i - 32));
        }
    }
}

/// Hint queries answer in strictly increasing byte order, so each item once: the coins found
/// for a hint, and the 32-byte hints found for a coin.
pub proof fn lemma_hint_queries_sorted(entries: Seq<Seq<u8>>, hint: Seq<u8>, coin: Seq<u8>)
    requires
        hint_list_wf(entries),
    ensures
        forall|a: int, b: int|
            #![trigger select(entries, with_hint(hint), coin_part())[a], select(entries, with_hint(hint), coin_part())[b]]
            0 <= a < b < select(entries, with_hint(hint), coin_part()).len() ==> lex_lt(
                select(entries, with_hint(hint), coin_part())[a],
                select(entries, with_hint(hint), coin_part())[b],
            ),
        forall|a: int, b: int|
            #![trigger select(entries, full_hint_of(coin), hint_part())[a], select(entries, full_hint_of(coin), hint_part())[b]]
            0 <= a < b < select(entries, full_hint_of(coin), hint_part()).len() ==> lex_lt(
                select(entries, full_hint_of(coin), hint_part())[a],
                select(entries, full_hint_of(coin), hint_part())[b],
            ),
{
    assert forall|i: int, j: int|
        #![trigger entries[i], entries[j]]
        0 <= i < j < entries.len() && with_hint(hint)(entries[i]) && with_hint(hint)(entries[j])
            implies lex_lt(coin_part()(entries[i]), coin_part()(entries[j])) by {
        lemma_same_hint_order(entries[i], entries[j]);
    }
    lemma_select_lex_sorted(entries, with_hint(hint), coin_part());
    assert forall|i: int, j: int|
        #![trigger entries[i], entries[j]]
        0 <= i < j < entries.len() && full_hint_of(coin)(entries[i]) && full_hint_of(coin)(
            entries[j],
        ) implies lex_lt(hint_part()(entries[i]), hint_part()(entries[j])) by {
        lemma_same_coin_order(entries[i], entries[j]);
    }
    lemma_select_lex_sorted(entries, full_hint_of(coin), hint_part());
}

/// Adding a hint that is already stored leaves the entries unchanged.
pub proof fn lemma_hint_insert_idempotent(entries: Set<Seq<u8>>, e: Seq<u8>)
    ensures
        entries.insert(e).insert(e) == entries.insert(e),
{
    assert(entries.insert(e).insert(e) =~= entries.insert(e));
}

/// Keeps the entries of `v` whose coin is not one of `ids`; returns how many were dropped.
pub fn drop_entries_of_coins(v: &mut Vec<Vec<u8>>, ids: &[Bytes32]) -> (removed: usize)
    requires
        hint_list_wf(key_views(old(v)@)),
    ensures
        hint_list_wf(key_views(final(v)@)),
        key_views(final(v)@) == select(key_views(old(v)@), not_of_coins(ids@), whole_entry()),
        removed == old(v)@.len() - final(v)@.len(),
{
    let ghost s = key_views(v@);
    let ghost pred = not_of_coins(ids@);
    let ghost f = whole_entry();
    let mut kept: Vec<Vec<u8>> = Vec::new();
    let mut i: usize = 0;
    while i < v.len()
        invariant
            s == key_views(v@),
            hint_list_wf(s),
            pred == not_of_coins(ids@),
            f == whole_entry(),
            i <= v@.len(),
            key_views(kept@) == select(s.take(i as int), pred, f),
            kept@.len() <= i,
            hint_list_wf(key_views(kept@)),
            kept@.len() > 0 ==> exists|j: int|
                0 <= j < i && #[trigger] s[j] == key_views(kept@)[kept@.len() - 1],
        decreases v.len() - i,
    {
        proof {
            lemma_select_step(s, i as int, pred, f);
        }
        assert(s[i as int] == v@[i as int]@);
        let keep = !coin_listed(ids, &v[i]);
        assert(pred(s[i as int]) == keep);
        assert(f(s[i as int]) == s[i as int]);
        if keep {
            let c = copy_bytes(&v[i]);
            let ghost before = key_views(kept@);
            kept.push(c);
            proof {
                let after = key_views(kept@);
                assert(after =~= before.push(s[i as int]));
                if before.len() > 0 {
                    let j = choose|j: int| 0 <= j < i && #[trigger] s[j] == before[before.len() - 1];
                    assert(lex_lt(s[j], s[i as int]));
                }
                assert forall|a: int, b: int| 0 <= a < b < after.len() implies lex_lt(
                    #[trigger] after[a],
                    #[trigger] after[b],
                ) by {
                    if b == after.len() - 1 && a < b - 1 {
                        assert(lex_lt(before[a], before[before.len() - 1]));
                        lemma_lex_lt_transitive(after[a], before[before.len() - 1], after[b]);
                    } else if b < after.len() - 1 {
                        assert(lex_lt(before[a], before[b]));
                    }
                }
                assert(after[after.len() - 1] == s[i as int]);
            }
        }
        i = i + 1;
    }
    proof {
        lemma_take_all(s);
        crate::select::lemma_count_is_select_len(s, pred, f);
        crate::select::lemma_count_le_len(s, pred);
    }
    let removed = v.len() - kept.len();
    *v = kept;
    removed
}

/// Entries that carry hint `hint`.
pub open spec fn with_hint(hint: Seq<u8>) -> spec_fn(Seq<u8>) -> bool {
    |k: Seq<u8>| entry_hint(k) == hint
}

/// Entries of coin `coin` whose hint is 32 bytes long.
pub open spec fn full_hint_of(coin: Seq<u8>) -> spec_fn(Seq<u8>) -> bool {
    |k: Seq<u8>| entry_coin(k) == coin && k.len() == 64
}

/// Entries whose coin is not one of `ids`.
pub open spec fn not_of_coins(ids: Seq<Bytes32>) -> spec_fn(Seq<u8>) -> bool {
    |k: Seq<u8>| !coin_in(ids, entry_coin(k))
}

/// Entries whose coin is one of `ids`.
pub open spec fn of_coins(ids: Seq<Bytes32>) -> spec_fn(Seq<u8>) -> bool {
    |k: Seq<u8>| coin_in(ids, entry_coin(k))
}

/// The coin id of an entry, as a function.
pub open spec fn coin_part() -> spec_fn(Seq<u8>) -> Seq<u8> {
    |k: Seq<u8>| entry_coin(k)
}

/// The hint of an entry, as a function.
pub open spec fn hint_part() -> spec_fn(Seq<u8>) -> Seq<u8> {
    |k: Seq<u8>| entry_hint(k)
}

/// The identity on entries.
pub open spec fn whole_entry() -> spec_fn(Seq<u8>) -> Seq<u8> {
    |k: Seq<u8>| k
}

/// `c` is the view of one of `ids`.
pub open spec fn coin_in(ids: Seq<Bytes32>, c: Seq<u8>) -> bool {
    exists|i: int| 0 <= i < ids.len() && #[trigger] ids[i]@ == c
}

/// Whether the coin of `entry` is one of `ids`.
fn coin_listed(ids: &[Bytes32], entry: &Vec<u8>) -> (r: bool)
    requires
        entry@.len() >= 32,
    ensures
        r == coin_in(ids@, entry_coin(entry@)),
{
    let mut i: usize = 0;
    while i < ids.len()
        invariant
            entry@.len() >= 32,
            i <= ids@.len(),
            forall|j: int| 0 <= j < i ==> #[trigger] ids@[j]@ != entry_coin(entry@),
        decreases ids.len() - i,
    {
        if entry_has_coin(entry, &ids[i]) {
            return true;
        }
        i = i + 1;
    }
    false
}

/// The coin ids of the entries that carry hint `hint`, in coin id order, at most `max_items`.
pub fn coins_with_hint(v: &Vec<Vec<u8>>, hint: &[u8], max_items: usize) -> (r: Vec<Bytes32>)
    requires
        hint_list_wf(key_views(v@)),
    ensures
        r@.map_values(|b: Bytes32| b@) == take_upto(
            select(key_views(v@), with_hint(hint@), coin_part()),
            max_items as int,
        ),
{
    let ghost s = key_views(v@);
    let ghost pred = with_hint(hint@);
    let ghost f = coin_part();
    let mut out: Vec<Bytes32> = Vec::new();
    let mut i: usize = 0;
    while i < v.len() && out.len() < max_items
        invariant
            s == key_views(v@),
            hint_list_wf(s),
            pred == with_hint(hint@),
            f == coin_part(),
            i <= v@.len(),
            out@.map_values(|b: Bytes32| b@) == select(s.take(i as int), pred, f),
            out@.len() <= max_items,
        decreases v.len() - i,
    {
        proof {
            lemma_select_step(s, i as int, pred, f);
        }
        assert(s[i as int] == v@[i as int]@);
        assert(is_hint_entry(s[i as int]));
        let has = entry_has_hint(&v[i], hint);
        assert(pred(s[i as int]) == has);
        if has {
            let c = Bytes32::from_prefix(v[i].as_slice());
            let ghost before = out@;
            out.push(c);
            proof {
                assert(f(s[i as int]) == c@);
                assert(out@.map_values(|b: Bytes32| b@) =~= before.map_values(|b: Bytes32| b@).push(
                    c@,
                ));
            }
        }
        i = i + 1;
    }
    proof {
        let got = out@.map_values(|b: Bytes32| b@);
        assert(got.len() == out@.len());
        if out@.len() >= max_items {
            lemma_select_prefix(s, i as int, pred, f);
        } else {
            assert(i == s.len());
            lemma_take_all(s);
            assert(s.take(i as int) == s);
            assert(select(s, pred, f).len() == out@.len());

        }
    }
    out
}

/// The 32-byte hints of coin `coin`, in byte order.
pub fn full_hints_of_coin(v: &Vec<Vec<u8>>, coin: &Bytes32) -> (r: Vec<Bytes32>)
    requires
        hint_list_wf(key_views(v@)),
    ensures
        r@.map_values(|b: Bytes32| b@) == select(key_views(v@), full_hint_of(coin@), hint_part()),
{
    let ghost s = key_views(v@);
    let ghost pred = full_hint_of(coin@);
    let ghost f = hint_part();
    let mut out: Vec<Bytes32> = Vec::new();
    let mut i: usize = 0;
    while i < v.len()
        invariant
            s == key_views(v@),
            hint_list_wf(s),
            pred == full_hint_of(coin@),
            f == hint_part(),
            i <= v@.len(),
            out@.map_values(|b: Bytes32| b@) == select(s.take(i as int), pred, f),
        decreases v.len() - i,
    {
        proof {
            lemma_select_step(s, i as int, pred, f);
        }
        assert(s[i as int] == v@[i as int]@);
        assert(is_hint_entry(s[i as int]));
        let has = v[i].len() == 64 && entry_has_coin(&v[i], coin);
        assert(pred(s[i as int]) == has);
        if has {
            let h = Bytes32::from_range(v[i].as_slice(), 32);
            let ghost before = out@;
            out.push(h);
            proof {
                assert(h@ =~= entry_hint(s[i as int]));
                assert(f(s[i as int]) == h@);
                assert(out@.map_values(|b: Bytes32| b@) =~= before.map_values(|b: Bytes32| b@).push(
                    h@,
                ));
            }
        }
        i = i + 1;
    }
    proof {
        lemma_take_all(s);
    }
    out
}

} // verus!
