//! Specification helpers for the filtered, mapped and counted views of a sequence that the
//! store's queries return.
use vstd::prelude::*;

verus! {

/// `f` applied to the elements of `s` that satisfy `pred`, in order.
pub open spec fn select<A, B>(s: Seq<A>, pred: spec_fn(A) -> bool, f: spec_fn(A) -> B) -> Seq<B>
    decreases s.len(),
{
    if s.len() == 0 {
        Seq::empty()
    } else {
        let rest = select(s.drop_last(), pred, f);
        if pred(s.last()) {
            rest.push(f(s.last()))
        } else {
            rest
        }
    }
}

/// The first `n` elements of `s`, or all of `s` when it is shorter.
pub open spec fn take_upto<A>(s: Seq<A>, n: int) -> Seq<A> {
    if n < s.len() {
        s.take(n)
    } else {
        s
    }
}

/// The concatenation of `f` applied to each element of `s`, in order.
pub open spec fn flat_map<A, B>(s: Seq<A>, f: spec_fn(A) -> Seq<B>) -> Seq<B>
    decreases s.len(),
{
    if s.len() == 0 {
        Seq::empty()
    } else {
        flat_map(s.drop_last(), f) + f(s.last())
    }
}

/// One more element of the prefix appends its image.
pub proof fn lemma_flat_map_step<A, B>(s: Seq<A>, i: int, f: spec_fn(A) -> Seq<B>)
    requires
        0 <= i < s.len(),
    ensures
        flat_map(s.take(i + 1), f) == flat_map(s.take(i), f) + f(s[i]),
{
    assert(s.take(i + 1).drop_last() =~= s.take(i));
    assert(s.take(i + 1).last() == s[i]);
}

/// Every element of a concatenated image comes from the image of some element.
pub proof fn lemma_flat_map_member<A, B>(s: Seq<A>, f: spec_fn(A) -> Seq<B>, k: int)
    requires
        0 <= k < flat_map(s, f).len(),
    ensures
        exists|j: int, t: int|
            0 <= j < s.len() && 0 <= t < f(s[j]).len() && #[trigger] f(s[j])[t] == flat_map(s, f)[k],
    decreases s.len(),
{
    if s.len() > 0 {
        let p = flat_map(s.drop_last(), f);
        assert(flat_map(s, f) == p + f(s.last()));
        if k < p.len() {
            lemma_flat_map_member(s.drop_last(), f, k);
            let (j, t) = choose|j: int, t: int|
                0 <= j < s.drop_last().len() && 0 <= t < f(s.drop_last()[j]).len()
                    && #[trigger] f(s.drop_last()[j])[t] == p[k];
            assert(s[j] == s.drop_last()[j]);
            assert(f(s[j])[t] == flat_map(s, f)[k]);
        } else {
            let j = s.len() - 1;
            assert(s[j] == s.last());
            assert(f(s[j])[k - p.len()] == flat_map(s, f)[k]);
        }
    }
}

/// Every element of the image of an element is in the concatenated image.
pub proof fn lemma_flat_map_complete<A, B>(s: Seq<A>, f: spec_fn(A) -> Seq<B>, j: int, t: int)
    requires
        0 <= j < s.len(),
        0 <= t < f(s[j]).len(),
    ensures
        flat_map(s, f).contains(f(s[j])[t]),
    decreases s.len(),
{
    let p = flat_map(s.drop_last(), f);
    assert(flat_map(s, f) == p + f(s.last()));
    if j < s.len() - 1 {
        assert(s.drop_last()[j] == s[j]);
        lemma_flat_map_complete(s.drop_last(), f, j, t);
        let k = choose|k: int| 0 <= k < p.len() && p[k] == f(s[j])[t];
        assert(flat_map(s, f)[k] == f(s[j])[t]);
    } else {
        assert(s.last() == s[j]);
        assert(flat_map(s, f)[p.len() + t] == f(s[j])[t]);
    }
}

/// Two distinct elements that satisfy `pred` make a selection of at least two.
pub proof fn lemma_select_two<A, B>(s: Seq<A>, pred: spec_fn(A) -> bool, f: spec_fn(A) -> B, i: int, j: int)
    requires
        0 <= i < j < s.len(),
        pred(s[i]),
        pred(s[j]),
    ensures
        select(s, pred, f).len() >= 2,
    decreases s.len(),
{
    let t = s.drop_last();
    if j < s.len() - 1 {
        assert(t[i] == s[i] && t[j] == s[j]);
        lemma_select_two(t, pred, f, i, j);
    } else {
        assert(t[i] == s[i]);
        assert(s.last() == s[j]);
        lemma_select_complete(t, pred, f, i);
    }
}

/// Number of elements of `s` that satisfy `pred`.
pub open spec fn count<A>(s: Seq<A>, pred: spec_fn(A) -> bool) -> nat
    decreases s.len(),
{
    if s.len() == 0 {
        0
    } else {
        count(s.drop_last(), pred) + if pred(s.last()) {
            1nat
        } else {
            0nat
        }
    }
}

/// Sum of `val` over the elements of `s` that satisfy `pred`.
pub open spec fn sum<A>(s: Seq<A>, pred: spec_fn(A) -> bool, val: spec_fn(A) -> int) -> int
    decreases s.len(),
{
    if s.len() == 0 {
        0
    } else {
        sum(s.drop_last(), pred, val) + if pred(s.last()) {
            val(s.last())
        } else {
            0
        }
    }
}

/// One more element of the prefix extends the selection by that element when it qualifies.
pub proof fn lemma_select_step<A, B>(s: Seq<A>, i: int, pred: spec_fn(A) -> bool, f: spec_fn(A) -> B)
    requires
        0 <= i < s.len(),
    ensures
        select(s.take(i + 1), pred, f) == if pred(s[i]) {
            select(s.take(i), pred, f).push(f(s[i]))
        } else {
            select(s.take(i), pred, f)
        },
        count(s.take(i + 1), pred) == count(s.take(i), pred) + if pred(s[i]) {
            1nat
        } else {
            0nat
        },
{
    assert(s.take(i + 1).drop_last() =~= s.take(i));
    assert(s.take(i + 1).last() == s[i]);
}

/// What a selection keeps and what a complementary count counts make up the whole sequence.
pub proof fn lemma_select_count_complement<A, B>(
    s: Seq<A>,
    keep: spec_fn(A) -> bool,
    drop: spec_fn(A) -> bool,
    f: spec_fn(A) -> B,
)
    requires
        forall|x: A| #[trigger] drop(x) == !keep(x),
    ensures
        select(s, keep, f).len() + count(s, drop) == s.len(),
    decreases s.len(),
{
    if s.len() > 0 {
        lemma_select_count_complement(s.drop_last(), keep, drop, f);
        assert(drop(s.last()) == !keep(s.last()));
    }
}

/// One more element of the prefix adds its value to the sum when it qualifies.
pub proof fn lemma_sum_step<A>(s: Seq<A>, i: int, pred: spec_fn(A) -> bool, val: spec_fn(A) -> int)
    requires
        0 <= i < s.len(),
    ensures
        sum(s.take(i + 1), pred, val) == sum(s.take(i), pred, val) + if pred(s[i]) {
            val(s[i])
        } else {
            0
        },
{
    assert(s.take(i + 1).drop_last() =~= s.take(i));
    assert(s.take(i + 1).last() == s[i]);
}

/// The whole sequence as a prefix.
pub proof fn lemma_take_all<A>(s: Seq<A>)
    ensures
        s.take(s.len() as int) == s,
{
    assert(s.take(s.len() as int) =~= s);
}

/// The selection of a prefix is a prefix of the selection.
pub proof fn lemma_select_prefix<A, B>(
    s: Seq<A>,
    i: int,
    pred: spec_fn(A) -> bool,
    f: spec_fn(A) -> B,
)
    requires
        0 <= i <= s.len(),
    ensures
        select(s.take(i), pred, f).len() <= select(s, pred, f).len(),
        select(s, pred, f).take(select(s.take(i), pred, f).len() as int) == select(
            s.take(i),
            pred,
            f,
        ),
    decreases s.len() - i,
{
    if i == s.len() {
        lemma_take_all(s);
        assert(select(s, pred, f).take(select(s, pred, f).len() as int) =~= select(s, pred, f));
    } else {
        lemma_select_prefix(s, i + 1, pred, f);
        lemma_select_step(s, i, pred, f);
        let a = select(s.take(i), pred, f);
        let b = select(s.take(i + 1), pred, f);
        let whole = select(s, pred, f);
        assert(whole.take(a.len() as int) =~= a) by {
            assert forall|k: int| 0 <= k < a.len() implies whole.take(a.len() as int)[k] == a[k] by {
                assert(whole.take(b.len() as int)[k] == b[k]);
            }
        }
    }
}

/// Elements of a selection come from qualifying elements.
pub proof fn lemma_select_members<A, B>(
    s: Seq<A>,
    pred: spec_fn(A) -> bool,
    f: spec_fn(A) -> B,
    k: int,
)
    requires
        0 <= k < select(s, pred, f).len(),
    ensures
        exists|i: int| 0 <= i < s.len() && pred(s[i]) && select(s, pred, f)[k] == f(#[trigger] s[i]),
    decreases s.len(),
{
    if s.len() > 0 {
        let rest = select(s.drop_last(), pred, f);
        if k < rest.len() {
            lemma_select_members(s.drop_last(), pred, f, k);
            let i = choose|i: int|
                0 <= i < s.drop_last().len() && pred(s.drop_last()[i]) && rest[k] == f(
                    #[trigger] s.drop_last()[i],
                );
            assert(s[i] == s.drop_last()[i]);
        } else {
            assert(select(s, pred, f)[k] == f(s[s.len() - 1]));
        }
    }
}

/// Every qualifying element shows up in the selection.
pub proof fn lemma_select_complete<A, B>(
    s: Seq<A>,
    pred: spec_fn(A) -> bool,
    f: spec_fn(A) -> B,
    i: int,
)
    requires
        0 <= i < s.len(),
        pred(s[i]),
    ensures
        select(s, pred, f).contains(f(s[i])),
    decreases s.len(),
{
    let rest = select(s.drop_last(), pred, f);
    if i < s.len() - 1 {
        lemma_select_complete(s.drop_last(), pred, f, i);
        assert(s.drop_last()[i] == s[i]);
        let k = choose|k: int| 0 <= k < rest.len() && rest[k] == f(s[i]);
        assert(select(s, pred, f)[k] == rest[k]);
    } else {
        assert(select(s, pred, f)[select(s, pred, f).len() - 1] == f(s[i]));
    }
}

/// The count is the length of the selection.
pub proof fn lemma_count_is_select_len<A, B>(s: Seq<A>, pred: spec_fn(A) -> bool, f: spec_fn(A) -> B)
    ensures
        count(s, pred) == select(s, pred, f).len(),
    decreases s.len(),
{
    if s.len() > 0 {
        lemma_count_is_select_len(s.drop_last(), pred, f);
    }
}

/// A count never exceeds the length.
pub proof fn lemma_count_le_len<A>(s: Seq<A>, pred: spec_fn(A) -> bool)
    ensures
        count(s, pred) <= s.len(),
    decreases s.len(),
{
    if s.len() > 0 {
        lemma_count_le_len(s.drop_last(), pred);
    }
}

/// A sum of values in `[0, bound]` over `n` elements is at most `n * bound`.
pub proof fn lemma_sum_bound<A>(s: Seq<A>, pred: spec_fn(A) -> bool, val: spec_fn(A) -> int, bound: int)
    requires
        bound >= 0,
        forall|i: int| 0 <= i < s.len() ==> 0 <= #[trigger] val(s[i]) <= bound,
    ensures
        0 <= sum(s, pred, val) <= s.len() * bound,
    decreases s.len(),
{
    if s.len() > 0 {
        assert forall|i: int| 0 <= i < s.drop_last().len() implies 0 <= #[trigger] val(
            s.drop_last()[i],
        ) <= bound by {
            assert(s.drop_last()[i] == s[i]);
        }
        lemma_sum_bound(s.drop_last(), pred, val, bound);
        assert(val(s.last()) == val(s[s.len() - 1]));
        assert((s.len() - 1) * bound + bound == s.len() * bound) by (nonlinear_arith);
    }
}

} // verus!
