//! Strictly ascending sequences and the rank of a value in one.

use crate::order::{le, lt, obeys_order_laws};
use vstd::prelude::*;

verus! {

/// Every element is strictly below each later one.
pub open spec fn ascending<T: PartialOrd>(s: Seq<T>) -> bool {
    forall|i: int, j: int| 0 <= i < j < s.len() ==> lt(#[trigger] s[i], #[trigger] s[j])
}

/// The number of elements of `s` that are strictly below `x`. In an
/// ascending sequence this is the index at which `x` stands or would stand.
pub open spec fn rank<T: PartialOrd>(s: Seq<T>, x: T) -> nat
    decreases s.len(),
{
    if s.len() == 0 {
        0
    } else {
        rank(s.drop_last(), x) + if lt(s.last(), x) {
            1nat
        } else {
            0nat
        }
    }
}

/// `s` with `x` placed at its rank, unless `s` holds `x` already.
pub open spec fn with_item<T: PartialOrd>(s: Seq<T>, x: T) -> Seq<T> {
    if s.contains(x) {
        s
    } else {
        s.insert(rank(s, x) as int, x)
    }
}

/// `s` without `x`, which stands at its rank where `s` holds it.
pub open spec fn without_item<T: PartialOrd>(s: Seq<T>, x: T) -> Seq<T> {
    if s.contains(x) {
        s.remove(rank(s, x) as int)
    } else {
        s
    }
}

/// What `s` becomes when the elements of `items` are placed into it one
/// after the other, first to last.
pub open spec fn with_items<T: PartialOrd>(s: Seq<T>, items: Seq<T>) -> Seq<T>
    decreases items.len(),
{
    if items.len() == 0 {
        s
    } else {
        with_item(with_items(s, items.drop_last()), items.last())
    }
}

/// The index of `x` in the ascending sequence `s`, if `s` holds it.
pub open spec fn index_in<T: PartialOrd>(s: Seq<T>, x: T) -> Option<usize> {
    if s.contains(x) {
        Some(rank(s, x) as usize)
    } else {
        None
    }
}

/// The element of `s` at `index`, if there is one.
pub open spec fn element_at<'a, T>(s: Seq<T>, index: usize) -> Option<&'a T> {
    if index < s.len() {
        Some(&s[index as int])
    } else {
        None
    }
}

/// How many elements of `s` stay when the last `count` are taken off.
pub open spec fn kept_len<T>(s: Seq<T>, count: usize) -> int {
    if count >= s.len() {
        0
    } else {
        s.len() - count
    }
}

/// `s` without its last `count` elements; empty where `s` has no more.
pub open spec fn kept<T>(s: Seq<T>, count: usize) -> Seq<T> {
    s.take(kept_len(s, count))
}

/// The last `count` elements of `s`; all of `s` where it has no more.
pub open spec fn popped<T>(s: Seq<T>, count: usize) -> Seq<T> {
    s.skip(kept_len(s, count))
}

/// `x` lies in the closed interval from `a` to `b`.
pub open spec fn between<T: PartialOrd>(a: T, b: T, x: T) -> bool {
    le(a, x) && le(x, b)
}

pub proof fn lemma_rank_bounds<T: PartialOrd>(s: Seq<T>, x: T)
    ensures
        rank(s, x) <= s.len(),
    decreases s.len(),
{
    if s.len() > 0 {
        lemma_rank_bounds(s.drop_last(), x);
    }
}

/// In an ascending sequence exactly the first `rank(s, x)` elements are
/// below `x`.
pub proof fn lemma_rank_splits<T: PartialOrd + Clone>(s: Seq<T>, x: T)
    requires
        obeys_order_laws::<T>(),
        ascending(s),
    ensures
        rank(s, x) <= s.len(),
        forall|i: int| 0 <= i < s.len() ==> (lt(#[trigger] s[i], x) <==> i < rank(s, x)),
    decreases s.len(),
{
    if s.len() > 0 {
        let t = s.drop_last();
        assert forall|i: int, j: int| 0 <= i < j < t.len() implies lt(
            #[trigger] t[i],
            #[trigger] t[j],
        ) by {
            assert(t[i] == s[i] && t[j] == s[j]);
        }
        lemma_rank_splits(t, x);
        let last = s.len() - 1;
        assert forall|i: int| 0 <= i < s.len() implies (lt(#[trigger] s[i], x) <==> i < rank(
            s,
            x,
        )) by {
            if i < last {
                assert(t[i] == s[i]);
                if lt(s[last], x) {
                    assert(lt(s[i], s[last]));
                }
            } else {
                if !lt(s[last], x) && rank(t, x) > 0 {
                    let k = rank(t, x) - 1;
                    assert(t[k] == s[k]);
                    assert(lt(s[k], x));
                    assert(lt(s[k], s[last]));
                } else if lt(s[last], x) && rank(t, x) < t.len() {
                    let k = rank(t, x) as int;
                    assert(t[k] == s[k]);
                    assert(!lt(s[k], x));
                    assert(lt(s[k], s[last]));
                }
            }
        }
    }
}

/// A split point of an ascending sequence around `x` is the rank of `x`.
pub proof fn lemma_rank_is<T: PartialOrd + Clone>(s: Seq<T>, x: T, k: int)
    requires
        obeys_order_laws::<T>(),
        ascending(s),
        0 <= k <= s.len(),
        forall|i: int| 0 <= i < k ==> lt(#[trigger] s[i], x),
        forall|i: int| k <= i < s.len() ==> !lt(#[trigger] s[i], x),
    ensures
        rank(s, x) == k,
{
    lemma_rank_splits(s, x);
    let r = rank(s, x) as int;
    if r < k {
        assert(lt(s[r], x));
    } else if r > k {
        assert(!lt(s[k], x));
    }
}

/// An ascending sequence holds `x` exactly when `x` stands at its rank.
pub proof fn lemma_rank_finds<T: PartialOrd + Clone>(s: Seq<T>, x: T)
    requires
        obeys_order_laws::<T>(),
        ascending(s),
    ensures
        s.contains(x) <==> (rank(s, x) < s.len() && s[rank(s, x) as int] == x),
{
    lemma_rank_splits(s, x);
    let r = rank(s, x) as int;
    if s.contains(x) {
        let i = choose|i: int| 0 <= i < s.len() && s[i] == x;
        assert(!lt(s[i], x));
        if r < i {
            assert(!lt(s[r], x));
            assert(lt(s[r], s[i]));
        }
    }
    if r < s.len() && s[r] == x {
        assert(s.contains(x));
    }
}

/// The rank of an element of an ascending sequence is its index.
pub proof fn lemma_rank_of_element<T: PartialOrd + Clone>(s: Seq<T>, i: int)
    requires
        obeys_order_laws::<T>(),
        ascending(s),
        0 <= i < s.len(),
    ensures
        rank(s, s[i]) == i,
{
    assert forall|j: int| 0 <= j < i implies lt(#[trigger] s[j], s[i]) by {}
    assert forall|j: int| i <= j < s.len() implies !lt(#[trigger] s[j], s[i]) by {
        if i < j {
            assert(lt(s[i], s[j]));
        }
    }
    lemma_rank_is(s, s[i], i);
}

/// Placing a new value at its rank keeps the sequence ascending.
pub proof fn lemma_insert_ascending<T: PartialOrd + Clone>(s: Seq<T>, x: T)
    requires
        obeys_order_laws::<T>(),
        ascending(s),
        !s.contains(x),
    ensures
        ascending(s.insert(rank(s, x) as int, x)),
        rank(s, x) <= s.len(),
{
    lemma_rank_splits(s, x);
    lemma_rank_finds(s, x);
    let r = rank(s, x) as int;
    let t = s.insert(r, x);
    assert forall|i: int, j: int| 0 <= i < j < t.len() implies lt(
        #[trigger] t[i],
        #[trigger] t[j],
    ) by {
        if j < r {
            assert(t[i] == s[i] && t[j] == s[j]);
        } else if j == r {
            assert(t[i] == s[i]);
            assert(lt(s[i], x));
        } else if i < r {
            assert(t[i] == s[i] && t[j] == s[j - 1]);
            if i < j - 1 {
                assert(lt(s[i], s[j - 1]));
            }
        } else if i == r {
            assert(t[j] == s[j - 1]);
            assert(!lt(s[j - 1], x));
            assert(s.contains(s[j - 1]));
        } else {
            assert(t[i] == s[i - 1] && t[j] == s[j - 1]);
        }
    }
}

/// Any contiguous part of an ascending sequence is ascending, and so is
/// what is left after a contiguous part is cut out.
pub proof fn lemma_cut_ascending<T: PartialOrd + Clone>(s: Seq<T>, a: int, b: int)
    requires
        obeys_order_laws::<T>(),
        ascending(s),
        0 <= a <= b <= s.len(),
    ensures
        ascending(s.subrange(a, b)),
        ascending(s.take(a) + s.skip(b)),
{
    let u = s.subrange(a, b);
    assert forall|i: int, j: int| 0 <= i < j < u.len() implies lt(
        #[trigger] u[i],
        #[trigger] u[j],
    ) by {
        assert(u[i] == s[a + i] && u[j] == s[a + j]);
    }
    let t = s.take(a) + s.skip(b);
    assert forall|i: int, j: int| 0 <= i < j < t.len() implies lt(
        #[trigger] t[i],
        #[trigger] t[j],
    ) by {
        let si = if i < a { i } else { i + (b - a) };
        let sj = if j < a { j } else { j + (b - a) };
        assert(t[i] == s[si] && t[j] == s[sj]);
    }
}

/// The test of the closed interval from `a` to `b`, as a function.
pub open spec fn in_bounds<T: PartialOrd>(a: T, b: T) -> spec_fn(T) -> bool {
    |x: T| between(a, b, x)
}

/// A filter that no element passes leaves nothing.
pub proof fn lemma_filter_none<T>(s: Seq<T>, pred: spec_fn(T) -> bool)
    requires
        forall|i: int| 0 <= i < s.len() ==> !pred(#[trigger] s[i]),
    ensures
        s.filter(pred) == Seq::<T>::empty(),
    decreases s.len(),
{
    reveal(Seq::filter);
    if s.len() > 0 {
        let t = s.drop_last();
        assert forall|i: int| 0 <= i < t.len() implies !pred(#[trigger] t[i]) by {
            assert(t[i] == s[i]);
        }
        lemma_filter_none(t, pred);
        assert(!pred(s[s.len() - 1]));
    }
}

/// A filter that every element passes leaves everything.
pub proof fn lemma_filter_all<T>(s: Seq<T>, pred: spec_fn(T) -> bool)
    requires
        forall|i: int| 0 <= i < s.len() ==> pred(#[trigger] s[i]),
    ensures
        s.filter(pred) == s,
    decreases s.len(),
{
    reveal(Seq::filter);
    if s.len() > 0 {
        let t = s.drop_last();
        assert forall|i: int| 0 <= i < t.len() implies pred(#[trigger] t[i]) by {
            assert(t[i] == s[i]);
        }
        lemma_filter_all(t, pred);
        assert(pred(s[s.len() - 1]));
        assert(t.push(s.last()) =~= s);
    } else {
        assert(s.filter(pred) =~= s);
    }
}

/// A filter keeps or drops the first element and filters the rest.
pub proof fn lemma_filter_head<T>(s: Seq<T>, pred: spec_fn(T) -> bool)
    requires
        s.len() > 0,
    ensures
        pred(s[0]) ==> s.filter(pred) == seq![s[0]] + s.skip(1).filter(pred),
        pred(s[0])
            ==> s.filter(pred).len() > 0 && s.filter(pred)[0] == s[0]
            && s.filter(pred).skip(1) == s.skip(1).filter(pred),
        !pred(s[0]) ==> s.filter(pred) == s.skip(1).filter(pred),
{
    reveal(Seq::filter);
    let head = s.take(1);
    let rest = s.skip(1);
    assert(head + rest =~= s);
    Seq::filter_distributes_over_add(head, rest, pred);
    assert(head.drop_last() =~= Seq::<T>::empty());
    assert(head.drop_last().filter(pred) =~= Seq::<T>::empty());
    assert(head.last() == s[0]);
    if pred(s[0]) {
        assert(head.filter(pred) =~= seq![s[0]]);
        assert((seq![s[0]] + rest.filter(pred)).skip(1) =~= rest.filter(pred));
    } else {
        assert(head.filter(pred) =~= Seq::<T>::empty());
        assert(Seq::<T>::empty() + rest.filter(pred) =~= rest.filter(pred));
    }
}

/// A filter does not see a prefix of which it keeps nothing.
pub proof fn lemma_filter_skip<T>(s: Seq<T>, pred: spec_fn(T) -> bool, t: int)
    requires
        0 <= t <= s.len(),
        forall|i: int| 0 <= i < t ==> !pred(#[trigger] s[i]),
    ensures
        s.filter(pred) == s.skip(t).filter(pred),
{
    let head = s.take(t);
    let rest = s.skip(t);
    assert(head + rest =~= s);
    Seq::filter_distributes_over_add(head, rest, pred);
    assert forall|i: int| 0 <= i < head.len() implies !pred(#[trigger] head[i]) by {
        assert(head[i] == s[i]);
    }
    lemma_filter_none(head, pred);
    assert(Seq::<T>::empty() + rest.filter(pred) =~= rest.filter(pred));
}

/// Two filters that agree on every element of `s` keep the same of `s`.
pub proof fn lemma_filter_agree<T>(s: Seq<T>, f: spec_fn(T) -> bool, g: spec_fn(T) -> bool)
    requires
        forall|i: int| 0 <= i < s.len() ==> f(#[trigger] s[i]) == g(s[i]),
    ensures
        s.filter(f) == s.filter(g),
    decreases s.len(),
{
    reveal(Seq::filter);
    if s.len() > 0 {
        let t = s.drop_last();
        assert forall|i: int| 0 <= i < t.len() implies f(#[trigger] t[i]) == g(t[i]) by {
            assert(t[i] == s[i]);
        }
        lemma_filter_agree(t, f, g);
        assert(f(s[s.len() - 1]) == g(s[s.len() - 1]));
    }
}

/// Where the elements of an ascending sequence stand once a new value is
/// placed at its rank: the value at its rank, what was before it where it
/// was, and what was behind it one further.
pub proof fn lemma_rank_after_insert<T: PartialOrd + Clone>(s: Seq<T>, x: T, j: int)
    requires
        obeys_order_laws::<T>(),
        ascending(s),
        !s.contains(x),
        0 <= j < s.len(),
    ensures
        rank(s.insert(rank(s, x) as int, x), x) == rank(s, x),
        rank(s.insert(rank(s, x) as int, x), s[j]) == if j < rank(s, x) {
            j
        } else {
            j + 1
        },
        rank(s, s[j]) == j,
{
    let r = rank(s, x) as int;
    let t = s.insert(r, x);
    lemma_insert_ascending(s, x);
    lemma_rank_of_element(s, j);
    lemma_rank_of_element(t, r);
    if j < r {
        assert(t[j] == s[j]);
        lemma_rank_of_element(t, j);
    } else {
        assert(t[j + 1] == s[j]);
        lemma_rank_of_element(t, j + 1);
    }
}

/// The rank of a new value in the sequence that holds it at its rank.
pub proof fn lemma_rank_of_inserted<T: PartialOrd + Clone>(s: Seq<T>, x: T)
    requires
        obeys_order_laws::<T>(),
        ascending(s),
        !s.contains(x),
    ensures
        rank(s.insert(rank(s, x) as int, x), x) == rank(s, x),
{
    let r = rank(s, x) as int;
    lemma_insert_ascending(s, x);
    lemma_rank_of_element(s.insert(r, x), r);
}

/// Where the elements of an ascending sequence stand once the element at
/// `r` is taken out: what was before it where it was, and what was behind
/// it one nearer.
pub proof fn lemma_rank_after_remove<T: PartialOrd + Clone>(s: Seq<T>, r: int, j: int)
    requires
        obeys_order_laws::<T>(),
        ascending(s),
        0 <= r < s.len(),
        0 <= j < s.len(),
        j != r,
    ensures
        s.remove(r).contains(s[j]),
        rank(s.remove(r), s[j]) == if j < r {
            j
        } else {
            j - 1
        },
        rank(s, s[j]) == j,
{
    let t = s.remove(r);
    lemma_cut_ascending(s, r, r + 1);
    assert(t =~= s.take(r) + s.skip(r + 1));
    lemma_rank_of_element(s, j);
    if j < r {
        assert(t[j] == s[j]);
        lemma_rank_of_element(t, j);
    } else {
        assert(t[j - 1] == s[j]);
        lemma_rank_of_element(t, j - 1);
    }
}

/// The elements of a prefix of an ascending sequence stand in the prefix
/// where they stand in the sequence.
pub proof fn lemma_rank_in_prefix<T: PartialOrd + Clone>(s: Seq<T>, k: int, j: int)
    requires
        obeys_order_laws::<T>(),
        ascending(s),
        0 <= j < k <= s.len(),
    ensures
        s.take(k).contains(s[j]),
        rank(s.take(k), s[j]) == j,
        rank(s, s[j]) == j,
{
    let t = s.take(k);
    lemma_cut_ascending(s, 0, k);
    assert(t =~= s.subrange(0, k));
    assert(t[j] == s[j]);
    lemma_rank_of_element(t, j);
    lemma_rank_of_element(s, j);
}

} // verus!
