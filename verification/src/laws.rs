//! What holds of every list, whatever was done to it.
//!
//! The laws are stated over the specification functions that the contracts
//! of the operations use: a list that went through a sequence of changes
//! has the view that [`after`] gives for that sequence.

use crate::grid::SkipList;
use crate::hint::{bounds_hint, cuts, inside_of, RangeHint};
use crate::iter::IterAll;
use crate::order::{le, lt, obeys_order_laws};
use crate::sorted::{
    ascending, element_at, in_bounds, index_in, kept, kept_len, lemma_cut_ascending,
    lemma_filter_agree, lemma_insert_ascending, lemma_rank_bounds, lemma_rank_finds,
    lemma_rank_of_element, popped, rank, with_item, without_item,
};
use vstd::prelude::*;

verus! {

/// One change of a list: a call of `insert` or of `remove`.
pub enum Change<T> {
    Insert(T),
    Remove(T),
}

/// The view of a list with view `s` after the change `c`.
pub open spec fn applied<T: PartialOrd>(s: Seq<T>, c: Change<T>) -> Seq<T> {
    match c {
        Change::Insert(x) => with_item(s, x),
        Change::Remove(x) => without_item(s, x),
    }
}

/// What the call behind `c` returns on a list with view `s`: whether the
/// change took place.
pub open spec fn took_place<T>(s: Seq<T>, c: Change<T>) -> bool {
    match c {
        Change::Insert(x) => !s.contains(x),
        Change::Remove(x) => s.contains(x),
    }
}

/// The view of a list that was empty and then went through `changes`.
pub open spec fn after<T: PartialOrd>(changes: Seq<Change<T>>) -> Seq<T>
    decreases changes.len(),
{
    if changes.len() == 0 {
        Seq::empty()
    } else {
        applied(after(changes.drop_last()), changes.last())
    }
}

/// The number of insertions among `changes` that took place, less the
/// number of removals that took place.
pub open spec fn net_count<T: PartialOrd>(changes: Seq<Change<T>>) -> int
    decreases changes.len(),
{
    if changes.len() == 0 {
        0
    } else {
        let before = after(changes.drop_last());
        let step: int = if !took_place(before, changes.last()) {
            0
        } else if changes.last() is Insert {
            1
        } else {
            -1
        };
        net_count(changes.drop_last()) + step
    }
}

/// The last of `changes` that names `x` is an insertion.
pub open spec fn inserted_last<T>(changes: Seq<Change<T>>, x: T) -> bool
    decreases changes.len(),
{
    if changes.len() == 0 {
        false
    } else {
        match changes.last() {
            Change::Insert(y) => y == x || inserted_last(changes.drop_last(), x),
            Change::Remove(y) => y != x && inserted_last(changes.drop_last(), x),
        }
    }
}

/// An ascending sequence holds no element twice.
pub proof fn lemma_ascending_distinct<T: PartialOrd + Clone>(s: Seq<T>)
    requires
        obeys_order_laws::<T>(),
        ascending(s),
    ensures
        s.no_duplicates(),
{
    assert forall|i: int, j: int| 0 <= i < s.len() && 0 <= j < s.len() && i != j implies s[i]
        != s[j] by {
        if i < j {
            assert(lt(s[i], s[j]));
        } else {
            assert(lt(s[j], s[i]));
        }
    }
}

/// What placing an element does to an ascending sequence.
pub proof fn lemma_with_item<T: PartialOrd + Clone>(s: Seq<T>, x: T)
    requires
        obeys_order_laws::<T>(),
        ascending(s),
    ensures
        ascending(with_item(s, x)),
        with_item(s, x).len() == s.len() + if s.contains(x) {
            0int
        } else {
            1int
        },
        forall|y: T| with_item(s, x).contains(y) <==> (s.contains(y) || y == x),
{
    lemma_rank_bounds(s, x);
    if !s.contains(x) {
        lemma_insert_ascending(s, x);
        let r = rank(s, x) as int;
        let t = s.insert(r, x);
        assert forall|y: T| t.contains(y) <==> (s.contains(y) || y == x) by {
            if t.contains(y) {
                let i = choose|i: int| 0 <= i < t.len() && t[i] == y;
                if i < r {
                    assert(s[i] == y);
                } else if i > r {
                    assert(s[i - 1] == y);
                }
            }
            if s.contains(y) {
                let i = choose|i: int| 0 <= i < s.len() && s[i] == y;
                if i < r {
                    assert(t[i] == y);
                } else {
                    assert(t[i + 1] == y);
                }
            }
            if y == x {
                assert(t[r] == x);
            }
        }
    }
}

/// What taking an element out does to an ascending sequence.
pub proof fn lemma_without_item<T: PartialOrd + Clone>(s: Seq<T>, x: T)
    requires
        obeys_order_laws::<T>(),
        ascending(s),
    ensures
        ascending(without_item(s, x)),
        without_item(s, x).len() == s.len() - if s.contains(x) {
            1int
        } else {
            0int
        },
        forall|y: T| without_item(s, x).contains(y) <==> (s.contains(y) && y != x),
{
    lemma_rank_bounds(s, x);
    lemma_rank_finds(s, x);
    lemma_ascending_distinct(s);
    if s.contains(x) {
        let r = rank(s, x) as int;
        let t = s.remove(r);
        lemma_cut_ascending(s, r, r + 1);
        assert(t =~= s.take(r) + s.skip(r + 1));
        assert forall|y: T| t.contains(y) <==> (s.contains(y) && y != x) by {
            if t.contains(y) {
                let i = choose|i: int| 0 <= i < t.len() && t[i] == y;
                if i < r {
                    assert(s[i] == y);
                } else {
                    assert(s[i + 1] == y);
                }
            }
            if s.contains(y) && y != x {
                let i = choose|i: int| 0 <= i < s.len() && s[i] == y;
                if i < r {
                    assert(t[i] == y);
                } else {
                    assert(t[i - 1] == y);
                }
            }
        }
    }
}

/// The view of a list is strictly ascending and holds no element twice,
/// whatever sequence of changes the list went through.
pub proof fn law_sorted<T: PartialOrd + Clone>(changes: Seq<Change<T>>)
    requires
        obeys_order_laws::<T>(),
    ensures
        ascending(after(changes)),
        after(changes).no_duplicates(),
    decreases changes.len(),
{
    if changes.len() > 0 {
        law_sorted(changes.drop_last());
        let before = after(changes.drop_last());
        match changes.last() {
            Change::Insert(x) => lemma_with_item(before, x),
            Change::Remove(x) => lemma_without_item(before, x),
        }
    }
    lemma_ascending_distinct(after(changes));
}

/// What a full traversal of a list yields is strictly ascending and holds
/// no element twice.
pub proof fn law_iter_all_sorted<T: PartialOrd + Clone>(list: &SkipList<T>, it: &IterAll<T>)
    requires
        list.wf(),
        it.remaining() == list@,
    ensures
        ascending(it.remaining()),
        it.remaining().no_duplicates(),
{
    list.lemma_wf();
    lemma_ascending_distinct(list@);
}

/// The length of a list is the number of insertions that returned `true`
/// less the number of removals that returned `true`.
pub proof fn law_cardinality<T: PartialOrd + Clone>(changes: Seq<Change<T>>)
    requires
        obeys_order_laws::<T>(),
    ensures
        after(changes).len() == net_count(changes),
    decreases changes.len(),
{
    if changes.len() > 0 {
        law_cardinality(changes.drop_last());
        law_sorted(changes.drop_last());
        let before = after(changes.drop_last());
        match changes.last() {
            Change::Insert(x) => lemma_with_item(before, x),
            Change::Remove(x) => lemma_without_item(before, x),
        }
    }
}

/// A list holds `x` exactly when `x` was inserted and not removed
/// afterwards.
pub proof fn law_membership<T: PartialOrd + Clone>(changes: Seq<Change<T>>, x: T)
    requires
        obeys_order_laws::<T>(),
    ensures
        after(changes).contains(x) == inserted_last(changes, x),
    decreases changes.len(),
{
    if changes.len() > 0 {
        law_membership(changes.drop_last(), x);
        law_sorted(changes.drop_last());
        let before = after(changes.drop_last());
        match changes.last() {
            Change::Insert(y) => lemma_with_item(before, y),
            Change::Remove(y) => lemma_without_item(before, y),
        }
    }
}

/// The index of the element at index `i` is `i`.
pub proof fn law_rank_consistency<T: PartialOrd + Clone>(list: &SkipList<T>, i: usize)
    requires
        list.wf(),
        i < list@.len(),
    ensures
        element_at(list@, i) == Some(&list@[i as int]),
        index_in(list@, list@[i as int]) == Some(i),
{
    list.lemma_wf();
    lemma_rank_of_element(list@, i as int);
    assert(list@.contains(list@[i as int]));
}

/// The traversal of a closed interval yields exactly the elements of the
/// list that lie in the interval, in ascending order.
pub proof fn law_range_exact<T: PartialOrd + Clone>(list: &SkipList<T>, a: T, b: T)
    requires
        list.wf(),
    ensures
        ascending(list@.filter(in_bounds(a, b))),
        forall|x: T|
            list@.filter(in_bounds(a, b)).contains(x) <==> (list@.contains(x) && le(a, x) && le(
                x,
                b,
            )),
{
    list.lemma_wf();
    let s = list@;
    let pred = in_bounds(a, b);
    lemma_filter_ascending(s, pred);
    assert forall|x: T| s.filter(pred).contains(x) <==> (s.contains(x) && le(a, x) && le(x, b)) by {
        if s.filter(pred).contains(x) {
            s.lemma_filter_contains_rev(pred, x);
            let i = choose|i: int| 0 <= i < s.filter(pred).len() && s.filter(pred)[i] == x;
            s.lemma_filter_pred(pred, i);
        }
        if s.contains(x) && le(a, x) && le(x, b) {
            let i = choose|i: int| 0 <= i < s.len() && s[i] == x;
            assert(pred(s[i]));
            s.lemma_filter_contains(pred, i);
        }
    }
}

/// A filter keeps an ascending sequence ascending.
pub proof fn lemma_filter_ascending<T: PartialOrd + Clone>(s: Seq<T>, pred: spec_fn(T) -> bool)
    requires
        obeys_order_laws::<T>(),
        ascending(s),
    ensures
        ascending(s.filter(pred)),
    decreases s.len(),
{
    reveal(Seq::filter);
    if s.len() > 0 {
        let t = s.drop_last();
        assert forall|i: int, j: int| 0 <= i < j < t.len() implies lt(
            #[trigger] t[i],
            #[trigger] t[j],
        ) by {
            assert(t[i] == s[i] && t[j] == s[j]);
        }
        lemma_filter_ascending(t, pred);
        let u = t.filter(pred);
        if pred(s.last()) {
            let v = u.push(s.last());
            assert forall|i: int, j: int| 0 <= i < j < v.len() implies lt(
                #[trigger] v[i],
                #[trigger] v[j],
            ) by {
                if j < u.len() {
                    assert(v[i] == u[i] && v[j] == u[j]);
                } else {
                    assert(v[i] == u[i]);
                    assert(u.contains(u[i]));
                    t.lemma_filter_contains_rev(pred, u[i]);
                    let k = choose|k: int| 0 <= k < t.len() && t[k] == u[i];
                    assert(t[k] == s[k]);
                    assert(lt(s[k], s[s.len() - 1]));
                }
            }
        }
    }
}

/// A classification whose window is the closed interval from `a` to `b`
/// cuts every ascending sequence into three parts, and the traversal with
/// it yields what the traversal of the interval yields.
pub proof fn law_range_with_agrees<T: PartialOrd + Clone>(
    list: &SkipList<T>,
    a: T,
    b: T,
    h: spec_fn(T) -> RangeHint,
)
    requires
        list.wf(),
        forall|i: int| 0 <= i < list@.len()
            ==> h(#[trigger] list@[i]) == bounds_hint(a, b)(list@[i]),
    ensures
        cuts(h, list@),
        list@.filter(inside_of(h)) == list@.filter(in_bounds(a, b)),
{
    list.lemma_wf();
    let s = list@;
    assert forall|i: int, j: int| 0 <= i < j < s.len() implies {
        &&& h(#[trigger] s[j]) is SmallerThanRange ==> h(#[trigger] s[i]) is SmallerThanRange
        &&& h(s[i]) is LargerThanRange ==> h(s[j]) is LargerThanRange
    } by {
        assert(lt(s[i], s[j]));
        assert(h(s[i]) == bounds_hint(a, b)(s[i]));
        assert(h(s[j]) == bounds_hint(a, b)(s[j]));
    }
    assert forall|i: int| 0 <= i < s.len() implies inside_of(h)(#[trigger] s[i]) == in_bounds(a, b)(
        s[i],
    ) by {
        assert(h(s[i]) == bounds_hint(a, b)(s[i]));
    }
    lemma_filter_agree(s, inside_of(h), in_bounds(a, b));
}

/// Taking the `count` largest elements off a list splits its view in two:
/// what comes off are the last `count` elements, or all where there are
/// no more, in ascending order and each above everything that stays; what
/// stays is unchanged and ascending, and the length shrinks by the number
/// of elements that come off.
pub proof fn law_pop_max<T: PartialOrd + Clone>(list: &SkipList<T>, count: usize)
    requires
        list.wf(),
    ensures
        kept(list@, count) + popped(list@, count) == list@,
        popped(list@, count).len() == if count >= list@.len() {
            list@.len()
        } else {
            count as nat
        },
        kept(list@, count).len() == list@.len() - popped(list@, count).len(),
        ascending(popped(list@, count)),
        ascending(kept(list@, count)),
        forall|i: int, j: int|
            0 <= i < kept(list@, count).len() && 0 <= j < popped(list@, count).len() ==> lt(
                #[trigger] kept(list@, count)[i],
                #[trigger] popped(list@, count)[j],
            ),
{
    list.lemma_wf();
    let s = list@;
    let k = kept_len(s, count);
    assert(s.take(k) + s.skip(k) =~= s);
    lemma_cut_ascending(s, 0, k);
    lemma_cut_ascending(s, k, s.len() as int);
    assert(s.subrange(0, k) =~= s.take(k));
    assert(s.subrange(k, s.len() as int) =~= s.skip(k));
    assert forall|i: int, j: int|
        0 <= i < kept(s, count).len() && 0 <= j < popped(s, count).len() implies lt(
        #[trigger] kept(s, count)[i],
        #[trigger] popped(s, count)[j],
    ) by {
        assert(kept(s, count)[i] == s[i]);
        assert(popped(s, count)[j] == s[k + j]);
    }
}

/// One more than the highest of the rows below row `m` that hold a cell of
/// `x`; 0 where none of them does.
pub open spec fn tower<T: PartialOrd + Clone>(list: &SkipList<T>, x: T, m: int) -> int
    decreases m,
{
    if m <= 0 {
        0
    } else if list.in_row(m - 1, x) {
        m
    } else {
        tower(list, x, m - 1)
    }
}

/// The number of rows that hold a cell of `x`.
pub open spec fn height_of<T: PartialOrd + Clone>(list: &SkipList<T>, x: T) -> int {
    tower(list, x, list.rows())
}

/// Every row of a list begins with a lower bound.
pub proof fn lemma_lower_bounds<T: PartialOrd + Clone>(list: &SkipList<T>, l: int)
    requires
        list.wf(),
        0 <= l < list.rows(),
    ensures
        list.has_cell(l, 0),
    decreases list.rows() - l,
{
    if l == list.rows() - 1 {
        list.lemma_cell_top();
    } else {
        lemma_lower_bounds(list, l + 1);
        list.lemma_cell_below(l + 1, 0);
    }
}

/// The bottom row holds a cell in every column.
pub proof fn lemma_bottom_row<T: PartialOrd + Clone>(list: &SkipList<T>, c: int)
    requires
        list.wf(),
        0 <= c <= list@.len() + 1,
    ensures
        list.has_cell(0, c),
    decreases c,
{
    list.lemma_wf();
    if c == 0 {
        lemma_lower_bounds(list, 0);
    } else {
        lemma_bottom_row(list, c - 1);
        list.lemma_cell_next(c - 1);
    }
}

/// Below a row that holds a cell of `x`, every row holds one.
pub proof fn lemma_rows_below<T: PartialOrd + Clone>(list: &SkipList<T>, x: T, l: int, b: int)
    requires
        list.wf(),
        list.in_row(l, x),
        0 <= b <= l,
    ensures
        list.in_row(b, x),
    decreases l - b,
{
    if b < l {
        list.lemma_wf();
        lemma_rank_bounds(list@, x);
        lemma_rank_finds(list@, x);
        list.lemma_cell_below(l, rank(list@, x) as int + 1);
        lemma_rows_below(list, x, l - 1, b);
    }
}

proof fn lemma_tower<T: PartialOrd + Clone>(list: &SkipList<T>, x: T, m: int)
    requires
        list.wf(),
        list@.contains(x),
        m >= 1,
    ensures
        1 <= tower(list, x, m) <= m,
        forall|l: int| 0 <= l < m ==> (#[trigger] list.in_row(l, x) <==> l < tower(list, x, m)),
    decreases m,
{
    list.lemma_wf();
    lemma_rank_bounds(list@, x);
    lemma_rank_finds(list@, x);
    lemma_bottom_row(list, rank(list@, x) as int + 1);
    if m > 1 {
        lemma_tower(list, x, m - 1);
        if list.in_row(m - 1, x) {
            assert forall|l: int| 0 <= l < m implies #[trigger] list.in_row(l, x) by {
                lemma_rows_below(list, x, m - 1, l);
            }
        }
    }
}

/// An element of a list stands in the bottom row and in the rows above
/// it up to some height, with no row left out, and the top row holds no
/// element.
pub proof fn law_towers<T: PartialOrd + Clone>(list: &SkipList<T>, x: T)
    requires
        list.wf(),
        list@.contains(x),
    ensures
        1 <= height_of(list, x) < list.rows(),
        list.stands_in(x, height_of(list, x)),
{
    list.lemma_wf();
    lemma_rank_bounds(list@, x);
    lemma_rank_finds(list@, x);
    let c = rank(list@, x) as int + 1;
    lemma_bottom_row(list, c);
    list.lemma_cell_place(0, c);
    lemma_tower(list, x, list.rows());
    let h = height_of(list, x);
    if list.in_row(list.rows() - 1, x) {
        list.lemma_cell_place(list.rows() - 1, c);
    }
    assert forall|l: int| #[trigger] list.in_row(l, x) <==> 0 <= l < h by {
        if list.in_row(l, x) {
            list.lemma_cell_place(l, c);
        }
    }
}

} // verus!
