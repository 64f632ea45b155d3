//! Read-only traversals of a list.
//!
//! A traversal borrows the list and hands out its elements one `next` at a
//! time, in ascending order. What it has still to hand out is its
//! `remaining` sequence: every `next` yields the first element of that
//! sequence and leaves the rest. None of the traversals implements
//! `Iterator`; callers drive them with `while let Some(x) = it.next()`.

use crate::grid::SkipList;
use crate::hint::{
    accepts, accepts_all, cuts, describes, inside_of, says_above, says_below, says_inside,
    RangeHint,
};
use crate::node::NodeValue;
use crate::order::{duplicate, lt, obeys_order_laws};
use crate::laws::lemma_bottom_row;
use crate::sorted::{
    in_bounds, lemma_filter_all, lemma_filter_head, lemma_filter_none, lemma_filter_skip,
    lemma_rank_of_element, lemma_rank_splits, rank,
};
use vstd::prelude::*;

verus! {

/// One step of a traversal that hands out references: `r` is the first
/// element of `before` and `after` is the rest, or `before` is empty, `r`
/// is nothing and `after` is empty too.
pub open spec fn steps<T>(before: Seq<T>, r: Option<&T>, after: Seq<T>) -> bool {
    if before.len() > 0 {
        r == Some(&before[0]) && after == before.skip(1)
    } else {
        r is None && after == before
    }
}

/// One step of a traversal that hands out values.
pub open spec fn steps_owned<T>(before: Seq<T>, r: Option<T>, after: Seq<T>) -> bool {
    if before.len() > 0 {
        r == Some(before[0]) && after == before.skip(1)
    } else {
        r is None && after == before
    }
}

/// One end of a range of indices.
#[derive(Debug, Clone, Copy)]
pub enum IndexBound {
    /// The range reaches this index and holds it.
    Included(usize),
    /// The range reaches this index and does not hold it.
    Excluded(usize),
    /// The range has no end on this side.
    Unbounded,
}

impl IndexBound {
    /// The first index of a range that begins with this bound.
    pub open spec fn first(self) -> int {
        match self {
            IndexBound::Included(i) => i as int,
            IndexBound::Excluded(i) => i + 1,
            IndexBound::Unbounded => 0,
        }
    }

    /// The index behind the last of a range of a sequence of length `len`
    /// that ends with this bound.
    pub open spec fn behind(self, len: int) -> int {
        match self {
            IndexBound::Included(i) => i + 1,
            IndexBound::Excluded(i) => i as int,
            IndexBound::Unbounded => len,
        }
    }
}

/// The part of `s` whose indices lie between the two bounds. Indices behind
/// the end of `s` are left out, and a range that ends before it begins is
/// empty.
pub open spec fn index_window<T>(s: Seq<T>, start: IndexBound, end: IndexBound) -> Seq<T> {
    let lo = if start.first() < s.len() {
        start.first()
    } else {
        s.len() as int
    };
    let hi = if end.behind(s.len() as int) < s.len() {
        end.behind(s.len() as int)
    } else {
        s.len() as int
    };
    if lo < hi {
        s.subrange(lo, hi)
    } else {
        Seq::empty()
    }
}

/// A walk down one column, from a cell to the bottom row. The upper bounds
/// are not linked downwards, so a walk that starts on one ends there.
pub struct VerticalIter<'a, T> {
    list: &'a SkipList<T>,
    curr_node: Option<usize>,
}

impl<'a, T: PartialOrd + Clone> VerticalIter<'a, T> {
    pub closed spec fn list(&self) -> &'a SkipList<T> {
        self.list
    }

    /// The number of cells that a walk from cell `c` of `list` yields.
    pub open spec fn reach(list: &SkipList<T>, c: int) -> int {
        if list.node_pos(c) == list@.len() + 1 {
            1
        } else {
            list.node_level(c) + 1
        }
    }

    /// The number of cells that the walk has still to yield.
    pub closed spec fn cells_left(&self) -> int {
        match self.curr_node {
            Some(c) => Self::reach(self.list, c as int),
            None => 0,
        }
    }

    pub closed spec fn wf(&self) -> bool {
        &&& self.list.wf()
        &&& self.curr_node matches Some(c) ==> self.list.is_node(c as int)
    }

    /// The list of a walk is well-formed.
    pub proof fn lemma_list_wf(&self)
        requires
            self.wf(),
        ensures
            self.list().wf(),
    {
    }

    /// A walk that starts on the cell `curr_node`, which may be any cell.
    pub fn new(list: &'a SkipList<T>, curr_node: usize) -> (it: Self)
        requires
            list.wf(),
            list.is_node(curr_node as int),
        ensures
            it.wf(),
            it.list() == list,
            it.cells_left() == Self::reach(list, curr_node as int),
    {
        Self { list, curr_node: Some(curr_node) }
    }

    /// Yields the cell that the walk stands on and steps down.
    pub fn next(&mut self) -> (r: Option<usize>)
        requires
            old(self).wf(),
        ensures
            final(self).wf(),
            final(self).list() == old(self).list(),
            old(self).cells_left() <= 0 ==> r is None && final(self).cells_left() == 0,
            old(self).cells_left() > 0 ==> {
                &&& r is Some
                &&& final(self).list().is_node(r->Some_0 as int)
                &&& Self::reach(final(self).list(), r->Some_0 as int) == old(self).cells_left()
                &&& final(self).cells_left() == old(self).cells_left() - 1
            },
    {
        match self.curr_node {
            Some(c) => {
                proof {
                    self.list.lemma_node_place(c as int);
                }
                self.curr_node = self.list.down(c);
                Some(c)
            },
            None => None,
        }
    }
}

/// The test "row `l` of `list` holds a cell of the element", as a function.
pub open spec fn row_holds<T: PartialOrd + Clone>(list: &SkipList<T>, l: int) -> spec_fn(
    T,
) -> bool {
    |x: T| list.in_row(l, x)
}

/// A walk along one row that yields a copy of every element of the row
/// from a cell up to the upper bound.
pub struct NodeRightIter<'a, T> {
    list: &'a SkipList<T>,
    curr_node: usize,
}

impl<'a, T: PartialOrd + Clone> NodeRightIter<'a, T> {
    pub closed spec fn list(&self) -> &'a SkipList<T> {
        self.list
    }

    /// The row that the walk goes along.
    pub closed spec fn row(&self) -> int {
        self.list.node_level(self.curr_node as int)
    }

    pub closed spec fn wf(&self) -> bool {
        &&& self.list.wf()
        &&& self.list.is_node(self.curr_node as int)
        &&& self.list.node_pos(self.curr_node as int) >= 1
    }

    /// The list of a walk is well-formed.
    pub proof fn lemma_list_wf(&self)
        requires
            self.wf(),
        ensures
            self.list().wf(),
    {
    }

    /// What the walk has still to yield: the elements from the cell it
    /// stands on that have a cell in its row.
    pub closed spec fn remaining(&self) -> Seq<T> {
        self.list@.skip(self.list.node_pos(self.curr_node as int) - 1).filter(
            row_holds(self.list, self.row()),
        )
    }

    /// A walk that starts on the cell `curr_node`, which may be any cell
    /// but a lower bound. In the bottom row the walk yields every element
    /// from that cell on.
    pub fn new(list: &'a SkipList<T>, curr_node: usize) -> (it: Self)
        requires
            list.wf(),
            list.is_node(curr_node as int),
            list.node_pos(curr_node as int) >= 1,
        ensures
            it.wf(),
            it.list() == list,
            it.row() == list.node_level(curr_node as int),
            it.remaining() == list@.skip(list.node_pos(curr_node as int) - 1).filter(
                row_holds(list, list.node_level(curr_node as int)),
            ),
            list.node_level(curr_node as int) == 0 ==> it.remaining() == list@.skip(
                list.node_pos(curr_node as int) - 1,
            ),
    {
        proof {
            if list.node_level(curr_node as int) == 0 {
                list.lemma_wf();
                list.lemma_node_place(curr_node as int);
                let p = list.node_pos(curr_node as int);
                let rest = list@.skip(p - 1);
                assert forall|i: int| 0 <= i < rest.len() implies row_holds(list, 0)(
                    #[trigger] rest[i],
                ) by {
                    assert(rest[i] == list@[p - 1 + i]);
                    lemma_rank_of_element(list@, p - 1 + i);
                    lemma_bottom_row(list, p + i);
                }
                lemma_filter_all(rest, row_holds(list, 0));
            }
        }
        Self { list, curr_node }
    }

    /// Yields a copy of the element that the walk stands on and steps to
    /// the next cell of the row.
    pub fn next(&mut self) -> (r: Option<T>)
        requires
            old(self).wf(),
        ensures
            final(self).wf(),
            final(self).list() == old(self).list(),
            final(self).row() == old(self).row(),
            steps_owned(old(self).remaining(), r, final(self).remaining()),
    {
        let list = self.list;
        let ghost s = list@;
        let ghost l = list.node_level(self.curr_node as int);
        let ghost p = list.node_pos(self.curr_node as int);
        let ghost pred = row_holds(list, l);
        proof {
            list.lemma_wf();
            list.lemma_node_place(self.curr_node as int);
        }
        let value = list.value(self.curr_node);
        if value.is_pos_inf() {
            proof {
                lemma_filter_none(s.skip(p - 1), pred);
            }
            return None;
        }
        let ret = duplicate(value.get_value());
        let right = list.right(self.curr_node);
        proof {
            let rest = s.skip(p - 1);
            let q = list.node_pos(right as int);
            assert(rest[0] == s[p - 1]);
            lemma_rank_of_element(s, p - 1);
            list.lemma_cell(self.curr_node as int);
            assert(pred(rest[0]));
            lemma_filter_head(rest, pred);
            assert(rest.skip(1) =~= s.skip(p));
            let tail = s.skip(p);
            assert forall|i: int| 0 <= i < q - 1 - p implies !pred(#[trigger] tail[i]) by {
                assert(tail[i] == s[p + i]);
                lemma_rank_of_element(s, p + i);
                list.lemma_gap_free(self.curr_node as int, p + i + 1);
            }
            lemma_filter_skip(tail, pred, q - 1 - p);
            assert(tail.skip(q - 1 - p) =~= s.skip(q - 1));
        }
        self.curr_node = right;
        Some(ret)
    }
}

/// The traversal of a list that was taken over: it owns the list and hands
/// out a copy of every element.
pub struct IntoIter<T> {
    skiplist: SkipList<T>,
    curr_node: usize,
    finished: bool,
    total_len: usize,
}

impl<T: PartialOrd + Clone> IntoIter<T> {
    /// The list that the traversal took over.
    pub closed spec fn list(&self) -> &SkipList<T> {
        &self.skiplist
    }

    /// The list of a traversal is well-formed.
    pub proof fn lemma_list_wf(&self)
        requires
            self.wf(),
        ensures
            self.list().wf(),
    {
    }

    pub closed spec fn wf(&self) -> bool {
        &&& self.skiplist.wf()
        &&& self.skiplist.is_node(self.curr_node as int)
        &&& self.skiplist.node_level(self.curr_node as int) == 0
        &&& self.skiplist.node_pos(self.curr_node as int) <= self.skiplist@.len()
        &&& self.finished ==> self.skiplist.node_pos(self.curr_node as int) == self.skiplist@.len()
    }

    /// What the traversal has still to yield.
    pub closed spec fn remaining(&self) -> Seq<T> {
        self.skiplist@.skip(self.skiplist.node_pos(self.curr_node as int))
    }

    /// The number of elements that the list held when it was taken over.
    pub closed spec fn total(&self) -> nat {
        self.total_len as nat
    }

    pub fn next(&mut self) -> (r: Option<T>)
        requires
            old(self).wf(),
        ensures
            final(self).wf(),
            final(self).list() == old(self).list(),
            final(self).total() == old(self).total(),
            steps_owned(old(self).remaining(), r, final(self).remaining()),
    {
        if self.finished {
            return None;
        }
        proof {
            self.skiplist.lemma_wf();
            self.skiplist.lemma_node_place(self.curr_node as int);
        }
        let right = self.skiplist.right(self.curr_node);
        let value = self.skiplist.value(right);
        if value.is_pos_inf() {
            self.finished = true;
            return None;
        }
        let ret = duplicate(value.get_value());
        proof {
            let c = self.skiplist.node_pos(self.curr_node as int);
            assert(self.skiplist@.skip(c).skip(1) =~= self.skiplist@.skip(c + 1));
        }
        self.curr_node = right;
        Some(ret)
    }

    /// The bounds on the number of elements: both are the number that the
    /// list held when it was taken over.
    pub fn size_hint(&self) -> (r: (usize, Option<usize>))
        ensures
            r == (self.total() as usize, Some(self.total() as usize)),
    {
        (self.total_len, Some(self.total_len))
    }
}

/// The traversal of every element of a list.
pub struct IterAll<'a, T> {
    list: &'a SkipList<T>,
    curr_node: usize,
    at_bottom: bool,
    finished: bool,
    total_len: usize,
}

impl<'a, T: PartialOrd + Clone> IterAll<'a, T> {
    pub closed spec fn list(&self) -> &'a SkipList<T> {
        self.list
    }

    /// The list of a traversal is well-formed.
    pub proof fn lemma_list_wf(&self)
        requires
            self.wf(),
        ensures
            self.list().wf(),
    {
    }

    pub closed spec fn wf(&self) -> bool {
        &&& self.list.wf()
        &&& self.total_len == self.list@.len()
        &&& !self.finished ==> {
            &&& self.list.is_node(self.curr_node as int)
            &&& if self.at_bottom {
                self.list.node_level(self.curr_node as int) == 0 && self.list.node_pos(
                    self.curr_node as int,
                ) >= 1
            } else {
                self.list.node_pos(self.curr_node as int) == 0
            }
        }
    }

    /// What the traversal has still to yield.
    pub closed spec fn remaining(&self) -> Seq<T> {
        if self.finished {
            Seq::empty()
        } else if self.at_bottom {
            self.list@.skip(self.list.node_pos(self.curr_node as int) - 1)
        } else {
            self.list@
        }
    }

    pub fn new(list: &'a SkipList<T>) -> (it: Self)
        requires
            list.wf(),
        ensures
            it.wf(),
            it.list() == list,
            it.remaining() == list@,
    {
        Self {
            list,
            curr_node: list.top_left(),
            at_bottom: false,
            finished: false,
            total_len: list.len(),
        }
    }

    /// Yields the next element. The first call goes down to the bottom
    /// row, every call steps one cell to the right.
    pub fn next(&mut self) -> (r: Option<&'a T>)
        requires
            old(self).wf(),
        ensures
            final(self).wf(),
            final(self).list() == old(self).list(),
            steps(old(self).remaining(), r, final(self).remaining()),
    {
        if self.finished {
            return None;
        }
        let list = self.list;
        proof {
            list.lemma_wf();
            list.lemma_node_place(self.curr_node as int);
        }
        if !self.at_bottom {
            loop
                invariant
                    list.wf(),
                    list.is_node(self.curr_node as int),
                    list.node_pos(self.curr_node as int) == 0,
                    list.node_level(self.curr_node as int) >= 0,
                    self.list == list,
                    old(self).list == list,
                    self.total_len == old(self).total_len,
                    !self.at_bottom,
                    !self.finished,
                ensures
                    list.node_level(self.curr_node as int) == 0,
                decreases list.node_level(self.curr_node as int),
            {
                match list.down(self.curr_node) {
                    Some(d) => {
                        self.curr_node = d;
                    },
                    None => {
                        break ;
                    },
                }
            }
            self.curr_node = list.right(self.curr_node);
            self.at_bottom = true;
            proof {
                assert(list@.skip(0) =~= list@);
            }
        }
        let value = list.value(self.curr_node);
        if value.is_pos_inf() {
            return None;
        }
        proof {
            let c = list.node_pos(self.curr_node as int);
            assert(list@.skip(c - 1).skip(1) =~= list@.skip(c));
        }
        let right = list.right(self.curr_node);
        if list.value(right).is_pos_inf() {
            self.finished = true;
            proof {
                assert(list@.skip(list@.len() as int) =~= Seq::<T>::empty());
            }
        } else {
            self.curr_node = right;
        }
        Some(value.get_value())
    }

    /// The bounds on the number of elements: both are the length of the
    /// list.
    pub fn size_hint(&self) -> (r: (usize, Option<usize>))
        requires
            self.wf(),
        ensures
            r == (self.list()@.len() as usize, Some(self.list()@.len() as usize)),
    {
        (self.total_len, Some(self.total_len))
    }
}

/// The traversal of the elements at a range of indices.
pub struct SkipListIndexRange<'a, T> {
    list: &'a SkipList<T>,
    end: IndexBound,
    curr_node: usize,
    curr_index: usize,
}

impl<'a, T: PartialOrd + Clone> SkipListIndexRange<'a, T> {
    pub closed spec fn list(&self) -> &'a SkipList<T> {
        self.list
    }

    /// The list of a traversal is well-formed.
    pub proof fn lemma_list_wf(&self)
        requires
            self.wf(),
        ensures
            self.list().wf(),
    {
    }

    pub closed spec fn wf(&self) -> bool {
        &&& self.list.wf()
        &&& self.list.is_node(self.curr_node as int)
        &&& self.list.node_level(self.curr_node as int) == 0
        &&& self.list.node_pos(self.curr_node as int) == self.curr_index + 1
    }

    /// What the traversal has still to yield.
    pub closed spec fn remaining(&self) -> Seq<T> {
        index_window(self.list@, IndexBound::Included(self.curr_index), self.end)
    }

    /// Finds the cell of the first index of the range: it follows, from
    /// the top row down, every link that does not lead past the column
    /// before that index, and then steps one cell to the right.
    pub fn new(list: &'a SkipList<T>, start: IndexBound, end: IndexBound) -> (it: Self)
        requires
            list.wf(),
        ensures
            it.wf(),
            it.list() == list,
            it.remaining() == index_window(list@, start, end),
    {
        let len = list.len();
        proof {
            list.lemma_wf();
        }
        let wanted = match start {
            IndexBound::Unbounded => 0,
            IndexBound::Included(idx) => idx,
            IndexBound::Excluded(idx) => if idx < len {
                idx + 1
            } else {
                len
            },
        };
        // the column before the first index, or the last column of all
        let column = if wanted < len {
            wanted
        } else {
            len
        };
        let mut curr_node = list.top_left();
        let mut distance_left = column;
        loop
            invariant
                list.wf(),
                column <= list@.len(),
                list.is_node(curr_node as int),
                list.node_pos(curr_node as int) + distance_left == column,
                list.node_level(curr_node as int) >= 0,
            ensures
                list.node_level(curr_node as int) == 0,
                list.node_pos(curr_node as int) == column,
            decreases list.node_level(curr_node as int), distance_left,
        {
            let width = list.width(curr_node);
            if distance_left > 0 && width <= distance_left {
                distance_left = distance_left - width;
                curr_node = list.right(curr_node);
            } else {
                match list.down(curr_node) {
                    Some(d) => {
                        curr_node = d;
                    },
                    None => {
                        proof {
                            list.lemma_bottom_step(curr_node as int);
                        }
                        break ;
                    },
                }
            }
        }
        let curr_node = list.right(curr_node);
        Self { list, end, curr_node, curr_index: column }
    }

    /// Yields the element at the next index of the range.
    pub fn next(&mut self) -> (r: Option<&'a T>)
        requires
            old(self).wf(),
        ensures
            final(self).wf(),
            final(self).list() == old(self).list(),
            steps(old(self).remaining(), r, final(self).remaining()),
    {
        let list = self.list;
        proof {
            list.lemma_wf();
            list.lemma_node_place(self.curr_node as int);
        }
        let value = list.value(self.curr_node);
        if value.is_pos_inf() {
            return None;
        }
        match self.end {
            IndexBound::Unbounded => {},
            IndexBound::Included(idx) => {
                if self.curr_index > idx {
                    return None;
                }
            },
            IndexBound::Excluded(idx) => {
                if self.curr_index >= idx {
                    return None;
                }
            },
        }
        proof {
            let before = old(self).remaining();
            let after = index_window(
                list@,
                IndexBound::Included((self.curr_index + 1) as usize),
                self.end,
            );
            assert(before[0] == list@[self.curr_index as int]);
            assert(after =~= before.skip(1));
        }
        self.curr_index = self.curr_index + 1;
        self.curr_node = list.right(self.curr_node);
        Some(value.get_value())
    }
}

/// The traversal of the elements of a closed interval of the order.
pub struct SkipListRange<'a, T> {
    list: &'a SkipList<T>,
    curr_node: usize,
    start: &'a T,
    end: &'a T,
    at_bottom: bool,
}

impl<'a, T: PartialOrd + Clone> SkipListRange<'a, T> {
    pub closed spec fn list(&self) -> &'a SkipList<T> {
        self.list
    }

    /// The list of a traversal is well-formed.
    pub proof fn lemma_list_wf(&self)
        requires
            self.wf(),
        ensures
            self.list().wf(),
    {
    }

    pub closed spec fn wf(&self) -> bool {
        &&& self.list.wf()
        &&& self.list.is_node(self.curr_node as int)
        &&& if self.at_bottom {
            &&& self.list.node_level(self.curr_node as int) == 0
            &&& self.list.node_pos(self.curr_node as int) >= 1
            &&& self.list.node_pos(self.curr_node as int) - 1 >= rank(self.list@, *self.start)
        } else {
            self.list.node_pos(self.curr_node as int) <= rank(self.list@, *self.start)
        }
    }

    /// What the traversal has still to yield.
    pub closed spec fn remaining(&self) -> Seq<T> {
        if self.at_bottom {
            self.list@.skip(self.list.node_pos(self.curr_node as int) - 1).filter(
                in_bounds(*self.start, *self.end),
            )
        } else {
            self.list@.filter(in_bounds(*self.start, *self.end))
        }
    }

    pub fn new(list: &'a SkipList<T>, start: &'a T, end: &'a T) -> (it: Self)
        requires
            list.wf(),
        ensures
            it.wf(),
            it.list() == list,
            it.remaining() == list@.filter(in_bounds(*start, *end)),
    {
        Self { list, curr_node: list.top_left(), start, end, at_bottom: false }
    }

    /// Yields the next element of the interval. The first call finds the
    /// first element that is not below the start; every call yields the
    /// element it stands on while that is not above the end.
    pub fn next(&mut self) -> (r: Option<&'a T>)
        requires
            old(self).wf(),
        ensures
            final(self).wf(),
            final(self).list() == old(self).list(),
            steps(old(self).remaining(), r, final(self).remaining()),
    {
        let list = self.list;
        let ghost t = rank(list@, *self.start) as int;
        let ghost pred = in_bounds(*self.start, *self.end);
        proof {
            list.lemma_wf();
            lemma_rank_splits(list@, *self.start);
            list.lemma_node_place(self.curr_node as int);
        }
        while !self.at_bottom
            invariant
                list.wf(),
                obeys_order_laws::<T>(),
                self.list == list,
                old(self).list == list,
                self.start == old(self).start,
                self.end == old(self).end,
                list.is_node(self.curr_node as int),
                list.node_level(self.curr_node as int) >= 0,
                t == rank(list@, *self.start),
                t <= list@.len(),
                forall|i: int| 0 <= i < list@.len() ==> (lt(#[trigger] list@[i], *self.start)
                    <==> i < t),
                !self.at_bottom
                    ==> list.node_pos(self.curr_node as int) <= t && !old(self).at_bottom,
                self.at_bottom ==> {
                    &&& list.node_level(self.curr_node as int) == 0
                    &&& list.node_pos(self.curr_node as int) >= 1
                    &&& list.node_pos(self.curr_node as int) - 1 >= t
                    &&& !old(self).at_bottom ==> list.node_pos(self.curr_node as int) - 1 == t
                    &&& old(self).at_bottom ==> self.curr_node == old(self).curr_node
                },
            decreases
                    if self.at_bottom {
                        0
                    } else {
                        list.node_level(self.curr_node as int) + 1
                    },
                    list@.len() + 1 - list.node_pos(self.curr_node as int),
        {
            let right = list.right(self.curr_node);
            if list.value(right).below(self.start) {
                self.curr_node = right;
            } else {
                match list.down(self.curr_node) {
                    Some(d) => {
                        self.curr_node = d;
                    },
                    None => {
                        self.at_bottom = true;
                        self.curr_node = right;
                    },
                }
            }
        }
        let ghost c = list.node_pos(self.curr_node as int);
        let ghost rest = list@.skip(c - 1);
        proof {
            if !old(self).at_bottom {
                assert forall|i: int| 0 <= i < t implies !pred(#[trigger] list@[i]) by {
                    assert(lt(list@[i], *self.start));
                }
                lemma_filter_skip(list@, pred, t);
            }
            assert(old(self).remaining() == rest.filter(pred));
        }
        let value = list.value(self.curr_node);
        if value.at_most(self.end) {
            proof {
                assert(rest[0] == list@[c - 1]);
                assert(!lt(list@[c - 1], *self.start));
                assert(pred(rest[0]));
                lemma_filter_head(rest, pred);
                assert(rest.skip(1) =~= list@.skip(c));
            }
            self.curr_node = list.right(self.curr_node);
            return Some(value.get_value());
        }
        proof {
            assert forall|i: int| 0 <= i < rest.len() implies !pred(#[trigger] rest[i]) by {
                assert(rest[i] == list@[c - 1 + i]);
                if i > 0 {
                    assert(lt(list@[c - 1], list@[c - 1 + i]));
                }
            }
            lemma_filter_none(rest, pred);
        }
        None
    }
}

/// The traversal of the elements that a classifier places inside its
/// window.
pub struct IterRangeWith<'a, T, F> {
    list: &'a SkipList<T>,
    inclusive_fn: F,
    curr_node: usize,
    at_bottom: bool,
}

impl<'a, T: PartialOrd + Clone, F: Fn(&T) -> RangeHint> IterRangeWith<'a, T, F> {
    pub closed spec fn list(&self) -> &'a SkipList<T> {
        self.list
    }

    /// The classifier of the traversal.
    pub closed spec fn classifier(&self) -> F {
        self.inclusive_fn
    }

    pub closed spec fn wf(&self) -> bool {
        let c = self.list.node_pos(self.curr_node as int);
        let s = self.list@;
        let f = self.inclusive_fn;
        &&& self.list.wf()
        &&& accepts_all(f, s)
        &&& self.list.is_node(self.curr_node as int)
        &&& !self.at_bottom ==> c <= s.len() && (c == 0 || says_below(f, s[c - 1]))
        &&& self.at_bottom ==> {
            &&& self.list.node_level(self.curr_node as int) == 0
            &&& c >= 1
            // the classifier has placed an element before this one before
            // the window or inside it, and never this one before it
            &&& c == 1 || says_below(f, s[c - 2]) || says_inside(f, s[c - 2])
            &&& c >= 2 && says_inside(f, s[c - 2]) || c > s.len() || says_inside(f, s[c - 1])
                || says_above(f, s[c - 1])
        }
    }

    /// The number of elements, counted from the smallest, that the
    /// traversal has left behind: those it stepped over and those it
    /// yielded. It is 0 until the first call of `next`.
    pub closed spec fn passed(&self) -> int {
        if self.at_bottom {
            self.list.node_pos(self.curr_node as int) - 1
        } else {
            0
        }
    }

    /// The list of a traversal is well-formed, and its classifier can be
    /// called on every element of the list.
    pub proof fn lemma_list_wf(&self)
        requires
            self.wf(),
        ensures
            self.list().wf(),
            accepts_all(self.classifier(), self.list()@),
    {
    }

    /// What the traversal has still to yield, where `h` describes the
    /// classifier and cuts the list into a part before the window, the
    /// window and a part behind it.
    pub closed spec fn remaining(&self, h: spec_fn(T) -> RangeHint) -> Seq<T> {
        if self.at_bottom {
            self.list@.skip(self.list.node_pos(self.curr_node as int) - 1).filter(inside_of(h))
        } else {
            self.list@.filter(inside_of(h))
        }
    }

    pub fn new(list: &'a SkipList<T>, inclusive_fn: F) -> (it: Self)
        requires
            list.wf(),
            accepts_all(inclusive_fn, list@),
        ensures
            it.wf(),
            it.list() == list,
            it.classifier() == inclusive_fn,
            it.passed() == 0,
            forall|h: spec_fn(T) -> RangeHint| #[trigger]
                it.remaining(h) == list@.filter(inside_of(h)),
    {
        Self { list, inclusive_fn, curr_node: list.top_left(), at_bottom: false }
    }

    /// Whether `item` lies before the window: a lower bound does, an upper
    /// bound does not, and of an element the classifier decides.
    pub fn item_smaller_than_range(&self, item: &NodeValue<T>) -> (r: bool)
        requires
            item is Value ==> accepts(self.classifier(), item->Value_0),
        ensures
            item is NegInf ==> r,
            item is PosInf ==> !r,
            item is Value ==> {
                let v = item->Value_0;
                &&& r ==> says_below(self.classifier(), v)
                &&& !r ==> says_inside(self.classifier(), v) || says_above(self.classifier(), v)
            },
    {
        match item {
            NodeValue::NegInf => true,
            NodeValue::PosInf => false,
            NodeValue::Value(v) => {
                match (self.inclusive_fn)(v) {
                    RangeHint::SmallerThanRange => true,
                    _ => false,
                }
            },
        }
    }

    /// Whether `item` lies inside the window: no bound does, and of an
    /// element the classifier decides.
    pub fn item_in_range(&self, item: &NodeValue<T>) -> (r: bool)
        requires
            item is Value ==> accepts(self.classifier(), item->Value_0),
        ensures
            !(item is Value) ==> !r,
            item is Value ==> {
                let v = item->Value_0;
                &&& r ==> says_inside(self.classifier(), v)
                &&& !r ==> says_below(self.classifier(), v) || says_above(self.classifier(), v)
            },
    {
        match item {
            NodeValue::NegInf => false,
            NodeValue::PosInf => false,
            NodeValue::Value(v) => {
                match (self.inclusive_fn)(v) {
                    RangeHint::InRange => true,
                    _ => false,
                }
            },
        }
    }

    /// Yields the next element of the window. The first call finds the
    /// first element that the classifier does not place before the
    /// window; every call yields the element it stands on while the
    /// classifier places it inside.
    ///
    /// Whatever the classifier answers, the traversal only moves forward
    /// through the list: what is yielded is the element at index
    /// `passed() - 1` after the call, which the classifier placed inside
    /// the window, so successive calls yield elements in ascending order
    /// and no more of them than the list holds. The classifier is called
    /// on elements of the list only. Where the classifier cuts the list
    /// into three parts, the calls yield exactly the elements that it
    /// places inside.
    pub fn next(&mut self) -> (r: Option<&'a T>)
        requires
            old(self).wf(),
        ensures
            final(self).wf(),
            final(self).list() == old(self).list(),
            final(self).classifier() == old(self).classifier(),
            0 <= old(self).passed() <= final(self).passed() <= old(self).list()@.len(),
            r is Some ==> old(self).passed() < final(self).passed() && *r->Some_0
                == old(self).list()@[final(self).passed() - 1],
            r is Some ==> old(self).list()@.contains(*r->Some_0) && says_inside(
                old(self).classifier(),
                *r->Some_0,
            ),
            forall|h: spec_fn(T) -> RangeHint|
                #![trigger old(self).remaining(h)]
                #![trigger final(self).remaining(h)]
                describes(h, old(self).classifier()) && cuts(h, old(self).list()@) ==> steps(
                    old(self).remaining(h),
                    r,
                    final(self).remaining(h),
                ),
    {
        let list = self.list;
        let ghost f = self.inclusive_fn;
        let ghost s = list@;
        proof {
            list.lemma_wf();
            list.lemma_node_place(self.curr_node as int);
        }
        while !self.at_bottom
            invariant
                list.wf(),
                s == list@,
                self.list == list,
                old(self).list == list,
                self.inclusive_fn == f,
                old(self).inclusive_fn == f,
                accepts_all(f, s),
                list.is_node(self.curr_node as int),
                list.node_level(self.curr_node as int) >= 0,
                0 <= list.node_pos(self.curr_node as int) <= s.len() + 1,
                !self.at_bottom ==> !old(self).at_bottom && list.node_pos(self.curr_node as int)
                    <= s.len() && (list.node_pos(self.curr_node as int) == 0 || says_below(
                    f,
                    s[list.node_pos(self.curr_node as int) - 1],
                )),
                self.at_bottom && old(self).at_bottom ==> self.curr_node == old(self).curr_node,
                self.at_bottom ==> {
                    let c = list.node_pos(self.curr_node as int);
                    &&& list.node_level(self.curr_node as int) == 0
                    &&& c >= 1
                    &&& !old(self).at_bottom ==> {
                        &&& c == 1 || says_below(f, s[c - 2])
                        &&& c <= s.len() ==> says_inside(f, s[c - 1]) || says_above(f, s[c - 1])
                    }
                },
            decreases
                    if self.at_bottom {
                        0
                    } else {
                        list.node_level(self.curr_node as int) + 1
                    },
                    s.len() + 1 - list.node_pos(self.curr_node as int),
        {
            let right = list.right(self.curr_node);
            if self.item_smaller_than_range(list.value(right)) {
                self.curr_node = right;
            } else {
                match list.down(self.curr_node) {
                    Some(d) => {
                        self.curr_node = d;
                    },
                    None => {
                        self.at_bottom = true;
                        self.curr_node = right;
                    },
                }
            }
        }
        let ghost c = list.node_pos(self.curr_node as int);
        let ghost rest = s.skip(c - 1);
        let ghost landed = *self;
        proof {
            assert(landed.wf());
            assert forall|h: spec_fn(T) -> RangeHint|
                describes(h, f) && cuts(h, s) implies #[trigger] old(self).remaining(h)
                == rest.filter(inside_of(h)) by {
                if !old(self).at_bottom {
                    // everything before the landing place is before the
                    // window
                    assert forall|i: int| 0 <= i < c - 1 implies !inside_of(h)(#[trigger] s[i]) by {
                        assert(says_below(f, s[c - 2]));
                        assert(h(s[c - 2]) is SmallerThanRange);
                        assert(h(s[i]) is SmallerThanRange);
                    }
                    lemma_filter_skip(s, inside_of(h), c - 1);
                }
            }
        }
        let value = list.value(self.curr_node);
        if self.item_in_range(value) {
            proof {
                assert(rest[0] == s[c - 1]);
                assert(rest.skip(1) =~= s.skip(c));
                assert(s.contains(s[c - 1]));
            }
            self.curr_node = list.right(self.curr_node);
            proof {
                assert forall|h: spec_fn(T) -> RangeHint|
                    #![trigger old(self).remaining(h)]
                    #![trigger self.remaining(h)]
                    describes(h, f) && cuts(h, s) implies steps(
                    old(self).remaining(h),
                    Some(&s[c - 1]),
                    self.remaining(h),
                ) by {
                    assert(old(self).remaining(h) == rest.filter(inside_of(h)));
                    assert(says_inside(f, s[c - 1]));
                    assert(inside_of(h)(rest[0]));
                    lemma_filter_head(rest, inside_of(h));
                }
            }
            return Some(value.get_value());
        }
        proof {
            assert forall|h: spec_fn(T) -> RangeHint|
                #![trigger old(self).remaining(h)]
                #![trigger self.remaining(h)]
                describes(h, f) && cuts(h, s) implies steps(
                old(self).remaining(h),
                None,
                self.remaining(h),
            ) by {
                assert(old(self).remaining(h) == rest.filter(inside_of(h)));
                assert forall|i: int| 0 <= i < rest.len() implies !inside_of(h)(
                    #[trigger] rest[i],
                ) by {
                    assert(rest[i] == s[c - 1 + i]);
                    // the element here is behind the window, and so is
                    // everything that follows it
                    assert(!(h(s[c - 1]) is InRange));
                    if h(s[c - 1]) is SmallerThanRange {
                        if c >= 2 && says_inside(f, s[c - 2]) {
                            assert(h(s[c - 2]) is InRange);
                        }
                        assert(false);
                    }
                    assert(h(s[c - 1]) is LargerThanRange);
                }
                lemma_filter_none(rest, inside_of(h));
            }
        }
        None
    }
}

impl<T: PartialOrd + Clone> SkipList<T> {
    /// The traversal of every element, in ascending order.
    pub fn iter_all(&self) -> (it: IterAll<'_, T>)
        requires
            self.wf(),
        ensures
            it.wf(),
            it.list() == self,
            it.remaining() == self@,
    {
        IterAll::new(self)
    }

    /// The traversal of the elements from `start` to `end`, both
    /// included, in ascending order.
    pub fn range<'a>(&'a self, start: &'a T, end: &'a T) -> (it: SkipListRange<'a, T>)
        requires
            self.wf(),
        ensures
            it.wf(),
            it.list() == self,
            it.remaining() == self@.filter(in_bounds(*start, *end)),
    {
        SkipListRange::new(self, start, end)
    }

    /// The traversal of the elements that `inclusive_fn` places inside its
    /// window, in ascending order. The classifier is meant to cut the list
    /// into a part before the window, the window and a part behind it; see
    /// [`IterRangeWith::next`] for what holds where it does not.
    pub fn range_with<F: Fn(&T) -> RangeHint>(&self, inclusive_fn: F) -> (it: IterRangeWith<
        '_,
        T,
        F,
    >)
        requires
            self.wf(),
            accepts_all(inclusive_fn, self@),
        ensures
            it.wf(),
            it.list() == self,
            it.classifier() == inclusive_fn,
            it.passed() == 0,
            forall|h: spec_fn(T) -> RangeHint| #[trigger]
                it.remaining(h) == self@.filter(inside_of(h)),
    {
        IterRangeWith::new(self, inclusive_fn)
    }

    /// The traversal of the elements whose indices lie between `start` and
    /// `end`, in ascending order.
    pub fn index_range(&self, start: IndexBound, end: IndexBound) -> (it: SkipListIndexRange<
        '_,
        T,
    >)
        requires
            self.wf(),
        ensures
            it.wf(),
            it.list() == self,
            it.remaining() == index_window(self@, start, end),
    {
        SkipListIndexRange::new(self, start, end)
    }

    /// Takes the list over into a traversal that hands out a copy of every
    /// element, in ascending order.
    pub fn into_iter(self) -> (it: IntoIter<T>)
        requires
            self.wf(),
        ensures
            it.wf(),
            *it.list() == self,
            it.remaining() == self@,
            it.total() == self@.len(),
    {
        let total_len = self.len();
        let mut curr_node = self.top_left();
        proof {
            self.lemma_wf();
        }
        loop
            invariant
                self.wf(),
                self.is_node(curr_node as int),
                self.node_pos(curr_node as int) == 0,
                self.node_level(curr_node as int) >= 0,
            ensures
                self.node_level(curr_node as int) == 0,
            decreases self.node_level(curr_node as int),
        {
            match self.down(curr_node) {
                Some(d) => {
                    curr_node = d;
                },
                None => {
                    break ;
                },
            }
        }
        proof {
            assert(self@.skip(0) =~= self@);
        }
        IntoIter { skiplist: self, curr_node, finished: false, total_len }
    }

    /// Whether two lists hold the same elements.
    pub fn eq(&self, other: &Self) -> (r: bool)
        requires
            self.wf(),
            other.wf(),
        ensures
            r == (self@ == other@),
    {
        if self.len() != other.len() {
            return false;
        }
        let mut left = self.iter_all();
        let mut right = other.iter_all();
        let ghost mut seen: int = 0;
        proof {
            self.lemma_wf();
            assert(self@.skip(0) =~= self@);
            assert(other@.skip(0) =~= other@);
        }
        loop
            invariant
                self.wf(),
                other.wf(),
                obeys_order_laws::<T>(),
                left.wf(),
                right.wf(),
                left.list() == self,
                right.list() == other,
                self@.len() == other@.len(),
                0 <= seen <= self@.len(),
                left.remaining() == self@.skip(seen),
                right.remaining() == other@.skip(seen),
                forall|i: int| 0 <= i < seen ==> self@[i] == other@[i],
            decreases self@.len() - seen,
        {
            match (left.next(), right.next()) {
                (Some(l), Some(r)) => {
                    if !crate::order::same(l, r) {
                        proof {
                            assert(self@.skip(seen)[0] == self@[seen]);
                            assert(other@.skip(seen)[0] == other@[seen]);
                        }
                        return false;
                    }
                    proof {
                        assert(self@.skip(seen)[0] == self@[seen]);
                        assert(other@.skip(seen)[0] == other@[seen]);
                        assert(self@.skip(seen).skip(1) =~= self@.skip(seen + 1));
                        assert(other@.skip(seen).skip(1) =~= other@.skip(seen + 1));
                        seen = seen + 1;
                    }
                },
                _ => {
                    proof {
                        assert(self@ =~= other@);
                    }
                    return true;
                },
            }
        }
    }
}

} // verus!
