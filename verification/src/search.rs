//! Descents through the grid, and the queries that are one descent each.
//!
//! A left-biased descent towards `item` starts at the lower bound of the top
//! row. It steps right while the right neighbour is strictly below `item`
//! and steps down otherwise, so in every row it comes to rest on the last
//! cell that is below `item`. A right neighbour that equals `item` is
//! treated like a larger one: the descent never passes an occurrence.

use crate::grid::SkipList;
use crate::order::{lt, obeys_order_laws};
use crate::sorted::{element_at, index_in, lemma_rank_finds, lemma_rank_splits, rank};
use vstd::prelude::*;

verus! {

/// A cell on a descent, with the distance travelled to reach it.
#[derive(Clone, Copy)]
pub struct NodeWidth {
    pub curr_node: usize,
    /// The sum of the widths of the links followed so far, which is the
    /// column of `curr_node`.
    pub curr_width: usize,
}

impl NodeWidth {
    pub fn new(curr_node: usize, curr_width: usize) -> (r: Self)
        ensures
            r.curr_node == curr_node,
            r.curr_width == curr_width,
    {
        Self { curr_node, curr_width }
    }
}

/// A left-biased descent that yields, row by row from the top, the cell it
/// rests on together with the distance travelled.
pub struct LeftBiasIterWidth<'a, T> {
    list: &'a SkipList<T>,
    curr_node: usize,
    total_width: usize,
    item: &'a T,
    finished: bool,
}

impl<'a, T: PartialOrd + Clone> LeftBiasIterWidth<'a, T> {
    pub closed spec fn list(&self) -> &'a SkipList<T> {
        self.list
    }

    /// The list of a descent is well-formed.
    pub proof fn lemma_list_wf(&self)
        requires
            self.wf(),
        ensures
            self.list().wf(),
    {
    }

    pub closed spec fn item(&self) -> T {
        *self.item
    }

    /// The number of rows that the descent has still to yield.
    pub closed spec fn rows_left(&self) -> int {
        if self.finished {
            0
        } else {
            self.list.node_level(self.curr_node as int) + 1
        }
    }

    pub closed spec fn wf(&self) -> bool {
        &&& self.list.wf()
        &&& !self.finished ==> {
            &&& self.list.is_node(self.curr_node as int)
            &&& self.list.node_pos(self.curr_node as int) <= rank(self.list@, *self.item)
            &&& self.total_width == self.list.node_pos(self.curr_node as int)
        }
    }

    pub fn new(list: &'a SkipList<T>, item: &'a T) -> (it: Self)
        requires
            list.wf(),
        ensures
            it.wf(),
            it.list() == list,
            it.item() == *item,
            it.rows_left() == list.rows(),
    {
        let curr_node = list.top_left();
        Self { list, curr_node, total_width: 0, item, finished: false }
    }

    /// Yields the resting cell of the next row: the cell of that row whose
    /// column is at most the rank of the item while the column of its right
    /// neighbour is not.
    pub fn next(&mut self) -> (r: Option<NodeWidth>)
        requires
            old(self).wf(),
        ensures
            final(self).wf(),
            final(self).list() == old(self).list(),
            final(self).item() == old(self).item(),
            old(self).rows_left() == 0 ==> r is None && final(self).rows_left() == 0,
            old(self).rows_left() > 0 ==> final(self).rows_left() == old(self).rows_left() - 1,
            old(self).rows_left() > 0 ==> r is Some && {
                let nw = r->Some_0;
                let t = rank(old(self).list()@, old(self).item()) as int;
                &&& old(self).list().straddles(
                    nw.curr_node as int,
                    old(self).rows_left() - 1,
                    t + 1,
                    t + 1,
                )
                &&& nw.curr_width == old(self).list().node_pos(nw.curr_node as int)
                &&& old(self).rows_left() == 1 ==> nw.curr_width == t
            },
    {
        if self.finished {
            return None;
        }
        let list = self.list;
        let ghost t = rank(list@, *self.item) as int;
        proof {
            list.lemma_wf();
            lemma_rank_splits(list@, *self.item);
            list.lemma_node_place(self.curr_node as int);
        }
        loop
            invariant
                self.list == list,
                old(self).list == list,
                !old(self).finished,
                self.item == old(self).item,
                !self.finished,
                list.wf(),
                obeys_order_laws::<T>(),
                list.is_node(self.curr_node as int),
                list.node_level(self.curr_node as int) == old(self).rows_left() - 1,
                list.node_level(self.curr_node as int) >= 0,
                list.node_pos(self.curr_node as int) <= t,
                self.total_width == list.node_pos(self.curr_node as int),
                t == rank(list@, *self.item),
                t <= list@.len(),
                list@.len() < usize::MAX,
                forall|i: int| 0 <= i < list@.len() ==> (lt(#[trigger] list@[i], *self.item)
                    <==> i < t),
            decreases list@.len() + 1 - list.node_pos(self.curr_node as int),
        {
            let right = list.right(self.curr_node);
            let down = list.down(self.curr_node);
            if list.value(right).below(self.item) {
                let width = list.width(self.curr_node);
                self.total_width = self.total_width + width;
                self.curr_node = right;
            } else {
                let ret = self.curr_node;
                match down {
                    Some(d) => {
                        self.curr_node = d;
                    },
                    None => {
                        self.finished = true;
                    },
                }
                return Some(NodeWidth::new(ret, self.total_width));
            }
        }
    }
}

/// A left-biased descent that yields, row by row from the top, the cell it
/// rests on.
pub struct LeftBiasIter<'a, T> {
    list: &'a SkipList<T>,
    curr_node: usize,
    item: &'a T,
    finished: bool,
}

impl<'a, T: PartialOrd + Clone> LeftBiasIter<'a, T> {
    pub closed spec fn list(&self) -> &'a SkipList<T> {
        self.list
    }

    /// The list of a descent is well-formed.
    pub proof fn lemma_list_wf(&self)
        requires
            self.wf(),
        ensures
            self.list().wf(),
    {
    }

    pub closed spec fn item(&self) -> T {
        *self.item
    }

    /// The number of rows that the descent has still to yield.
    pub closed spec fn rows_left(&self) -> int {
        if self.finished {
            0
        } else {
            self.list.node_level(self.curr_node as int) + 1
        }
    }

    pub closed spec fn wf(&self) -> bool {
        &&& self.list.wf()
        &&& !self.finished ==> {
            &&& self.list.is_node(self.curr_node as int)
            &&& self.list.node_pos(self.curr_node as int) <= rank(self.list@, *self.item)
        }
    }

    pub fn new(list: &'a SkipList<T>, item: &'a T) -> (it: Self)
        requires
            list.wf(),
        ensures
            it.wf(),
            it.list() == list,
            it.item() == *item,
            it.rows_left() == list.rows(),
    {
        let curr_node = list.top_left();
        Self { list, curr_node, item, finished: false }
    }

    /// Yields the resting cell of the next row.
    pub fn next(&mut self) -> (r: Option<usize>)
        requires
            old(self).wf(),
        ensures
            final(self).wf(),
            final(self).list() == old(self).list(),
            final(self).item() == old(self).item(),
            old(self).rows_left() == 0 ==> r is None && final(self).rows_left() == 0,
            old(self).rows_left() > 0 ==> final(self).rows_left() == old(self).rows_left() - 1,
            old(self).rows_left() > 0 ==> r is Some && {
                let c = r->Some_0;
                let t = rank(old(self).list()@, old(self).item()) as int;
                &&& old(self).list().straddles(c as int, old(self).rows_left() - 1, t + 1, t + 1)
                &&& old(self).rows_left() == 1 ==> old(self).list().node_pos(c as int) == t
            },
    {
        if self.finished {
            return None;
        }
        let list = self.list;
        let ghost t = rank(list@, *self.item) as int;
        proof {
            list.lemma_wf();
            lemma_rank_splits(list@, *self.item);
            list.lemma_node_place(self.curr_node as int);
        }
        loop
            invariant
                self.list == list,
                old(self).list == list,
                !old(self).finished,
                self.item == old(self).item,
                !self.finished,
                list.wf(),
                obeys_order_laws::<T>(),
                list.is_node(self.curr_node as int),
                list.node_level(self.curr_node as int) == old(self).rows_left() - 1,
                list.node_level(self.curr_node as int) >= 0,
                list.node_pos(self.curr_node as int) <= t,
                t == rank(list@, *self.item),
                t <= list@.len(),
                forall|i: int| 0 <= i < list@.len() ==> (lt(#[trigger] list@[i], *self.item)
                    <==> i < t),
            decreases list@.len() + 1 - list.node_pos(self.curr_node as int),
        {
            let right = list.right(self.curr_node);
            let down = list.down(self.curr_node);
            if list.value(right).below(self.item) {
                self.curr_node = right;
            } else {
                let ret = self.curr_node;
                match down {
                    Some(d) => {
                        self.curr_node = d;
                    },
                    None => {
                        self.finished = true;
                    },
                }
                return Some(ret);
            }
        }
    }
}

impl<T: PartialOrd + Clone> SkipList<T> {
    /// The descent towards `item`, cell by cell.
    pub fn iter_left<'a>(&'a self, item: &'a T) -> (it: LeftBiasIter<'a, T>)
        requires
            self.wf(),
        ensures
            it.wf(),
            it.list() == self,
            it.item() == *item,
            it.rows_left() == self.rows(),
    {
        LeftBiasIter::new(self, item)
    }

    /// The descent towards `item`, cell by cell with the distance travelled.
    pub fn path_to<'a>(&'a self, item: &'a T) -> (it: LeftBiasIterWidth<'a, T>)
        requires
            self.wf(),
        ensures
            it.wf(),
            it.list() == self,
            it.item() == *item,
            it.rows_left() == self.rows(),
    {
        LeftBiasIterWidth::new(self, item)
    }

    /// The cells on which the descent towards `item` rests, top row first.
    pub fn insert_path(&self, item: &T) -> (path: Vec<NodeWidth>)
        requires
            self.wf(),
        ensures
            path@.len() == self.rows(),
            forall|j: int|
                0 <= j < path@.len() ==> {
                    &&& self.straddles(
                        (#[trigger] path@[j]).curr_node as int,
                        self.rows() - 1 - j,
                        rank(self@, *item) as int + 1,
                        rank(self@, *item) as int + 1,
                    )
                    &&& path@[j].curr_width == self.node_pos(path@[j].curr_node as int)
                },
            path@[self.rows() - 1].curr_width == rank(self@, *item),
    {
        let mut it = self.path_to(item);
        let mut path: Vec<NodeWidth> = Vec::new();
        let ghost t = rank(self@, *item) as int;
        proof {
            self.lemma_wf();
        }
        loop
            invariant
                it.wf(),
                it.list() == self,
                it.item() == *item,
                t == rank(self@, *item),
                self.rows() >= 1,
                path@.len() + it.rows_left() == self.rows(),
                it.rows_left() >= 0,
                forall|j: int|
                    0 <= j < path@.len() ==> {
                        &&& self.straddles(
                            (#[trigger] path@[j]).curr_node as int,
                            self.rows() - 1 - j,
                            t + 1,
                            t + 1,
                        )
                        &&& path@[j].curr_width == self.node_pos(path@[j].curr_node as int)
                    },
                it.rows_left() == 0 ==> path@[self.rows() - 1].curr_width == t,
            ensures
                it.rows_left() == 0,
            decreases it.rows_left(),
        {
            match it.next() {
                Some(nw) => {
                    path.push(nw);
                },
                None => {
                    break ;
                },
            }
        }
        path
    }

    /// Whether `item` is in the list.
    pub fn contains(&self, item: &T) -> (r: bool)
        requires
            self.wf(),
        ensures
            r == self@.contains(*item),
    {
        let mut it = self.iter_left(item);
        let ghost t = rank(self@, *item) as int;
        proof {
            self.lemma_wf();
            lemma_rank_splits(self@, *item);
            lemma_rank_finds(self@, *item);
        }
        loop
            invariant
                self.wf(),
                obeys_order_laws::<T>(),
                it.wf(),
                it.list() == self,
                it.item() == *item,
                t == rank(self@, *item),
                t <= self@.len(),
                it.rows_left() >= 0,
                self@.contains(*item) <==> (t < self@.len() && self@[t] == *item),
                it.rows_left() == 0 ==> !self@.contains(*item),
            decreases it.rows_left(),
        {
            match it.next() {
                Some(node) => {
                    let right = self.right(node);
                    if self.value(right).holds(item) {
                        proof {
                            let c = self.node_pos(right as int);
                            assert(self@[c - 1] == *item);
                            assert(self@.contains(*item));
                        }
                        return true;
                    }
                },
                None => {
                    return false;
                },
            }
        }
    }

    /// The index of `item` in the list, if it is there.
    pub fn index_of(&self, item: &T) -> (r: Option<usize>)
        requires
            self.wf(),
        ensures
            r == index_in(self@, *item),
    {
        let path = self.insert_path(item);
        let ghost t = rank(self@, *item) as int;
        proof {
            self.lemma_wf();
            lemma_rank_splits(self@, *item);
            lemma_rank_finds(self@, *item);
        }
        let last = path[path.len() - 1];
        let right = self.right(last.curr_node);
        if self.value(right).holds(item) {
            Some(last.curr_width)
        } else {
            None
        }
    }

    /// The element at `index`, if there is one.
    pub fn at_index(&self, index: usize) -> (r: Option<&T>)
        requires
            self.wf(),
        ensures
            r == element_at(self@, index),
    {
        if index >= self.len() {
            return None;
        }
        let mut curr_node = self.top_left();
        let mut distance_left = index + 1;
        proof {
            self.lemma_wf();
        }
        loop
            invariant
                self.wf(),
                index < self@.len(),
                self.is_node(curr_node as int),
                self.node_pos(curr_node as int) + distance_left == index + 1,
                self.node_level(curr_node as int) >= 0,
            decreases self.node_level(curr_node as int), distance_left,
        {
            if distance_left == 0 {
                return Some(self.value(curr_node).get_value());
            }
            let width = self.width(curr_node);
            if width <= distance_left {
                distance_left = distance_left - width;
                curr_node = self.right(curr_node);
            } else {
                match self.down(curr_node) {
                    Some(d) => {
                        curr_node = d;
                    },
                    None => {
                        proof {
                            self.lemma_bottom_step(curr_node as int);
                        }
                        vstd::pervasive::unreached()
                    },
                }
            }
        }
    }
}

} // verus!
