//! The container and the arena of cells that it owns.
//!
//! Cells live in one vector and link to each other by index. Next to the
//! cells the container keeps, as ghost state, the row and the column of
//! every cell and the ascending sequence of elements that the grid stands
//! for. Column 0 holds the lower bounds, column `c` with `1 <= c <= len`
//! holds the element of index `c - 1`, and column `len + 1` holds the upper
//! bounds. Everything outside this module sees the grid through the
//! functions below and their contracts.

use crate::node::{value_for, Node, NodeValue};
use crate::order::obeys_order_laws;
use crate::sorted::{
    ascending, lemma_cut_ascending, lemma_insert_ascending, lemma_rank_bounds, rank,
};
use vstd::prelude::*;

verus! {

/// An ordered set of unique elements with positional access.
///
/// The view of a list is the strictly ascending sequence of its elements.
/// A list owns all of its cells. It has no interior mutability and no
/// synchronisation of its own: it is changed through one exclusive
/// reference at a time, a traversal borrows it for as long as the
/// traversal lives, and it is not meant to be shared between threads
/// while it changes.
pub struct SkipList<T> {
    /// The arena: every cell of the grid stands in one slot.
    nodes: Vec<Node<T>>,
    /// The slots that hold no cell.
    free: Vec<usize>,
    /// The slot of the lower bound of the top row.
    top_left: usize,
    /// The number of rows.
    height: usize,
    /// The number of elements.
    len: usize,
    /// The row of the cell in each slot, and -1 for a slot that holds none.
    level: Ghost<Seq<int>>,
    /// The column of the cell in each slot.
    pos: Ghost<Seq<int>>,
    /// The elements, in ascending order.
    elems: Ghost<Seq<T>>,
    /// The slots of the cells of the bottom row.
    base: Ghost<Set<int>>,
}

/// `s` with `x` in slot `i`: in place of what was there, or appended where
/// `i` is the first slot behind `s`.
pub open spec fn place<A>(s: Seq<A>, i: int, x: A) -> Seq<A> {
    if i < s.len() {
        s.update(i, x)
    } else {
        s.push(x)
    }
}

/// `s` with `by` added to every entry from `from` upwards.
pub open spec fn shift(s: Seq<int>, from: int, by: int) -> Seq<int> {
    Seq::new(
        s.len(),
        |i: int|
            if s[i] >= from {
                s[i] + by
            } else {
                s[i]
            },
    )
}

/// What a slot holds while it is on the free list.
pub open spec fn blank_node<T>() -> Node<T> {
    Node { right: None, down: None, value: NodeValue::NegInf, width: 0 }
}

impl<T> View for SkipList<T> {
    type V = Seq<T>;

    closed spec fn view(&self) -> Seq<T> {
        self.elems@
    }
}

impl<T: PartialOrd + Clone> SkipList<T> {
    /// Slot `i` of the arena holds a cell of the grid.
    pub closed spec fn is_node(&self, i: int) -> bool {
        0 <= i < self.nodes@.len() && self.level@[i] >= 0
    }

    /// The row of cell `i`; row 0 is the bottom row.
    pub closed spec fn node_level(&self, i: int) -> int {
        self.level@[i]
    }

    /// The column of cell `i`.
    pub closed spec fn node_pos(&self, i: int) -> int {
        self.pos@[i]
    }

    /// The slot that cell `i` links to on its right.
    pub closed spec fn right_of(&self, i: int) -> int {
        match self.nodes@[i].right {
            Some(r) => r as int,
            None => -1,
        }
    }

    /// The slot that cell `i` links to below.
    pub closed spec fn down_of(&self, i: int) -> int {
        match self.nodes@[i].down {
            Some(d) => d as int,
            None => -1,
        }
    }

    /// The number of rows.
    pub closed spec fn rows(&self) -> int {
        self.height as int
    }

    /// The slot of the cell where the top row begins.
    pub closed spec fn top(&self) -> int {
        self.top_left as int
    }

    /// What cell `i` holds.
    pub closed spec fn value_of(&self, i: int) -> NodeValue<T> {
        self.nodes@[i].value
    }

    /// The width that cell `i` keeps for its link to the right.
    pub closed spec fn width_of(&self, i: int) -> int {
        self.nodes@[i].width as int
    }

    /// Cell `c` stands in row `l`, left of column `p`, and its right
    /// neighbour stands in column `q` or further right.
    pub open spec fn straddles(&self, c: int, l: int, p: int, q: int) -> bool {
        &&& self.is_node(c)
        &&& self.node_level(c) == l
        &&& self.node_pos(c) < p
        &&& self.node_pos(self.right_of(c)) >= q
    }

    /// Row `l` holds a cell in column `c`.
    pub closed spec fn has_cell(&self, l: int, c: int) -> bool {
        exists|i: int| #[trigger] self.is_node(i) && self.level@[i] == l && self.pos@[i] == c
    }

    /// The test behind [`Self::is_node`], written out so that the cell
    /// invariant names no cell but its own.
    #[verifier::inline]
    spec fn holds_cell(&self, i: int) -> bool {
        0 <= i < self.nodes@.len() && self.level@[i] >= 0
    }

    /// By how much the width of cell `i` falls short of the distance to its
    /// right neighbour while the columns `p..q` are cut out of the rows
    /// from `k` upwards.
    spec fn slack(&self, i: int, k: int, p: int, q: int) -> int {
        if self.level@[i] >= k && self.pos@[i] < p && self.pos@[self.right_of(i)] >= q {
            q - p
        } else {
            0
        }
    }

    spec fn node_inv(&self, i: int, k: int, p: int, q: int) -> bool {
        let nd = self.nodes@[i];
        let l = self.level@[i];
        let c = self.pos@[i];
        let n = self.elems@.len() as int;
        &&& l < self.height
        &&& 0 <= c <= n + 1
        &&& 1 <= c <= n ==> l + 1 < self.height
        &&& nd.value == value_for(self.elems@, c)
        &&& !(l >= k && p <= c < q)
        &&& if c == n + 1 {
            nd.right is None && nd.down is None
        } else {
            let r = self.right_of(i);
            let d = self.down_of(i);
            &&& nd.right is Some
            &&& self.holds_cell(r)
            &&& self.level@[r] == l
            &&& self.pos@[r] > c
            &&& nd.width as int == self.pos@[r] - c - self.slack(i, k, p, q)
            &&& l == 0 ==> nd.down is None
            &&& l > 0 ==> {
                &&& nd.down is Some
                &&& self.holds_cell(d)
                &&& self.level@[d] == l - 1
                &&& self.pos@[d] == c
            }
        }
    }

    /// Every cell of the bottom row but `c` steps to the next column.
    spec fn dense_but(&self, c: int) -> bool {
        forall|i: int|
            #[trigger] self.is_node(i) && i != c && self.level@[i] == 0 && self.pos@[i]
                <= self.elems@.len() ==> self.nodes@[i].width == 1
    }

    /// No two cells share a row and a column.
    spec fn unique(&self) -> bool {
        forall|i: int, j: int|
            #[trigger] self.is_node(i) && #[trigger] self.is_node(j) && self.level@[i]
                == self.level@[j] && self.pos@[i] == self.pos@[j] ==> i == j
    }

    /// No cell of a row stands between a cell and its right neighbour.
    spec fn linear(&self) -> bool {
        forall|i: int, j: int|
            #[trigger] self.is_node(i) && #[trigger] self.is_node(j) && self.level@[i]
                == self.level@[j] && self.pos@[i] < self.pos@[j] ==> self.pos@[self.right_of(i)]
                <= self.pos@[j]
    }

    /// The bookkeeping of the arena: the ghost maps cover the slots, and
    /// the free list names distinct slots that hold no cell.
    spec fn arena_ok(&self) -> bool {
        &&& self.level@.len() == self.nodes@.len()
        &&& self.pos@.len() == self.nodes@.len()
        &&& forall|a: int|
            0 <= a < self.free@.len() ==> 0 <= #[trigger] self.free@[a] < self.nodes@.len()
                && self.level@[self.free@[a] as int] == -1
        &&& forall|a: int, b: int|
            0 <= a < b < self.free@.len() ==> #[trigger] self.free@[a] != #[trigger] self.free@[b]
    }

    /// The ghost set `base` holds the slots of the cells of the bottom row.
    spec fn base_ok(&self) -> bool {
        &&& self.base@.finite()
        &&& forall|i: int| #[trigger]
            self.base@.contains(i) <==> (self.holds_cell(i) && self.level@[i] == 0)
    }

    /// The bottom row has `m` cells.
    spec fn counted(&self, m: int) -> bool {
        self.base@.len() == m
    }

    /// The number of cells that the bottom row should have: one for every
    /// element and two bounds, less the columns that are cut out of it.
    spec fn due(&self, k: int, p: int, q: int) -> int {
        self.elems@.len() + 2 - if k == 0 {
            q - p
        } else {
            0
        }
    }

    spec fn shape(&self, k: int, p: int, q: int) -> bool {
        let n = self.elems@.len() as int;
        &&& obeys_order_laws::<T>()
        &&& ascending(self.elems@)
        &&& self.len == n
        &&& n + 1 <= usize::MAX
        &&& self.height >= 1
        &&& 0 <= k
        &&& p <= q
        &&& p < q ==> 1 <= p && q <= n + 1
        &&& self.arena_ok()
        &&& self.base_ok()
        &&& self.is_node(self.top_left as int)
        &&& self.level@[self.top_left as int] == self.height - 1
        &&& self.pos@[self.top_left as int] == 0
        &&& forall|i: int| #[trigger] self.is_node(i) ==> self.node_inv(i, k, p, q)
        &&& self.unique()
        &&& self.linear()
    }

    /// The grid is consistent while the columns `p..q` are cut out of the
    /// rows from `k` upwards: those rows hold no cell in these columns, and
    /// a link of theirs that passes over the columns does not count them in
    /// its width. With `p == q` nothing is cut out.
    pub closed spec fn inv(&self, k: int, p: int, q: int) -> bool {
        self.shape(k, p, q) && self.dense_but(-1) && self.counted(self.due(k, p, q))
    }

    /// The invariant of the container: the grid stands for the view, which
    /// is ascending, and every width is the distance that its link covers.
    pub closed spec fn wf(&self) -> bool {
        self.inv(0, 0, 0)
    }

    /// What a well-formed list guarantees to the rest of the crate.
    pub proof fn lemma_wf(&self)
        requires
            self.wf(),
        ensures
            obeys_order_laws::<T>(),
            ascending(self@),
            self@.len() < usize::MAX,
            self.rows() >= 1,
    {
    }

    /// Where a cell can stand.
    pub proof fn lemma_node_place(&self, i: int)
        requires
            self.wf(),
            self.is_node(i),
        ensures
            0 <= self.node_level(i) < self.rows(),
            0 <= self.node_pos(i) <= self@.len() + 1,
    {
        assert(self.node_inv(i, 0, 0, 0));
    }

    /// A cell holds what belongs to its column.
    pub proof fn lemma_cell_value(&self, i: int)
        requires
            self.wf(),
            self.is_node(i),
        ensures
            self.value_of(i) == value_for(self@, self.node_pos(i)),
    {
        assert(self.node_inv(i, 0, 0, 0));
    }

    /// A cell that is no upper bound links to a cell of its row further
    /// right, and its width is the number of columns between the two.
    pub proof fn lemma_link(&self, i: int)
        requires
            self.wf(),
            self.is_node(i),
            self.node_pos(i) <= self@.len(),
        ensures
            self.is_node(self.right_of(i)),
            self.node_level(self.right_of(i)) == self.node_level(i),
            self.node_pos(i) < self.node_pos(self.right_of(i)) <= self@.len() + 1,
            self.width_of(i) == self.node_pos(self.right_of(i)) - self.node_pos(i),
    {
        assert(self.node_inv(i, 0, 0, 0));
        assert(self.is_node(self.right_of(i)));
        assert(self.node_inv(self.right_of(i), 0, 0, 0));
    }

    /// A cell above the bottom row, if it is no upper bound, links down to
    /// the cell of its column in the next row.
    pub proof fn lemma_down(&self, i: int)
        requires
            self.wf(),
            self.is_node(i),
        ensures
            self.is_node(self.down_of(i)) ==> self.node_pos(self.down_of(i)) == self.node_pos(i)
                && self.node_level(self.down_of(i)) == self.node_level(i) - 1,
    {
        assert(self.node_inv(i, 0, 0, 0));
    }

    /// The top row begins with a lower bound and holds no element: its
    /// first link leads to the upper bound.
    pub proof fn lemma_top_row(&self)
        requires
            self.wf(),
        ensures
            self.is_node(self.top()),
            self.node_pos(self.top()) == 0,
            self.node_level(self.top()) == self.rows() - 1,
            self.is_node(self.right_of(self.top())),
            self.node_pos(self.right_of(self.top())) == self@.len() + 1,
    {
        let t = self.top_left as int;
        assert(self.is_node(t));
        assert(self.node_inv(t, 0, 0, 0));
        assert(self.is_node(self.right_of(t)));
        assert(self.node_inv(self.right_of(t), 0, 0, 0));
    }

    /// A cell of the bottom row links to the next column.
    pub proof fn lemma_bottom_step(&self, i: int)
        requires
            self.wf(),
            self.is_node(i),
            self.node_level(i) == 0,
            self.node_pos(i) <= self@.len(),
        ensures
            self.node_pos(self.right_of(i)) == self.node_pos(i) + 1,
    {
        assert(self.node_inv(i, 0, 0, 0));
    }

    /// The arena has a slot for every cell of the bottom row, so the
    /// length of a list stays two short of the largest index.
    pub proof fn lemma_room(&self)
        requires
            self.wf(),
        ensures
            self@.len() + 2 <= usize::MAX,
    {
        let slots = vstd::set_lib::set_int_range(0, self.nodes@.len() as int);
        vstd::set_lib::lemma_int_range(0, self.nodes@.len() as int);
        assert(self.base@.subset_of(slots));
        vstd::set_lib::lemma_len_subset(self.base@, slots);
        assert(self.nodes@.len() == self.nodes.len());
    }

    /// Takes a slot for `node`, which is to stand in row `l` and column `c`.
    fn take_slot(&mut self, node: Node<T>, Ghost(l): Ghost<int>, Ghost(c): Ghost<int>) -> (idx:
        usize)
        requires
            old(self).arena_ok(),
            l >= 0,
        ensures
            final(self).arena_ok(),
            !old(self).is_node(idx as int),
            idx <= old(self).nodes@.len(),
            final(self).nodes@ == place(old(self).nodes@, idx as int, node),
            final(self).level@ == place(old(self).level@, idx as int, l),
            final(self).pos@ == place(old(self).pos@, idx as int, c),
            final(self).top_left == old(self).top_left,
            final(self).height == old(self).height,
            final(self).len == old(self).len,
            final(self).elems == old(self).elems,
            final(self).base == old(self).base,
    {
        match self.free.pop() {
            Some(idx) => {
                assert(old(self).free@[old(self).free@.len() - 1] == idx);
                self.nodes[idx] = node;
                self.level = Ghost(self.level@.update(idx as int, l));
                self.pos = Ghost(self.pos@.update(idx as int, c));
                assert forall|a: int| 0 <= a < self.free@.len()
                    implies 0 <= #[trigger] self.free@[a]
                    < self.nodes@.len() && self.level@[self.free@[a] as int] == -1 by {
                    assert(self.free@[a] == old(self).free@[a]);
                }
                assert forall|a: int, b: int| 0 <= a < b < self.free@.len()
                    implies #[trigger] self.free@[a]
                    != #[trigger] self.free@[b] by {
                    assert(self.free@[a] == old(self).free@[a]);
                    assert(self.free@[b] == old(self).free@[b]);
                }
                idx
            },
            None => {
                let idx = self.nodes.len();
                self.nodes.push(node);
                self.level = Ghost(self.level@.push(l));
                self.pos = Ghost(self.pos@.push(c));
                idx
            },
        }
    }

    /// Gives the slot of cell `idx` back to the arena.
    fn free_slot(&mut self, idx: usize)
        requires
            old(self).arena_ok(),
            old(self).is_node(idx as int),
        ensures
            final(self).arena_ok(),
            final(self).nodes@ == old(self).nodes@.update(idx as int, blank_node()),
            final(self).level@ == old(self).level@.update(idx as int, -1),
            final(self).pos == old(self).pos,
            final(self).top_left == old(self).top_left,
            final(self).height == old(self).height,
            final(self).len == old(self).len,
            final(self).elems == old(self).elems,
            final(self).base == old(self).base,
    {
        self.nodes[idx] = Node { right: None, down: None, value: NodeValue::NegInf, width: 0 };
        self.level = Ghost(self.level@.update(idx as int, -1));
        self.free.push(idx);
        assert forall|a: int, b: int| 0 <= a < b < self.free@.len() implies #[trigger] self.free@[a]
            != #[trigger] self.free@[b] by {
            if b == self.free@.len() - 1 {
                assert(self.free@[a] == old(self).free@[a]);
            } else {
                assert(self.free@[a] == old(self).free@[a]);
                assert(self.free@[b] == old(self).free@[b]);
            }
        }
    }

    /// An empty list. It starts with three rows.
    pub fn new() -> (s: Self)
        requires
            obeys_order_laws::<T>(),
        ensures
            s.wf(),
            s@ == Seq::<T>::empty(),
            s.rows() == 3,
            forall|l: int, c: int| #[trigger] s.has_cell(l, c) <==> (0 <= l < 3 && 0 <= c <= 1),
    {
        let mut nodes: Vec<Node<T>> = Vec::new();
        nodes.push(Node { right: Some(1), down: None, value: NodeValue::NegInf, width: 1 });
        nodes.push(Node { right: None, down: None, value: NodeValue::PosInf, width: 1 });
        let level: Ghost<Seq<int>> = Ghost(Seq::<int>::empty().push(0).push(0));
        let pos: Ghost<Seq<int>> = Ghost(Seq::<int>::empty().push(0).push(1));
        let elems: Ghost<Seq<T>> = Ghost(Seq::empty());
        let base: Ghost<Set<int>> = Ghost(Set::<int>::empty().insert(0).insert(1));
        let mut sk = SkipList {
            nodes,
            free: Vec::new(),
            top_left: 0,
            height: 1,
            len: 0,
            level,
            pos,
            elems,
            base,
        };
        proof {
            assert(sk.node_inv(0, 0, 0, 0));
            assert(sk.node_inv(1, 0, 0, 0));
            assert(sk.base_ok());
            assert(sk.wf());
            assert forall|l: int, c: int| #[trigger]
                sk.has_cell(l, c) <==> (l == 0 && 0 <= c <= 1) by {
                if l == 0 && 0 <= c <= 1 {
                    assert(sk.is_node(c));
                }
            }
        }
        sk.add_levels(2);
        sk
    }

    /// A new pair of bounds on top of a consistent grid gives a consistent
    /// grid with one more row.
    proof fn lemma_add_level(old: &Self, mid: &Self, new: &Self, right: usize, left: usize)
        requires
            old.wf(),
            old.height < usize::MAX,
            !old.is_node(right as int),
            right <= old.nodes@.len(),
            mid.nodes@ == place(
                old.nodes@,
                right as int,
                Node { right: None, down: None, value: NodeValue::PosInf, width: 1 },
            ),
            mid.level@ == place(old.level@, right as int, old.height as int),
            mid.pos@ == place(old.pos@, right as int, old.elems@.len() as int + 1),
            !mid.is_node(left as int),
            left <= mid.nodes@.len(),
            new.nodes@ == place(
                mid.nodes@,
                left as int,
                Node {
                    right: Some(right),
                    down: Some(old.top_left),
                    value: NodeValue::NegInf,
                    width: (old.len + 1) as usize,
                },
            ),
            new.level@ == place(mid.level@, left as int, old.height as int),
            new.pos@ == place(mid.pos@, left as int, 0),
            new.arena_ok(),
            new.elems@ == old.elems@,
            new.base@ == old.base@,
            new.len == old.len,
            new.height == old.height + 1,
            new.top_left == left,
        ensures
            new.wf(),
    {
        let n = old.elems@.len() as int;
        assert(left != right);
        assert forall|i: int| old.is_node(i) implies i != left && i != right && new.nodes@[i]
            == old.nodes@[i] && new.level@[i] == old.level@[i] && new.pos@[i] == old.pos@[i] by {}
        assert forall|i: int| #[trigger] new.is_node(i) implies new.node_inv(i, 0, 0, 0) by {
            if i != left && i != right {
                assert(old.is_node(i));
                assert(old.node_inv(i, 0, 0, 0));
                if old.pos@[i] != n + 1 {
                    assert(old.is_node(old.right_of(i)));
                    if old.level@[i] > 0 {
                        assert(old.is_node(old.down_of(i)));
                    }
                }
            } else if i == left {
                assert(old.is_node(old.top_left as int));
            }
        }
        assert(new.unique()) by {
            assert forall|i: int, j: int|
                #[trigger] new.is_node(i) && #[trigger] new.is_node(j) && new.level@[i]
                    == new.level@[j] && new.pos@[i] == new.pos@[j] implies i == j by {
                if i != left && i != right {
                    assert(old.is_node(i));
                    assert(old.node_inv(i, 0, 0, 0));
                }
                if j != left && j != right {
                    assert(old.is_node(j));
                    assert(old.node_inv(j, 0, 0, 0));
                }
            }
        }
        assert(new.linear()) by {
            assert forall|i: int, j: int|
                #[trigger] new.is_node(i) && #[trigger] new.is_node(j) && new.level@[i]
                    == new.level@[j] && new.pos@[i] < new.pos@[j] implies new.pos@[new.right_of(i)]
                <= new.pos@[j] by {
                if i != left && i != right {
                    assert(old.is_node(i));
                    assert(old.node_inv(i, 0, 0, 0));
                }
                if j != left && j != right {
                    assert(old.is_node(j));
                    assert(old.node_inv(j, 0, 0, 0));
                }
            }
        }
        assert(new.dense_but(-1)) by {
            assert forall|i: int|
                #[trigger] new.is_node(i) && i != -1 && new.level@[i] == 0 && new.pos@[i]
                    <= new.elems@.len() implies new.nodes@[i].width == 1 by {
                if i != left && i != right {
                    assert(old.is_node(i));
                }
            }
        }
        assert(new.is_node(left as int));
    }

    /// Puts one empty row on top of the grid.
    fn add_level(&mut self)
        requires
            old(self).wf(),
            old(self).rows() < usize::MAX,
        ensures
            final(self).wf(),
            final(self)@ == old(self)@,
            final(self).rows() == old(self).rows() + 1,
            forall|l: int, c: int| #[trigger]
                final(self).has_cell(l, c)
                    <==> (old(self).has_cell(l, c) || (l == old(self).rows() && (c == 0
                    || c == old(self)@.len() + 1))),
    {
        let ghost n = self.elems@.len() as int;
        let ghost h = self.height as int;
        let old_top = self.top_left;
        let width = self.len + 1;
        let right = self.take_slot(
            Node { right: None, down: None, value: NodeValue::PosInf, width: 1 },
            Ghost(h),
            Ghost(n + 1),
        );
        let ghost mid = *self;
        let left = self.take_slot(
            Node { right: Some(right), down: Some(old_top), value: NodeValue::NegInf, width },
            Ghost(h),
            Ghost(0),
        );
        self.top_left = left;
        self.height = self.height + 1;
        proof {
            Self::lemma_add_level(old(self), &mid, self, right, left);
            Self::lemma_cells_grow(old(self), &mid, right as int, h, n + 1);
            Self::lemma_cells_grow(&mid, self, left as int, h, 0);
        }
    }

    /// Puts `additional_levels` empty rows on top of the grid.
    pub(crate) fn add_levels(&mut self, additional_levels: usize)
        requires
            old(self).wf(),
            old(self).rows() + additional_levels <= usize::MAX,
        ensures
            final(self).wf(),
            final(self)@ == old(self)@,
            final(self).rows() == old(self).rows() + additional_levels,
            forall|l: int, c: int| #[trigger]
                final(self).has_cell(l, c) <==> (old(self).has_cell(l, c) || (old(self).rows()
                    <= l < final(self).rows() && (c == 0 || c == old(self)@.len() + 1))),
    {
        let mut added: usize = 0;
        while added < additional_levels
            invariant
                added <= additional_levels,
                self.wf(),
                self@ == old(self)@,
                self.rows() == old(self).rows() + added,
                old(self).rows() + additional_levels <= usize::MAX,
                forall|l: int, c: int| #[trigger]
                    self.has_cell(l, c) <==> (old(self).has_cell(l, c) || (old(self).rows() <= l
                        < self.rows() && (c == 0 || c == old(self)@.len() + 1))),
            decreases additional_levels - added,
        {
            self.add_level();
            added = added + 1;
        }
    }

    /// The number of elements.
    pub fn len(&self) -> (n: usize)
        requires
            self.wf(),
        ensures
            n == self@.len(),
    {
        self.len
    }

    /// Whether the list holds no element.
    pub fn is_empty(&self) -> (r: bool)
        requires
            self.wf(),
        ensures
            r == (self@.len() == 0),
    {
        self.len == 0
    }

    /// The number of rows.
    pub(crate) fn height(&self) -> (h: usize)
        requires
            self.wf(),
        ensures
            h == self.rows(),
            h >= 1,
    {
        self.height
    }

    /// The lower bound of the top row, where every descent starts.
    pub(crate) fn top_left(&self) -> (i: usize)
        requires
            self.wf(),
        ensures
            i == self.top(),
            self.is_node(i as int),
            self.node_level(i as int) == self.rows() - 1,
            self.node_pos(i as int) == 0,
    {
        self.top_left
    }

    /// The right neighbour of a cell that is no upper bound.
    pub(crate) fn right(&self, i: usize) -> (r: usize)
        requires
            self.wf(),
            self.is_node(i as int),
            self.node_pos(i as int) <= self@.len(),
        ensures
            r == self.right_of(i as int),
            self.is_node(r as int),
            self.node_level(r as int) == self.node_level(i as int),
            self.node_pos(r as int) > self.node_pos(i as int),
            self.node_pos(r as int) <= self@.len() + 1,
            self.node_level(i as int) == 0 ==> self.node_pos(r as int) == self.node_pos(i as int)
                + 1,
    {
        proof {
            assert(self.node_inv(i as int, 0, 0, 0));
            assert(self.is_node(self.right_of(i as int)));
            assert(self.node_inv(self.right_of(i as int), 0, 0, 0));
        }
        match self.nodes[i].right {
            Some(r) => r,
            None => vstd::pervasive::unreached(),
        }
    }

    /// The cell below a cell; none in the bottom row, and none below an
    /// upper bound.
    pub(crate) fn down(&self, i: usize) -> (d: Option<usize>)
        requires
            self.wf(),
            self.is_node(i as int),
        ensures
            d is None <==> (self.node_level(i as int) == 0 || self.node_pos(i as int)
                == self@.len() + 1),
            d matches Some(b) ==> {
                &&& b == self.down_of(i as int)
                &&& self.is_node(b as int)
                &&& self.node_level(b as int) == self.node_level(i as int) - 1
                &&& self.node_pos(b as int) == self.node_pos(i as int)
            },
    {
        proof {
            assert(self.node_inv(i as int, 0, 0, 0));
        }
        self.nodes[i].down
    }

    /// The width of a cell that is no upper bound: the number of columns
    /// from it to its right neighbour.
    pub(crate) fn width(&self, i: usize) -> (w: usize)
        requires
            self.wf(),
            self.is_node(i as int),
            self.node_pos(i as int) <= self@.len(),
        ensures
            w == self.width_of(i as int),
            w == self.node_pos(self.right_of(i as int)) - self.node_pos(i as int),
            w >= 1,
    {
        proof {
            assert(self.node_inv(i as int, 0, 0, 0));
        }
        self.nodes[i].width
    }

    /// What cell `i` holds.
    pub(crate) fn value(&self, i: usize) -> (v: &NodeValue<T>)
        requires
            self.wf(),
            self.is_node(i as int),
        ensures
            *v == self.value_of(i as int),
            *v == value_for(self@, self.node_pos(i as int)),
    {
        proof {
            assert(self.node_inv(i as int, 0, 0, 0));
        }
        &self.nodes[i].value
    }
}

impl<T: PartialOrd + Clone> SkipList<T> {
    /// A consistent grid stays consistent when a range of columns is
    /// declared cut out of rows that do not exist.
    pub proof fn lemma_gap_above(&self, p: int, q: int)
        requires
            self.wf(),
            1 <= p <= q <= self@.len() + 1,
        ensures
            self.inv(self.rows(), p, q),
    {
        assert forall|i: int| #[trigger] self.is_node(i) implies self.node_inv(
            i,
            self.height as int,
            p,
            q,
        ) by {
            assert(self.node_inv(i, 0, 0, 0));
        }
    }

    /// Once the rows from which columns are cut out lie above the grid,
    /// nothing is cut out.
    pub proof fn lemma_gap_gone(&self, k: int, p: int, q: int)
        requires
            self.inv(k, p, q),
            k >= self.rows(),
        ensures
            self.wf(),
    {
        assert forall|i: int| #[trigger] self.is_node(i) implies self.node_inv(i, 0, 0, 0) by {
            assert(self.node_inv(i, k, p, q));
        }
    }

    proof fn lemma_open_gap(old: &Self, new: &Self, p: int, item: T)
        requires
            old.wf(),
            p == rank(old.elems@, item) + 1,
            !old.elems@.contains(item),
            old.elems@.len() + 2 <= usize::MAX,
            new.nodes@ == old.nodes@,
            new.free@ == old.free@,
            new.level@ == old.level@,
            new.top_left == old.top_left,
            new.height == old.height,
            new.len == old.len + 1,
            new.elems@ == old.elems@.insert(p - 1, item),
            new.pos@ == shift(old.pos@, p, 1),
            new.base@ == old.base@,
        ensures
            new.inv(0, p, p + 1),
            forall|c: int, l: int| #[trigger]
                old.straddles(c, l, p, p) ==> new.straddles(c, l, p, p + 1),
    {
        let n = old.elems@.len() as int;
        lemma_rank_bounds(old.elems@, item);
        lemma_insert_ascending(old.elems@, item);
        assert(new.elems@.len() == n + 1);
        assert forall|i: int| #[trigger] new.is_node(i) implies new.node_inv(i, 0, p, p + 1) by {
            assert(old.is_node(i));
            assert(old.node_inv(i, 0, 0, 0));
            let c = old.pos@[i];
            assert(value_for(new.elems@, new.pos@[i]) == value_for(old.elems@, c)) by {
                if 1 <= c <= n {
                    if c < p {
                        assert(new.elems@[c - 1] == old.elems@[c - 1]);
                    } else {
                        assert(new.elems@[c] == old.elems@[c - 1]);
                    }
                }
            }
            if c != n + 1 {
                let r = old.right_of(i);
                assert(old.is_node(r));
                assert(old.node_inv(r, 0, 0, 0));
                if old.level@[i] > 0 {
                    let d = old.down_of(i);
                    assert(old.is_node(d));
                }
            }
        }
        assert(new.unique()) by {
            assert forall|i: int, j: int|
                #[trigger] new.is_node(i) && #[trigger] new.is_node(j) && new.level@[i]
                    == new.level@[j] && new.pos@[i] == new.pos@[j] implies i == j by {
                assert(old.is_node(i) && old.is_node(j));
            }
        }
        assert(new.linear()) by {
            assert forall|i: int, j: int|
                #[trigger] new.is_node(i) && #[trigger] new.is_node(j) && new.level@[i]
                    == new.level@[j] && new.pos@[i] < new.pos@[j] implies new.pos@[new.right_of(i)]
                <= new.pos@[j] by {
                assert(old.is_node(i) && old.is_node(j));
                assert(old.node_inv(i, 0, 0, 0));
                assert(old.node_inv(j, 0, 0, 0));
            }
        }
        assert(new.dense_but(-1)) by {
            assert forall|i: int|
                #[trigger] new.is_node(i) && i != -1 && new.level@[i] == 0 && new.pos@[i]
                    <= new.elems@.len() implies new.nodes@[i].width == 1 by {
                assert(old.is_node(i));
                assert(old.node_inv(i, 0, 0, 0));
            }
        }
        assert(new.is_node(new.top_left as int));
        assert forall|c: int, l: int| #[trigger] old.straddles(c, l, p, p) implies new.straddles(
            c,
            l,
            p,
            p + 1,
        ) by {
            assert(old.is_node(c));
            assert(old.node_inv(c, 0, 0, 0));
            assert(new.is_node(c));
        }
    }

    /// Makes room for `item` in the view and in the numbering of the
    /// columns: the new column is cut out of every row until a cell is put
    /// into it.
    pub(crate) fn open_gap(&mut self, item: &T, Ghost(p): Ghost<int>)
        requires
            old(self).wf(),
            p == rank(old(self)@, *item) + 1,
            !old(self)@.contains(*item),
            old(self)@.len() + 2 <= usize::MAX,
        ensures
            final(self).inv(0, p, p + 1),
            final(self)@ == old(self)@.insert(p - 1, *item),
            final(self).rows() == old(self).rows(),
            forall|c: int, l: int| #[trigger]
                old(self).straddles(c, l, p, p) ==> final(self).straddles(c, l, p, p + 1),
            forall|i: int|
                old(self).is_node(i) && old(self).node_pos(i) < p
                    ==> #[trigger] final(self).node_pos(i) == old(self).node_pos(i),
            forall|l: int, c: int| #[trigger]
                final(self).has_cell(l, c) <==> (c != p && old(self).has_cell(
                    l,
                    if c > p {
                        c - 1
                    } else {
                        c
                    },
                )),
    {
        self.len = self.len + 1;
        self.elems = Ghost(self.elems@.insert(p - 1, *item));
        self.pos = Ghost(shift(self.pos@, p, 1));
        proof {
            Self::lemma_open_gap(old(self), self, p, *item);
            Self::lemma_cells_shift_up(old(self), self, p);
        }
    }

    proof fn lemma_close_gap(old: &Self, new: &Self, p: int, q: int)
        requires
            old.inv(0, p, q),
            p < q,
            new.nodes@ == old.nodes@,
            new.free@ == old.free@,
            new.level@ == old.level@,
            new.top_left == old.top_left,
            new.height == old.height,
            new.len == old.len - (q - p),
            new.elems@ == old.elems@.take(p - 1) + old.elems@.skip(q - 1),
            new.pos@ == shift(old.pos@, q, p - q),
            new.base@ == old.base@,
        ensures
            new.wf(),
    {
        let n = old.elems@.len() as int;
        lemma_cut_ascending(old.elems@, p - 1, q - 1);
        assert(new.elems@.len() == n - (q - p));
        assert forall|i: int| #[trigger] new.is_node(i) implies new.node_inv(i, 0, 0, 0) by {
            assert(old.is_node(i));
            assert(old.node_inv(i, 0, p, q));
            let c = old.pos@[i];
            assert(value_for(new.elems@, new.pos@[i]) == value_for(old.elems@, c)) by {
                if 1 <= c <= n {
                    if c < p {
                        assert(new.elems@[c - 1] == old.elems@[c - 1]);
                    } else {
                        assert(new.elems@[c - (q - p) - 1] == old.elems@[c - 1]);
                    }
                }
            }
            if c != n + 1 {
                let r = old.right_of(i);
                assert(old.is_node(r));
                assert(old.node_inv(r, 0, p, q));
                if old.level@[i] > 0 {
                    let d = old.down_of(i);
                    assert(old.is_node(d));
                }
            }
        }
        assert(new.unique()) by {
            assert forall|i: int, j: int|
                #[trigger] new.is_node(i) && #[trigger] new.is_node(j) && new.level@[i]
                    == new.level@[j] && new.pos@[i] == new.pos@[j] implies i == j by {
                assert(old.is_node(i) && old.is_node(j));
                assert(old.node_inv(i, 0, p, q));
                assert(old.node_inv(j, 0, p, q));
            }
        }
        assert(new.linear()) by {
            assert forall|i: int, j: int|
                #[trigger] new.is_node(i) && #[trigger] new.is_node(j) && new.level@[i]
                    == new.level@[j] && new.pos@[i] < new.pos@[j] implies new.pos@[new.right_of(i)]
                <= new.pos@[j] by {
                assert(old.is_node(i) && old.is_node(j));
                assert(old.node_inv(i, 0, p, q));
                assert(old.node_inv(j, 0, p, q));
                let r = old.right_of(i);
                assert(old.is_node(r));
                assert(old.node_inv(r, 0, p, q));
            }
        }
        assert(new.dense_but(-1)) by {
            assert forall|i: int|
                #[trigger] new.is_node(i) && i != -1 && new.level@[i] == 0 && new.pos@[i]
                    <= new.elems@.len() implies new.nodes@[i].width == 1 by {
                assert(old.is_node(i));
                assert(old.node_inv(i, 0, p, q));
            }
        }
        assert(new.is_node(new.top_left as int));
    }

    /// Takes the columns `p..q`, which no row holds a cell in any more, out
    /// of the view and out of the numbering of the columns.
    pub(crate) fn close_gap(&mut self, Ghost(p): Ghost<int>, Ghost(q): Ghost<int>, new_len: usize)
        requires
            old(self).inv(0, p, q),
            p < q,
            new_len == old(self)@.len() - (q - p),
        ensures
            final(self).wf(),
            final(self)@ == old(self)@.take(p - 1) + old(self)@.skip(q - 1),
            final(self).rows() == old(self).rows(),
            forall|l: int, c: int| #[trigger]
                final(self).has_cell(l, c) <==> old(self).has_cell(
                    l,
                    if c < p {
                        c
                    } else {
                        c + (q - p)
                    },
                ),
    {
        self.len = new_len;
        self.elems = Ghost(self.elems@.take(p - 1) + self.elems@.skip(q - 1));
        self.pos = Ghost(shift(self.pos@, q, p - q));
        proof {
            Self::lemma_close_gap(old(self), self, p, q);
            Self::lemma_cells_shift_down(old(self), self, p, q);
        }
    }
}


impl<T: PartialOrd + Clone> SkipList<T> {
    /// In a row, only one cell has its right neighbour beyond a column that
    /// it stands left of.
    proof fn lemma_one_straddler(&self, c: int, i: int, k: int, p: int, q: int)
        requires
            self.shape(k, p, q),
            self.is_node(c),
            self.is_node(i),
            self.level@[c] == self.level@[i],
            self.pos@[c] < p,
            self.pos@[self.right_of(c)] >= p,
            self.pos@[i] < p,
            self.pos@[self.right_of(i)] >= p,
        ensures
            i == c,
    {
        assert(self.node_inv(c, k, p, q));
        assert(self.node_inv(i, k, p, q));
    }

    /// The bottom-row set stays right when a cell takes a fresh slot and
    /// the set takes the slot in if the cell stands in the bottom row.
    proof fn lemma_base_grows(old: &Self, new: &Self, z: int, k: int)
        requires
            old.base_ok(),
            old.level@.len() == old.nodes@.len(),
            !old.is_node(z),
            0 <= z <= old.nodes@.len(),
            k >= 0,
            new.nodes@.len() == place(old.level@, z, k).len(),
            new.level@ == place(old.level@, z, k),
            new.base@ == if k == 0 {
                old.base@.insert(z)
            } else {
                old.base@
            },
        ensures
            new.base_ok(),
            new.base@.len() == old.base@.len() + if k == 0 {
                1int
            } else {
                0int
            },
    {
        assert(!old.base@.contains(z));
        assert forall|i: int| #[trigger]
            new.base@.contains(i) <==> (new.holds_cell(i) && new.level@[i] == 0) by {
            if i != z {
                assert(old.base@.contains(i) <==> (old.holds_cell(i) && old.level@[i] == 0));
            }
        }
    }

    proof fn lemma_splice(
        old: &Self,
        new: &Self,
        c: usize,
        z: usize,
        k: int,
        p: int,
        item: T,
        left_width: usize,
        below: Option<usize>,
    )
        requires
            old.inv(k, p, p + 1),
            old.straddles(c as int, k, p, p + 1),
            k + 1 < old.height,
            item == old.elems@[p - 1],
            left_width == p - old.pos@[c as int],
            k == 0 ==> below is None,
            k > 0 ==> below is Some && old.is_node(below->Some_0 as int)
                && old.level@[below->Some_0 as int]
                == k - 1 && old.pos@[below->Some_0 as int] == p,
            !old.is_node(z as int),
            z <= old.nodes@.len(),
            new.nodes@ == place(
                old.nodes@,
                z as int,
                Node {
                    right: old.nodes@[c as int].right,
                    down: below,
                    value: NodeValue::Value(item),
                    width: (old.nodes@[c as int].width + 1 - left_width) as usize,
                },
            ).update(
                c as int,
                Node {
                    right: Some(z),
                    down: old.nodes@[c as int].down,
                    value: old.nodes@[c as int].value,
                    width: left_width,
                },
            ),
            new.level@ == place(old.level@, z as int, k),
            new.pos@ == place(old.pos@, z as int, p),
            new.base@ == if k == 0 {
                old.base@.insert(z as int)
            } else {
                old.base@
            },
            new.arena_ok(),
            new.top_left == old.top_left,
            new.height == old.height,
            new.len == old.len,
            new.elems@ == old.elems@,
        ensures
            new.inv(k + 1, p, p + 1),
            new.is_node(z as int),
            new.level@[z as int] == k,
            new.pos@[z as int] == p,
            forall|c2: int, l2: int|
                l2 != k && #[trigger] old.straddles(c2, l2, p, p + 1) ==> new.straddles(
                    c2,
                    l2,
                    p,
                    p + 1,
                ),
    {
        let n = old.elems@.len() as int;
        let ci = c as int;
        let zi = z as int;
        assert(new.base_ok() && new.counted(new.due(k + 1, p, p + 1))) by {
            Self::lemma_base_grows(old, new, zi, k);
        }
        assert(old.node_inv(ci, k, p, p + 1));
        let r = old.right_of(ci);
        assert(old.is_node(r));
        assert(old.node_inv(r, k, p, p + 1));
        assert(zi != ci && zi != r);
        assert(new.level@[ci] == old.level@[ci] && new.pos@[ci] == old.pos@[ci]);
        assert forall|i: int| old.is_node(i) implies i != zi && new.level@[i] == old.level@[i]
            && new.pos@[i] == old.pos@[i] && new.is_node(i) by {}
        assert forall|i: int| old.is_node(i) && i != ci implies new.nodes@[i] == old.nodes@[i] by {}
        assert forall|i: int| #[trigger] new.is_node(i)
            implies new.node_inv(i, k + 1, p, p + 1) by {
            if i == zi {
                if k == 0 {
                    assert(old.nodes@[ci].width == 1);
                } else {
                    let b = below->Some_0 as int;
                    assert(old.is_node(b));
                }
            } else if i == ci {
                if old.level@[ci] > 0 {
                    assert(old.is_node(old.down_of(ci)));
                }
            } else {
                assert(old.is_node(i));
                assert(old.node_inv(i, k, p, p + 1));
                if old.pos@[i] != n + 1 {
                    let ri = old.right_of(i);
                    assert(old.is_node(ri));
                    if old.level@[i] > 0 {
                        assert(old.is_node(old.down_of(i)));
                    }
                    if old.level@[i] == k && old.pos@[i] < p && old.pos@[ri] >= p {
                        old.lemma_one_straddler(ci, i, k, p, p + 1);
                    }
                }
            }
        }
        assert(new.unique()) by {
            assert forall|i: int, j: int|
                #[trigger] new.is_node(i) && #[trigger] new.is_node(j) && new.level@[i]
                    == new.level@[j] && new.pos@[i] == new.pos@[j] implies i == j by {
                if i != zi {
                    assert(old.is_node(i));
                    assert(old.node_inv(i, k, p, p + 1));
                }
                if j != zi {
                    assert(old.is_node(j));
                    assert(old.node_inv(j, k, p, p + 1));
                }
            }
        }
        assert(new.linear()) by {
            assert forall|i: int, j: int|
                #[trigger] new.is_node(i) && #[trigger] new.is_node(j) && new.level@[i]
                    == new.level@[j] && new.pos@[i] < new.pos@[j] implies new.pos@[new.right_of(i)]
                <= new.pos@[j] by {
                if i != zi {
                    assert(old.is_node(i));
                    assert(old.node_inv(i, k, p, p + 1));
                }
                if j != zi {
                    assert(old.is_node(j));
                    assert(old.node_inv(j, k, p, p + 1));
                }
                if i == zi {
                    // the cells right of the new one were right of `c`
                    assert(old.pos@[ci] < old.pos@[j]);
                } else if j == zi {
                    if i != ci {
                        if old.pos@[i] < old.pos@[ci] {
                        } else if old.pos@[i] > old.pos@[ci] {
                            assert(old.pos@[r] <= old.pos@[i]);
                        }
                    }
                } else if i == ci {
                    assert(old.pos@[r] <= old.pos@[j]);
                }
            }
        }
        assert(new.dense_but(-1)) by {
            assert forall|i: int|
                #[trigger] new.is_node(i) && i != -1 && new.level@[i] == 0 && new.pos@[i]
                    <= new.elems@.len() implies new.nodes@[i].width == 1 by {
                if i == zi {
                    assert(old.nodes@[ci].width == 1);
                } else if i == ci {
                    assert(old.nodes@[ci].width == 1);
                } else {
                    assert(old.is_node(i));
                }
            }
        }
        assert(new.is_node(new.top_left as int));
        assert forall|c2: int, l2: int|
            l2 != k && #[trigger] old.straddles(c2, l2, p, p + 1) implies new.straddles(
            c2,
            l2,
            p,
            p + 1,
        ) by {
            assert(old.is_node(c2));
            assert(old.node_inv(c2, k, p, p + 1));
            assert(old.is_node(old.right_of(c2)));
        }
    }

    /// Puts a cell for `item` into the row of `c`, right of `c` and on top
    /// of `below`. `c` keeps `left_width` of the distance that its link
    /// covered, and the new cell takes the rest.
    pub(crate) fn splice(
        &mut self,
        c: usize,
        item: T,
        left_width: usize,
        below: Option<usize>,
        Ghost(k): Ghost<int>,
        Ghost(p): Ghost<int>,
    ) -> (z: usize)
        requires
            old(self).inv(k, p, p + 1),
            old(self).straddles(c as int, k, p, p + 1),
            k + 1 < old(self).rows(),
            item == old(self)@[p - 1],
            left_width == p - old(self).node_pos(c as int),
            k == 0 ==> below is None,
            k > 0 ==> below is Some && old(self).is_node(below->Some_0 as int)
                && old(self).node_level(below->Some_0 as int) == k - 1 && old(self).node_pos(
                below->Some_0 as int,
            ) == p,
        ensures
            final(self).inv(k + 1, p, p + 1),
            final(self)@ == old(self)@,
            final(self).rows() == old(self).rows(),
            final(self).is_node(z as int),
            final(self).node_level(z as int) == k,
            final(self).node_pos(z as int) == p,
            forall|l: int, c2: int| #[trigger]
                final(self).has_cell(l, c2) <==> (old(self).has_cell(l, c2) || (l == k && c2 == p)),
            forall|c2: int, l2: int|
                l2 != k && #[trigger] old(self).straddles(c2, l2, p, p + 1)
                    ==> final(self).straddles(c2, l2, p, p + 1),
            forall|i: int|
                old(self).is_node(i) ==> #[trigger] final(self).node_pos(i) == old(self).node_pos(
                    i,
                ),
    {
        proof {
            assert(self.node_inv(c as int, k, p, p + 1));
            assert(self.is_node(self.right_of(c as int)));
            assert(self.node_inv(self.right_of(c as int), k, p, p + 1));
        }
        let right = self.nodes[c].right;
        let new_width = self.nodes[c].width + 1 - left_width;
        let z = self.take_slot(
            Node { right, down: below, value: NodeValue::Value(item), width: new_width },
            Ghost(k),
            Ghost(p),
        );
        let ghost mid = *self;
        self.nodes[c].right = Some(z);
        self.nodes[c].width = left_width;
        self.base = Ghost(
            if k == 0 {
                self.base@.insert(z as int)
            } else {
                self.base@
            },
        );
        proof {
            assert(self.nodes@ =~= mid.nodes@.update(
                c as int,
                Node {
                    right: Some(z),
                    down: old(self).nodes@[c as int].down,
                    value: old(self).nodes@[c as int].value,
                    width: left_width,
                },
            ));
            Self::lemma_splice(old(self), self, c, z, k, p, item, left_width, below);
            Self::lemma_cells_grow(old(self), self, z as int, k, p);
        }
        z
    }

    proof fn lemma_raise_gap(old: &Self, new: &Self, c: usize, k: int, p: int)
        requires
            old.inv(k, p, p + 1),
            old.straddles(c as int, k, p, p + 1),
            new.nodes@ == old.nodes@.update(
                c as int,
                Node {
                    right: old.nodes@[c as int].right,
                    down: old.nodes@[c as int].down,
                    value: old.nodes@[c as int].value,
                    width: (old.nodes@[c as int].width + 1) as usize,
                },
            ),
            new.free@ == old.free@,
            new.level@ == old.level@,
            new.pos@ == old.pos@,
            new.base@ == old.base@,
            new.top_left == old.top_left,
            new.height == old.height,
            new.len == old.len,
            new.elems@ == old.elems@,
            k > 0,
        ensures
            new.inv(k + 1, p, p + 1),
            forall|c2: int, l2: int| #[trigger]
                old.straddles(c2, l2, p, p + 1) ==> new.straddles(c2, l2, p, p + 1),
    {
        let n = old.elems@.len() as int;
        let ci = c as int;
        assert(old.node_inv(ci, k, p, p + 1));
        let r = old.right_of(ci);
        assert(old.is_node(r));
        assert(old.node_inv(r, k, p, p + 1));
        assert forall|i: int| #[trigger] new.is_node(i)
            implies new.node_inv(i, k + 1, p, p + 1) by {
            assert(old.is_node(i));
            assert(old.node_inv(i, k, p, p + 1));
            if i != ci && old.pos@[i] != n + 1 {
                let ri = old.right_of(i);
                assert(old.is_node(ri));
                if old.level@[i] == k && old.pos@[i] < p && old.pos@[ri] >= p {
                    old.lemma_one_straddler(ci, i, k, p, p + 1);
                }
            }
        }
        assert(new.unique()) by {
            assert forall|i: int, j: int|
                #[trigger] new.is_node(i) && #[trigger] new.is_node(j) && new.level@[i]
                    == new.level@[j] && new.pos@[i] == new.pos@[j] implies i == j by {
                assert(old.is_node(i) && old.is_node(j));
            }
        }
        assert(new.linear()) by {
            assert forall|i: int, j: int|
                #[trigger] new.is_node(i) && #[trigger] new.is_node(j) && new.level@[i]
                    == new.level@[j] && new.pos@[i] < new.pos@[j] implies new.pos@[new.right_of(i)]
                <= new.pos@[j] by {
                assert(old.is_node(i) && old.is_node(j));
            }
        }
        assert(new.dense_but(-1)) by {
            assert forall|i: int|
                #[trigger] new.is_node(i) && i != -1 && new.level@[i] == 0 && new.pos@[i]
                    <= new.elems@.len() implies new.nodes@[i].width == 1 by {
                assert(old.is_node(i));
            }
        }
        assert(new.is_node(new.top_left as int));
        assert forall|c2: int, l2: int| #[trigger] old.straddles(c2, l2, p, p + 1)
            implies new.straddles(
            c2,
            l2,
            p,
            p + 1,
        ) by {
            assert(old.is_node(c2));
            assert(new.is_node(c2));
        }
    }

    /// Counts the new column in the link of `c`, which passes over it.
    pub(crate) fn bump_width(&mut self, c: usize, Ghost(k): Ghost<int>, Ghost(p): Ghost<int>)
        requires
            old(self).inv(k, p, p + 1),
            old(self).straddles(c as int, k, p, p + 1),
            k > 0,
        ensures
            final(self).inv(k + 1, p, p + 1),
            final(self)@ == old(self)@,
            final(self).rows() == old(self).rows(),
            forall|l: int, c2: int| #[trigger] final(self).has_cell(l, c2)
                == old(self).has_cell(l, c2),
            forall|c2: int, l2: int| #[trigger]
                old(self).straddles(c2, l2, p, p + 1) ==> final(self).straddles(c2, l2, p, p + 1),
            forall|i: int|
                old(self).is_node(i) ==> #[trigger] final(self).node_pos(i) == old(self).node_pos(
                    i,
                ),
    {
        proof {
            assert(self.node_inv(c as int, k, p, p + 1));
            assert(self.is_node(self.right_of(c as int)));
            assert(self.node_inv(self.right_of(c as int), k, p, p + 1));
        }
        self.nodes[c].width = self.nodes[c].width + 1;
        proof {
            assert(self.nodes@ =~= old(self).nodes@.update(
                c as int,
                Node {
                    right: old(self).nodes@[c as int].right,
                    down: old(self).nodes@[c as int].down,
                    value: old(self).nodes@[c as int].value,
                    width: (old(self).nodes@[c as int].width + 1) as usize,
                },
            ));
            Self::lemma_raise_gap(old(self), self, c, k, p);
            Self::lemma_cells_same(old(self), self);
        }
    }
}


impl<T: PartialOrd + Clone> SkipList<T> {
    proof fn lemma_unlink(old: &Self, new: &Self, c: usize, k: int, p: int, q: int, m: int)
        requires
            old.shape(k, p, q),
            old.dense_but(c as int),
            old.counted(m),
            new.base@ == if k == 1 {
                old.base@.remove(old.right_of(c as int))
            } else {
                old.base@
            },
            old.is_node(c as int),
            old.level@[c as int] == k - 1,
            old.pos@[c as int] < p,
            p <= old.pos@[old.right_of(c as int)] < q,
            new.nodes@ == old.nodes@.update(
                c as int,
                Node {
                    right: old.nodes@[old.right_of(c as int)].right,
                    down: old.nodes@[c as int].down,
                    value: old.nodes@[c as int].value,
                    width: (old.nodes@[c as int].width + old.nodes@[old.right_of(
                        c as int,
                    )].width) as usize,
                },
            ).update(old.right_of(c as int), blank_node()),
            new.level@ == old.level@.update(old.right_of(c as int), -1),
            new.pos@ == old.pos@,
            new.arena_ok(),
            new.top_left == old.top_left,
            new.height == old.height,
            new.len == old.len,
            new.elems@ == old.elems@,
        ensures
            new.shape(k, p, q),
            new.dense_but(c as int),
            new.counted(
                if k == 1 {
                    m - 1
                } else {
                    m
                },
            ),
            new.is_node(c as int),
            new.right_of(c as int) == old.right_of(old.right_of(c as int)),
            new.pos@[new.right_of(c as int)] > old.pos@[old.right_of(c as int)],
            forall|c2: int, l2: int, a: int, b: int|
                l2 != k - 1 && #[trigger] old.straddles(c2, l2, a, b) ==> new.straddles(
                    c2,
                    l2,
                    a,
                    b,
                ),
    {
        let n = old.elems@.len() as int;
        let ci = c as int;
        assert(old.node_inv(ci, k, p, q));
        let r = old.right_of(ci);
        assert(old.is_node(r));
        assert(old.node_inv(r, k, p, q));
        let rr = old.right_of(r);
        assert(old.is_node(rr));
        assert(old.node_inv(rr, k, p, q));
        assert(r != ci && rr != r && rr != ci);
        assert(old.is_node(old.top_left as int));
        assert forall|i: int| #[trigger] new.is_node(i) implies new.node_inv(i, k, p, q) by {
            assert(old.is_node(i));
            assert(old.node_inv(i, k, p, q));
            if old.pos@[i] != n + 1 {
                let ri = old.right_of(i);
                assert(old.is_node(ri));
                assert(old.node_inv(ri, k, p, q));
                if i != ci {
                    assert(new.nodes@[i] == old.nodes@[i]);
                    // no other cell links to the one that leaves
                    assert(ri != r);
                }
                if old.level@[i] > 0 {
                    let di = old.down_of(i);
                    assert(old.is_node(di));
                    assert(di != r);
                }
            }
        }
        assert(new.unique()) by {
            assert forall|i: int, j: int|
                #[trigger] new.is_node(i) && #[trigger] new.is_node(j) && new.level@[i]
                    == new.level@[j] && new.pos@[i] == new.pos@[j] implies i == j by {
                assert(old.is_node(i) && old.is_node(j));
            }
        }
        assert(new.linear()) by {
            assert forall|i: int, j: int|
                #[trigger] new.is_node(i) && #[trigger] new.is_node(j) && new.level@[i]
                    == new.level@[j] && new.pos@[i] < new.pos@[j] implies new.pos@[new.right_of(i)]
                <= new.pos@[j] by {
                assert(old.is_node(i) && old.is_node(j));
                if i == ci {
                    assert(old.pos@[r] <= old.pos@[j]);
                    assert(old.pos@[r] != old.pos@[j]);
                } else {
                    assert(new.nodes@[i] == old.nodes@[i]);
                }
            }
        }
        assert(new.dense_but(ci)) by {
            assert forall|i: int|
                #[trigger] new.is_node(i) && i != ci && new.level@[i] == 0 && new.pos@[i]
                    <= new.elems@.len() implies new.nodes@[i].width == 1 by {
                assert(old.is_node(i));
            }
        }
        assert forall|c2: int, l2: int, a: int, b: int|
            l2 != k - 1 && #[trigger] old.straddles(c2, l2, a, b) implies new.straddles(
            c2,
            l2,
            a,
            b,
        ) by {
            assert(old.is_node(c2));
            assert(old.node_inv(c2, k, p, q));
            assert(new.is_node(c2));
            if old.pos@[c2] != n + 1 {
                assert(old.is_node(old.right_of(c2)));
            }
        }
    }

    /// Takes the right neighbour of `c` out of its row and frees it. The
    /// link of `c` then covers what both links covered.
    fn unlink(&mut self, c: usize, Ghost(k): Ghost<int>, Ghost(p): Ghost<int>, Ghost(q): Ghost<int>)
        requires
            old(self).shape(k, p, q),
            old(self).dense_but(c as int),
            old(self).is_node(c as int),
            old(self).level@[c as int] == k - 1,
            old(self).pos@[c as int] < p,
            p <= old(self).pos@[old(self).right_of(c as int)] < q,
        ensures
            final(self).shape(k, p, q),
            final(self).dense_but(c as int),
            final(self).base@.len() == old(self).base@.len() - if k == 1 {
                1int
            } else {
                0int
            },
            final(self).is_node(c as int),
            final(self).level@[c as int] == old(self).level@[c as int],
            final(self).pos@ == old(self).pos@,
            final(self).elems@ == old(self).elems@,
            final(self).height == old(self).height,
            final(self).right_of(c as int) == old(self).right_of(old(self).right_of(c as int)),
            final(self).pos@[final(self).right_of(c as int)] > old(self).pos@[old(self).right_of(
                c as int,
            )],
            final(self).nodes@[c as int].width == old(self).nodes@[c as int].width
                + old(self).nodes@[old(self).right_of(c as int)].width,
            forall|l: int, c2: int| #[trigger]
                final(self).has_cell(l, c2) <==> (old(self).has_cell(l, c2) && !(l == k - 1 && c2
                    == old(self).pos@[old(self).right_of(c as int)])),
            forall|c2: int|
                old(self).pos@[old(self).right_of(c as int)] < c2
                    < final(self).pos@[final(self).right_of(c as int)]
                    ==> !#[trigger] old(self).has_cell(k - 1, c2),
            forall|c2: int, l2: int, a: int, b: int|
                l2 != k - 1 && #[trigger] old(self).straddles(c2, l2, a, b)
                    ==> final(self).straddles(c2, l2, a, b),
    {
        proof {
            assert(self.node_inv(c as int, k, p, q));
            let r = self.right_of(c as int);
            assert(self.is_node(r));
            assert(self.node_inv(r, k, p, q));
            let rr = self.right_of(r);
            assert(self.is_node(rr));
            assert(self.node_inv(rr, k, p, q));
        }
        let r = match self.nodes[c].right {
            Some(r) => r,
            None => vstd::pervasive::unreached(),
        };
        let next = self.nodes[r].right;
        let folded = self.nodes[c].width + self.nodes[r].width;
        self.nodes[c].right = next;
        self.nodes[c].width = folded;
        let ghost mid = *self;
        self.free_slot(r);
        self.base = Ghost(
            if k == 1 {
                self.base@.remove(r as int)
            } else {
                self.base@
            },
        );
        proof {
            assert(mid.nodes@ =~= old(self).nodes@.update(
                c as int,
                Node {
                    right: old(self).nodes@[r as int].right,
                    down: old(self).nodes@[c as int].down,
                    value: old(self).nodes@[c as int].value,
                    width: folded,
                },
            ));
            Self::lemma_unlink(old(self), self, c, k, p, q, old(self).base@.len() as int);
            Self::lemma_cells_shrink(old(self), self, r as int);
            assert forall|c2: int|
                old(self).pos@[r as int] < c2 < self.pos@[self.right_of(c as int)]
                    implies !#[trigger] old(self).has_cell(k - 1, c2) by {
                old(self).lemma_no_cell_between(r as int, c2, k, p, q);
            }
        }
    }

    proof fn lemma_lower_gap(old: &Self, new: &Self, c: usize, k: int, p: int, q: int)
        requires
            old.shape(k, p, q),
            old.dense_but(c as int),
            old.counted(old.due(k - 1, p, q)),
            new.base@ == old.base@,
            k >= 1,
            p < q,
            old.is_node(c as int),
            old.level@[c as int] == k - 1,
            old.pos@[c as int] < p,
            old.pos@[old.right_of(c as int)] >= q,
            new.nodes@ == old.nodes@.update(
                c as int,
                Node {
                    right: old.nodes@[c as int].right,
                    down: old.nodes@[c as int].down,
                    value: old.nodes@[c as int].value,
                    width: (old.nodes@[c as int].width - (q - p)) as usize,
                },
            ),
            k == 1 ==> old.nodes@[c as int].width - (q - p) == 1,
            new.free@ == old.free@,
            new.level@ == old.level@,
            new.pos@ == old.pos@,
            new.top_left == old.top_left,
            new.height == old.height,
            new.len == old.len,
            new.elems@ == old.elems@,
        ensures
            new.inv(k - 1, p, q),
            forall|c2: int, l2: int, a: int, b: int| #[trigger]
                old.straddles(c2, l2, a, b) ==> new.straddles(c2, l2, a, b),
    {
        let n = old.elems@.len() as int;
        let ci = c as int;
        assert(old.node_inv(ci, k, p, q));
        let r = old.right_of(ci);
        assert(old.is_node(r));
        assert(old.node_inv(r, k, p, q));
        assert forall|i: int| #[trigger] new.is_node(i) implies new.node_inv(i, k - 1, p, q) by {
            assert(old.is_node(i));
            assert(old.node_inv(i, k, p, q));
            if old.level@[i] == k - 1 && i != ci {
                // every other cell of the row lies left of `c` or right of
                // its neighbour
                if old.pos@[ci] < old.pos@[i] {
                    assert(old.pos@[r] <= old.pos@[i]);
                }
            }
            if i != ci && old.pos@[i] != n + 1 {
                let ri = old.right_of(i);
                assert(old.is_node(ri));
                if old.level@[i] == k - 1 && old.pos@[i] < p && old.pos@[ri] >= p {
                    old.lemma_one_straddler(ci, i, k, p, q);
                }
            }
        }
        assert(new.unique()) by {
            assert forall|i: int, j: int|
                #[trigger] new.is_node(i) && #[trigger] new.is_node(j) && new.level@[i]
                    == new.level@[j] && new.pos@[i] == new.pos@[j] implies i == j by {
                assert(old.is_node(i) && old.is_node(j));
            }
        }
        assert(new.linear()) by {
            assert forall|i: int, j: int|
                #[trigger] new.is_node(i) && #[trigger] new.is_node(j) && new.level@[i]
                    == new.level@[j] && new.pos@[i] < new.pos@[j] implies new.pos@[new.right_of(i)]
                <= new.pos@[j] by {
                assert(old.is_node(i) && old.is_node(j));
            }
        }
        assert(new.dense_but(-1)) by {
            assert forall|i: int|
                #[trigger] new.is_node(i) && i != -1 && new.level@[i] == 0 && new.pos@[i]
                    <= new.elems@.len() implies new.nodes@[i].width == 1 by {
                assert(old.is_node(i));
            }
        }
        assert(new.is_node(new.top_left as int));
        assert forall|c2: int, l2: int, a: int, b: int| #[trigger]
            old.straddles(c2, l2, a, b) implies new.straddles(c2, l2, a, b) by {
            assert(old.is_node(c2));
            assert(new.is_node(c2));
        }
    }

    /// Takes the column of `item` out of the row of `c`, which is the row
    /// below those that have lost the column already: the link of `c`
    /// stops counting the column, and the cell of the column, if the row
    /// has one, leaves the row.
    pub(crate) fn drop_at(&mut self, c: usize, item: &T, Ghost(k): Ghost<int>, Ghost(p): Ghost<int>)
        requires
            old(self).inv(k, p, p + 1),
            k >= 1,
            old(self).straddles(c as int, k - 1, p, p),
            *item == old(self)@[p - 1],
        ensures
            final(self).inv(k - 1, p, p + 1),
            final(self)@ == old(self)@,
            final(self).rows() == old(self).rows(),
            forall|l: int, c2: int| #[trigger]
                final(self).has_cell(l, c2) <==> (old(self).has_cell(l, c2) && !(l == k - 1 && c2
                    == p)),
            forall|c2: int, l2: int|
                l2 != k - 1 && #[trigger] old(self).straddles(c2, l2, p, p)
                    ==> final(self).straddles(c2, l2, p, p),
    {
        let ghost n = self.elems@.len() as int;
        proof {
            assert(self.node_inv(c as int, k, p, p + 1));
            let r = self.right_of(c as int);
            assert(self.is_node(r));
            assert(self.node_inv(r, k, p, p + 1));
            if self.pos@[r] != n + 1 {
                assert(self.is_node(self.right_of(r)));
                assert(self.node_inv(self.right_of(r), k, p, p + 1));
            }
        }
        let r = match self.nodes[c].right {
            Some(r) => r,
            None => vstd::pervasive::unreached(),
        };
        if self.nodes[r].value.holds(item) {
            proof {
                assert(self.pos@[r as int] == p) by {
                    let cr = self.pos@[r as int];
                    if cr < p {
                        assert(crate::order::lt(self.elems@[cr - 1], self.elems@[p - 1]));
                    } else if cr > p {
                        assert(crate::order::lt(self.elems@[p - 1], self.elems@[cr - 1]));
                    }
                }
            }
            self.unlink(c, Ghost(k), Ghost(p), Ghost(p + 1));
        } else {
            proof {
                old(self).lemma_no_cell_between(c as int, p, k, p, p + 1);
            }
        }
        let ghost mid = *self;
        proof {
            assert(mid.node_inv(c as int, k, p, p + 1));
            assert(mid.is_node(mid.right_of(c as int)));
        }
        self.nodes[c].width = self.nodes[c].width - 1;
        proof {
            assert(self.nodes@ =~= mid.nodes@.update(
                c as int,
                Node {
                    right: mid.nodes@[c as int].right,
                    down: mid.nodes@[c as int].down,
                    value: mid.nodes@[c as int].value,
                    width: (mid.nodes@[c as int].width - 1) as usize,
                },
            ));
            Self::lemma_lower_gap(&mid, self, c, k, p, p + 1);
            Self::lemma_cells_same(&mid, self);
        }
    }

    /// Cuts the row of `c` off behind `c`: every cell between `c` and the
    /// upper bound leaves the row, and `c` links to the upper bound with
    /// `new_width`, its distance to the column where the cut begins.
    pub(crate) fn clear_right(
        &mut self,
        c: usize,
        new_width: usize,
        Ghost(k): Ghost<int>,
        Ghost(p): Ghost<int>,
    )
        requires
            old(self).inv(k, p, old(self)@.len() as int + 1),
            k >= 1,
            p <= old(self)@.len(),
            old(self).straddles(c as int, k - 1, p, p),
            new_width == p - old(self).node_pos(c as int),
        ensures
            final(self).inv(k - 1, p, old(self)@.len() as int + 1),
            final(self)@ == old(self)@,
            final(self).rows() == old(self).rows(),
            forall|l: int, c2: int| #[trigger]
                final(self).has_cell(l, c2) <==> (old(self).has_cell(l, c2) && !(l == k - 1 && p
                    <= c2 <= old(self)@.len())),
            forall|c2: int, l2: int|
                l2 != k - 1 && #[trigger] old(self).straddles(c2, l2, p, p)
                    ==> final(self).straddles(c2, l2, p, p),
            forall|i: int|
                old(self).is_node(i) ==> #[trigger] final(self).node_pos(i) == old(self).node_pos(
                    i,
                ),
    {
        let ghost n = self.elems@.len() as int;
        let ghost q = n + 1;
        proof {
            assert(self.node_inv(c as int, k, p, q));
            assert(self.is_node(self.right_of(c as int)));
            assert(self.node_inv(self.right_of(c as int), k, p, q));
            assert forall|l: int, c2: int| #[trigger]
                self.has_cell(l, c2) <==> (self.has_cell(l, c2) && !(l == k - 1 && p <= c2
                    < self.pos@[self.right_of(c as int)])) by {
                if l == k - 1 && p <= c2 < self.pos@[self.right_of(c as int)] {
                    self.lemma_no_cell_between(c as int, c2, k, p, q);
                }
            }
        }
        loop
            invariant
                self.shape(k, p, q),
                self.dense_but(c as int),
                self.is_node(c as int),
                self.level@[c as int] == k - 1,
                self.pos@ == old(self).pos@,
                self.pos@[c as int] < p,
                self.pos@[self.right_of(c as int)] >= p,
                self.elems@ == old(self).elems@,
                self.height == old(self).height,
                n == self.elems@.len(),
                q == n + 1,
                k >= 1,
                p <= n,
                new_width == p - self.pos@[c as int],
                k == 1 ==> new_width == 1,
                self.base@.len() == n + 2 - if k == 1 {
                    self.pos@[self.right_of(c as int)] - p
                } else {
                    0
                },
                forall|l: int, c2: int| #[trigger]
                    self.has_cell(l, c2) <==> (old(self).has_cell(l, c2) && !(l == k - 1 && p
                        <= c2 < self.pos@[self.right_of(c as int)])),
                forall|c2: int, l2: int|
                    l2 != k - 1 && #[trigger] old(self).straddles(c2, l2, p, p) ==> self.straddles(
                        c2,
                        l2,
                        p,
                        p,
                    ),
            ensures
                self.pos@[self.right_of(c as int)] == q,
            decreases q - self.pos@[self.right_of(c as int)],
        {
            proof {
                assert(self.node_inv(c as int, k, p, q));
                assert(self.is_node(self.right_of(c as int)));
                assert(self.node_inv(self.right_of(c as int), k, p, q));
            }
            let r = match self.nodes[c].right {
                Some(r) => r,
                None => vstd::pervasive::unreached(),
            };
            if self.nodes[r].value.is_pos_inf() {
                break ;
            }
            let ghost before = *self;
            self.unlink(c, Ghost(k), Ghost(p), Ghost(q));
            proof {
                assert forall|c2: int, l2: int|
                    l2 != k - 1 && #[trigger] old(self).straddles(c2, l2, p, p)
                        implies self.straddles(
                    c2,
                    l2,
                    p,
                    p,
                ) by {
                    assert(before.straddles(c2, l2, p, p));
                }
                assert(self.node_inv(c as int, k, p, q));
                assert(self.is_node(self.right_of(c as int)));
                assert(self.node_inv(self.right_of(c as int), k, p, q));
                assert forall|l: int, c2: int| #[trigger]
                    self.has_cell(l, c2) <==> (old(self).has_cell(l, c2) && !(l == k - 1 && p
                        <= c2 < self.pos@[self.right_of(c as int)])) by {
                    assert(self.has_cell(l, c2) <==> (before.has_cell(l, c2) && !(l == k - 1
                        && c2 == before.pos@[r as int])));
                    if l == k - 1 && before.pos@[r as int] < c2 < self.pos@[self.right_of(
                        c as int,
                    )] {
                        assert(!before.has_cell(k - 1, c2));
                    }
                }
            }
        }
        let ghost mid = *self;
        proof {
            assert(mid.node_inv(c as int, k, p, q));
        }
        self.nodes[c].width = new_width;
        proof {
            assert(self.nodes@ =~= mid.nodes@.update(
                c as int,
                Node {
                    right: mid.nodes@[c as int].right,
                    down: mid.nodes@[c as int].down,
                    value: mid.nodes@[c as int].value,
                    width: (mid.nodes@[c as int].width - (q - p)) as usize,
                },
            ));
            Self::lemma_lower_gap(&mid, self, c, k, p, q);
            Self::lemma_cells_same(&mid, self);
        }
    }
}


impl<T: PartialOrd + Clone> SkipList<T> {
    /// Row `l` holds a cell of the element `x`.
    pub open spec fn in_row(&self, l: int, x: T) -> bool {
        self@.contains(x) && self.has_cell(l, rank(self@, x) as int + 1)
    }

    /// The element `x` has a cell in each of the bottom `h` rows and in no
    /// other row.
    pub open spec fn stands_in(&self, x: T, h: int) -> bool {
        forall|l: int| #[trigger] self.in_row(l, x) <==> 0 <= l < h
    }

    /// A cell stands in its row and column.
    pub proof fn lemma_cell(&self, i: int)
        requires
            self.is_node(i),
        ensures
            self.has_cell(self.node_level(i), self.node_pos(i)),
    {
    }

    /// Where the grid has cells: in its rows, and in the columns from the
    /// lower bounds to the upper bounds.
    pub proof fn lemma_cell_place(&self, l: int, c: int)
        requires
            self.wf(),
            self.has_cell(l, c),
        ensures
            0 <= l < self.rows(),
            0 <= c <= self@.len() + 1,
            1 <= c <= self@.len() ==> l + 1 < self.rows(),
    {
        let i = choose|i: int| #[trigger] self.is_node(i) && self.level@[i] == l
            && self.pos@[i] == c;
        assert(self.node_inv(i, 0, 0, 0));
    }

    /// Below a cell of an element or of a lower bound stands a cell of the
    /// same column.
    pub proof fn lemma_cell_below(&self, l: int, c: int)
        requires
            self.wf(),
            self.has_cell(l, c),
            l > 0,
            c <= self@.len(),
        ensures
            self.has_cell(l - 1, c),
    {
        let i = choose|i: int| #[trigger] self.is_node(i) && self.level@[i] == l
            && self.pos@[i] == c;
        assert(self.node_inv(i, 0, 0, 0));
        assert(self.is_node(self.down_of(i)));
    }

    /// Right of a cell of the bottom row stands the cell of the next
    /// column.
    pub proof fn lemma_cell_next(&self, c: int)
        requires
            self.wf(),
            self.has_cell(0, c),
            c <= self@.len(),
        ensures
            self.has_cell(0, c + 1),
    {
        let i = choose|i: int| #[trigger] self.is_node(i) && self.level@[i] == 0
            && self.pos@[i] == c;
        assert(self.node_inv(i, 0, 0, 0));
        assert(self.is_node(self.right_of(i)));
    }

    /// The top row begins with a lower bound.
    pub proof fn lemma_cell_top(&self)
        requires
            self.wf(),
        ensures
            self.has_cell(self.rows() - 1, 0),
    {
        assert(self.is_node(self.top_left as int));
    }

    /// No row holds a cell between a cell and its right neighbour.
    proof fn lemma_no_cell_between(&self, i: int, c: int, k: int, p: int, q: int)
        requires
            self.shape(k, p, q),
            self.is_node(i),
            self.pos@[i] < c < self.pos@[self.right_of(i)],
        ensures
            !self.has_cell(self.level@[i], c),
    {
        if self.has_cell(self.level@[i], c) {
            let j = choose|j: int| #[trigger]
                self.is_node(j) && self.level@[j] == self.level@[i] && self.pos@[j] == c;
            assert(self.is_node(i) && self.is_node(j));
        }
    }

    /// A row holds no cell between a cell and its right neighbour.
    pub proof fn lemma_gap_free(&self, i: int, c: int)
        requires
            self.wf(),
            self.is_node(i),
            self.node_pos(i) < c < self.node_pos(self.right_of(i)),
        ensures
            !self.has_cell(self.node_level(i), c),
    {
        self.lemma_no_cell_between(i, c, 0, 0, 0);
    }

    /// Cells stay where they are while no slot changes its row or column.
    proof fn lemma_cells_same(old: &Self, new: &Self)
        requires
            new.nodes@.len() == old.nodes@.len(),
            new.level@ == old.level@,
            new.pos@ == old.pos@,
        ensures
            forall|l: int, c: int| #[trigger] new.has_cell(l, c) == old.has_cell(l, c),
    {
        assert forall|l: int, c: int| #[trigger] new.has_cell(l, c) == old.has_cell(l, c) by {
            if old.has_cell(l, c) {
                let i = choose|i: int| #[trigger]
                    old.is_node(i) && old.level@[i] == l && old.pos@[i] == c;
                assert(new.is_node(i));
            }
            if new.has_cell(l, c) {
                let i = choose|i: int| #[trigger]
                    new.is_node(i) && new.level@[i] == l && new.pos@[i] == c;
                assert(old.is_node(i));
            }
        }
    }

    /// A cell in a fresh slot adds its place to the places that hold a
    /// cell.
    proof fn lemma_cells_grow(old: &Self, new: &Self, z: int, k: int, p: int)
        requires
            old.level@.len() == old.nodes@.len(),
            old.pos@.len() == old.nodes@.len(),
            !old.is_node(z),
            0 <= z <= old.nodes@.len(),
            k >= 0,
            new.nodes@.len() == place(old.level@, z, k).len(),
            new.level@ == place(old.level@, z, k),
            new.pos@ == place(old.pos@, z, p),
        ensures
            forall|l: int, c: int| #[trigger]
                new.has_cell(l, c) <==> (old.has_cell(l, c) || (l == k && c == p)),
    {
        assert forall|l: int, c: int| #[trigger]
            new.has_cell(l, c) <==> (old.has_cell(l, c) || (l == k && c == p)) by {
            if old.has_cell(l, c) {
                let i = choose|i: int| #[trigger]
                    old.is_node(i) && old.level@[i] == l && old.pos@[i] == c;
                assert(new.is_node(i));
            }
            if l == k && c == p {
                assert(new.is_node(z));
            }
            if new.has_cell(l, c) {
                let i = choose|i: int| #[trigger]
                    new.is_node(i) && new.level@[i] == l && new.pos@[i] == c;
                if i != z {
                    assert(old.is_node(i));
                }
            }
        }
    }

    /// A cell that leaves takes its place, and no other, out of the places
    /// that hold a cell.
    proof fn lemma_cells_shrink(old: &Self, new: &Self, r: int)
        requires
            old.unique(),
            old.is_node(r),
            old.level@.len() == old.nodes@.len(),
            new.nodes@.len() == old.nodes@.len(),
            new.level@ == old.level@.update(r, -1),
            new.pos@ == old.pos@,
        ensures
            forall|l: int, c: int| #[trigger]
                new.has_cell(l, c) <==> (old.has_cell(l, c) && !(l == old.level@[r] && c
                    == old.pos@[r])),
    {
        assert forall|l: int, c: int| #[trigger]
            new.has_cell(l, c) <==> (old.has_cell(l, c) && !(l == old.level@[r] && c
                == old.pos@[r])) by {
            if old.has_cell(l, c) {
                let i = choose|i: int| #[trigger]
                    old.is_node(i) && old.level@[i] == l && old.pos@[i] == c;
                if i != r {
                    assert(new.is_node(i));
                }
            }
            if new.has_cell(l, c) {
                let i = choose|i: int| #[trigger]
                    new.is_node(i) && new.level@[i] == l && new.pos@[i] == c;
                assert(old.is_node(i));
                assert(old.is_node(r));
            }
        }
    }

    /// Cells move along when the columns from `p` on move up by one.
    proof fn lemma_cells_shift_up(old: &Self, new: &Self, p: int)
        requires
            old.pos@.len() == old.nodes@.len(),
            new.nodes@.len() == old.nodes@.len(),
            new.level@ == old.level@,
            new.pos@ == shift(old.pos@, p, 1),
        ensures
            forall|l: int, c: int| #[trigger]
                new.has_cell(l, c) <==> (c != p && old.has_cell(
                    l,
                    if c > p {
                        c - 1
                    } else {
                        c
                    },
                )),
    {
        assert forall|l: int, c: int| #[trigger]
            new.has_cell(l, c) <==> (c != p && old.has_cell(
                l,
                if c > p {
                    c - 1
                } else {
                    c
                },
            )) by {
            let b = if c > p {
                c - 1
            } else {
                c
            };
            if c != p && old.has_cell(l, b) {
                let i = choose|i: int| #[trigger]
                    old.is_node(i) && old.level@[i] == l && old.pos@[i] == b;
                assert(new.is_node(i));
            }
            if new.has_cell(l, c) {
                let i = choose|i: int| #[trigger]
                    new.is_node(i) && new.level@[i] == l && new.pos@[i] == c;
                assert(old.is_node(i));
            }
        }
    }

    /// Cells move along when the columns from `q` on move down to `p`, the
    /// columns between being empty.
    proof fn lemma_cells_shift_down(old: &Self, new: &Self, p: int, q: int)
        requires
            old.inv(0, p, q),
            p < q,
            new.nodes@.len() == old.nodes@.len(),
            new.level@ == old.level@,
            new.pos@ == shift(old.pos@, q, p - q),
        ensures
            forall|l: int, c: int| #[trigger]
                new.has_cell(l, c) <==> old.has_cell(
                    l,
                    if c < p {
                        c
                    } else {
                        c + (q - p)
                    },
                ),
    {
        assert forall|l: int, c: int| #[trigger]
            new.has_cell(l, c) <==> old.has_cell(
                l,
                if c < p {
                    c
                } else {
                    c + (q - p)
                },
            ) by {
            let b = if c < p {
                c
            } else {
                c + (q - p)
            };
            if old.has_cell(l, b) {
                let i = choose|i: int| #[trigger]
                    old.is_node(i) && old.level@[i] == l && old.pos@[i] == b;
                assert(new.is_node(i));
            }
            if new.has_cell(l, c) {
                let i = choose|i: int| #[trigger]
                    new.is_node(i) && new.level@[i] == l && new.pos@[i] == c;
                assert(old.is_node(i));
                assert(old.node_inv(i, 0, p, q));
            }
        }
    }
}


} // verus!
