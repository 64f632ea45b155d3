//! Insertion, removal and bulk removal from the upper end.
//!
//! Each of them first finds, row by row, the cell that rests left of the
//! column in question, and then works through the rows with the grid's own
//! operations, one row at a time.

use crate::grid::SkipList;
use crate::iter::NodeRightIter;
use crate::order::{duplicate, obeys_order_laws};
use crate::sorted::{
    kept, lemma_rank_after_insert, lemma_rank_after_remove, lemma_rank_bounds, lemma_rank_finds,
    lemma_rank_in_prefix, lemma_rank_of_element, lemma_rank_of_inserted, popped, rank, with_item,
    with_items, without_item,
};
use rand::Rng;
use vstd::prelude::*;

verus! {

/// One flip of a fair coin: `rand::Rng::gen::<bool>` on the generator that
/// `rand::thread_rng` hands out. Nothing is claimed of the outcome. The
/// generator panics where the operating system gives it no seed.
#[verifier::external_body]
fn flip_coin() -> (heads: bool) {
    rand::thread_rng().gen::<bool>()
}

/// What one flip of the coin makes of a drawing that stands at `height`:
/// heads raises the height by one, tails ends the drawing. The drawing
/// also ends where the height would reach `usize::MAX`.
pub fn climb(height: usize, heads: bool) -> (higher: Option<usize>)
    ensures
        higher == if heads && height < usize::MAX - 1 {
            Some((height + 1) as usize)
        } else {
            None::<usize>
        },
{
    if heads && height < usize::MAX - 1 {
        Some(height + 1)
    } else {
        None
    }
}

/// Draws the number of rows that a new element takes part in: one, plus
/// one more for every flip of the coin that comes up heads before the
/// first tails. The count stops short of `usize::MAX`.
pub fn get_level() -> (height: usize)
    ensures
        1 <= height < usize::MAX,
{
    let mut height: usize = 1;
    loop
        invariant
            1 <= height < usize::MAX,
        decreases usize::MAX - height,
    {
        match climb(height, flip_coin()) {
            Some(higher) => {
                height = higher;
            },
            None => {
                return height;
            },
        }
    }
}

/// The number of rows of a grid that had `rows` rows once it holds a
/// column of `height` cells: the grid keeps one row above its tallest
/// column.
pub open spec fn grown(rows: int, height: usize) -> int {
    if height + 1 > rows {
        height + 1
    } else {
        rows
    }
}

/// After an insertion the new element stands in the rows it was given,
/// and every other element stands in the rows it stood in.
proof fn lemma_rows_after_insert<T: PartialOrd + Clone>(
    old: &SkipList<T>,
    new: &SkipList<T>,
    item: T,
    height: int,
)
    requires
        old.wf(),
        new.wf(),
        !old@.contains(item),
        new@ == old@.insert(rank(old@, item) as int, item),
        forall|l: int, c: int| #[trigger]
            new.has_cell(l, c) <==> if c == rank(old@, item) + 1 {
                0 <= l < height
            } else {
                old.grown_cell(new.rows(), l, column_before(c, rank(old@, item) as int + 1))
            },
    ensures
        new.stands_in(item, height),
        forall|l: int, y: T| y != item ==> #[trigger] new.in_row(l, y) == old.in_row(l, y),
{
    old.lemma_wf();
    let s = old@;
    let r = rank(s, item) as int;
    let t = new@;
    lemma_rank_bounds(s, item);
    lemma_rank_of_inserted(s, item);
    assert(t[r] == item);
    assert forall|l: int| #[trigger] new.in_row(l, item) <==> 0 <= l < height by {
        assert(new.has_cell(l, r + 1) <==> 0 <= l < height);
    }
    assert forall|l: int, y: T| y != item implies #[trigger] new.in_row(l, y) == old.in_row(
        l,
        y,
    ) by {
        lemma_rank_finds(s, y);
        if s.contains(y) {
            let j = rank(s, y) as int;
            lemma_rank_after_insert(s, item, j);
            let j2 = if j < r {
                j
            } else {
                j + 1
            };
            assert(t[j2] == y);
            assert(new.has_cell(l, j2 + 1) <==> old.grown_cell(new.rows(), l, j + 1));
        } else if t.contains(y) {
            let i = choose|i: int| 0 <= i < t.len() && t[i] == y;
            if i < r {
                assert(s[i] == y);
            } else {
                assert(s[i - 1] == y);
            }
        }
    }
}

/// After a removal every other element stands in the rows it stood in.
proof fn lemma_rows_after_remove<T: PartialOrd + Clone>(
    old: &SkipList<T>,
    new: &SkipList<T>,
    item: T,
)
    requires
        old.wf(),
        new.wf(),
        old@.contains(item),
        new@ == old@.remove(rank(old@, item) as int),
        forall|l: int, c: int| #[trigger]
            new.has_cell(l, c) <==> old.has_cell(
                l,
                if c < rank(old@, item) + 1 {
                    c
                } else {
                    c + 1
                },
            ),
    ensures
        forall|l: int, y: T| y != item ==> #[trigger] new.in_row(l, y) == old.in_row(l, y),
{
    old.lemma_wf();
    let s = old@;
    let r = rank(s, item) as int;
    let t = new@;
    lemma_rank_finds(s, item);
    assert forall|l: int, y: T| y != item implies #[trigger] new.in_row(l, y) == old.in_row(
        l,
        y,
    ) by {
        lemma_rank_finds(s, y);
        if s.contains(y) {
            let j = rank(s, y) as int;
            lemma_rank_after_remove(s, r, j);
            let j2 = if j < r {
                j
            } else {
                j - 1
            };
            assert(new.has_cell(l, j2 + 1) <==> old.has_cell(l, j + 1));
        } else if t.contains(y) {
            let i = choose|i: int| 0 <= i < t.len() && t[i] == y;
            if i < r {
                assert(s[i] == y);
            } else {
                assert(s[i + 1] == y);
            }
        }
    }
}

/// After the largest elements are taken off, every element that stays
/// stands in the rows it stood in.
proof fn lemma_rows_after_cut<T: PartialOrd + Clone>(
    old: &SkipList<T>,
    new: &SkipList<T>,
    cut: int,
)
    requires
        old.wf(),
        new.wf(),
        0 <= cut < old@.len(),
        new@ == old@.take(cut),
        forall|l: int, c: int| #[trigger]
            new.has_cell(l, c) <==> old.has_cell(
                l,
                if c < cut + 1 {
                    c
                } else {
                    c + (old@.len() - cut)
                },
            ),
    ensures
        forall|l: int, y: T| #[trigger]
            new.in_row(l, y) == (old.in_row(l, y) && new@.contains(y)),
{
    old.lemma_wf();
    let s = old@;
    let t = new@;
    assert forall|l: int, y: T| #[trigger]
        new.in_row(l, y) == (old.in_row(l, y) && t.contains(y)) by {
        if t.contains(y) {
            let j = choose|j: int| 0 <= j < t.len() && t[j] == y;
            assert(s[j] == y);
            lemma_rank_in_prefix(s, cut, j);
            assert(new.has_cell(l, j + 1) <==> old.has_cell(l, j + 1));
        }
    }
}

/// The column that stood at `c` before a column was put in at `p`.
pub open spec fn column_before(c: int, p: int) -> int {
    if c > p {
        c - 1
    } else {
        c
    }
}

impl<T: PartialOrd + Clone> SkipList<T> {
    /// Row `l` of this grid, once it has grown to `rows` rows, holds a
    /// cell in column `c`.
    pub open spec fn grown_cell(&self, rows: int, l: int, c: int) -> bool {
        self.has_cell(l, c) || (self.rows() <= l < rows && (c == 0 || c == self@.len() + 1))
    }

    /// Puts `item`, which the list does not hold, into the bottom `height`
    /// rows.
    fn insert_new(&mut self, item: T, height: usize)
        requires
            old(self).wf(),
            !old(self)@.contains(item),
            1 <= height < usize::MAX,
        ensures
            final(self).wf(),
            final(self)@ == old(self)@.insert(rank(old(self)@, item) as int, item),
            final(self).rows() == grown(old(self).rows(), height),
            forall|l: int, c: int| #[trigger]
                final(self).has_cell(l, c) <==> if c == rank(old(self)@, item) + 1 {
                    0 <= l < height
                } else {
                    old(self).grown_cell(
                        final(self).rows(),
                        l,
                        column_before(c, rank(old(self)@, item) as int + 1),
                    )
                },
    {
        if height + 1 > self.height() {
            let missing = height + 1 - self.height();
            self.add_levels(missing);
        }
        proof {
            assert forall|l: int, c: int| #[trigger]
                self.has_cell(l, c) <==> old(self).grown_cell(self.rows(), l, c) by {}
        }
        let path = self.insert_path(&item);
        let rows = self.height();
        let ghost p = rank(self@, item) as int + 1;
        let ghost before = *self;
        let total_width = path[rows - 1].curr_width;
        proof {
            self.lemma_wf();
            self.lemma_room();
            lemma_rank_bounds(self@, item);
        }
        self.open_gap(&item, Ghost(p));
        let mut node_below_me: Option<usize> = None;
        let mut added: usize = 0;
        while added < rows
            invariant
                added <= rows,
                rows == self.rows(),
                rows == grown(old(self).rows(), height),
                path@.len() == rows,
                self.inv(added as int, p, p + 1),
                self@ == old(self)@.insert(p - 1, item),
                0 <= p - 1 <= old(self)@.len(),
                old(self)@.len() + 2 <= usize::MAX,
                obeys_order_laws::<T>(),
                total_width == p - 1,
                1 <= height < rows,
                p == rank(old(self)@, item) + 1,
                forall|l: int, c: int| #[trigger]
                    self.has_cell(l, c) <==> if c == p {
                        0 <= l < added && l < height
                    } else {
                        old(self).grown_cell(rows as int, l, column_before(c, p))
                    },
                forall|j: int|
                    0 <= j < rows - added ==> {
                        &&& self.straddles(
                            (#[trigger] path@[j]).curr_node as int,
                            rows - 1 - j,
                            p,
                            p + 1,
                        )
                        &&& path@[j].curr_width == self.node_pos(path@[j].curr_node as int)
                    },
                added == 0 ==> node_below_me is None,
                0 < added <= height ==> {
                    &&& node_below_me is Some
                    &&& self.is_node(node_below_me->Some_0 as int)
                    &&& self.node_level(node_below_me->Some_0 as int) == added - 1
                    &&& self.node_pos(node_below_me->Some_0 as int) == p
                },
            decreases rows - added,
        {
            let node = path[rows - 1 - added];
            let ghost prior = *self;
            proof {
                assert(self.straddles(node.curr_node as int, added as int, p, p + 1));
            }
            if added < height {
                let left_node_width = total_width - node.curr_width + 1;
                let copy = duplicate(&item);
                let new_node = self.splice(
                    node.curr_node,
                    copy,
                    left_node_width,
                    node_below_me,
                    Ghost(added as int),
                    Ghost(p),
                );
                node_below_me = Some(new_node);
            } else {
                self.bump_width(node.curr_node, Ghost(added as int), Ghost(p));
            }
            proof {
                assert forall|j: int| 0 <= j < rows - (added + 1) implies {
                    &&& self.straddles(
                        (#[trigger] path@[j]).curr_node as int,
                        rows - 1 - j,
                        p,
                        p + 1,
                    )
                    &&& path@[j].curr_width == self.node_pos(path@[j].curr_node as int)
                } by {
                    assert(prior.straddles(path@[j].curr_node as int, rows - 1 - j, p, p + 1));
                }
            }
            added = added + 1;
        }
        proof {
            self.lemma_gap_gone(rows as int, p, p + 1);
        }
    }

    /// Puts `item` into the list, into as many rows as [`get_level`] draws,
    /// unless it is there already. Returns whether it was put in.
    pub fn insert(&mut self, item: T) -> (inserted: bool)
        requires
            old(self).wf(),
        ensures
            final(self).wf(),
            inserted == !old(self)@.contains(item),
            final(self)@ == with_item(old(self)@, item),
            final(self).rows() >= old(self).rows(),
            !inserted ==> *final(self) == *old(self),
            inserted ==> exists|h: int| 1 <= h < final(self).rows()
                && #[trigger] final(self).stands_in(item, h),
            forall|l: int, y: T|
                y != item ==> #[trigger] final(self).in_row(l, y) == old(self).in_row(l, y),
    {
        if self.contains(&item) {
            return false;
        }
        let height = get_level();
        self.insert_new(item, height);
        proof {
            lemma_rows_after_insert(old(self), self, item, height as int);
            assert(self.stands_in(item, height as int));
        }
        true
    }

    /// Puts `item` into the bottom `height` rows of the list, unless it is
    /// there already. Returns whether it was put in. What the list holds
    /// afterwards does not depend on `height`.
    pub fn insert_with_height(&mut self, item: T, height: usize) -> (inserted: bool)
        requires
            old(self).wf(),
            1 <= height < usize::MAX,
        ensures
            final(self).wf(),
            inserted == !old(self)@.contains(item),
            final(self)@ == with_item(old(self)@, item),
            final(self).rows() == if inserted {
                grown(old(self).rows(), height)
            } else {
                old(self).rows()
            },
            !inserted ==> *final(self) == *old(self),
            inserted ==> final(self).stands_in(item, height as int),
            forall|l: int, y: T|
                y != item ==> #[trigger] final(self).in_row(l, y) == old(self).in_row(l, y),
    {
        if self.contains(&item) {
            return false;
        }
        self.insert_new(item, height);
        proof {
            lemma_rows_after_insert(old(self), self, item, height as int);
        }
        true
    }

    /// A list of the elements of `items`.
    pub fn from(items: Vec<T>) -> (s: Self)
        requires
            obeys_order_laws::<T>(),
        ensures
            s.wf(),
            s@ == with_items(Seq::<T>::empty(), items@),
    {
        let mut sk = SkipList::new();
        let mut i: usize = 0;
        while i < items.len()
            invariant
                i <= items@.len(),
                sk.wf(),
                sk@ == with_items(Seq::<T>::empty(), items@.take(i as int)),
                obeys_order_laws::<T>(),
            decreases items@.len() - i,
        {
            let item = duplicate(&items[i]);
            proof {
                assert(items@.take(i + 1).drop_last() =~= items@.take(i as int));
                assert(items@.take(i + 1).last() == items@[i as int]);
            }
            sk.insert(item);
            i = i + 1;
        }
        proof {
            assert(items@.take(items@.len() as int) =~= items@);
        }
        sk
    }

    /// Takes `item` out of the list. Returns whether it was there.
    pub fn remove(&mut self, item: &T) -> (removed: bool)
        requires
            old(self).wf(),
        ensures
            final(self).wf(),
            removed == old(self)@.contains(*item),
            final(self)@ == without_item(old(self)@, *item),
            final(self).rows() == old(self).rows(),
            !removed ==> *final(self) == *old(self),
            forall|l: int, y: T|
                y != *item ==> #[trigger] final(self).in_row(l, y) == old(self).in_row(l, y),
    {
        if !self.contains(item) {
            return false;
        }
        let path = self.insert_path(item);
        let rows = self.height();
        let new_len = self.len() - 1;
        let ghost p = rank(self@, *item) as int + 1;
        proof {
            self.lemma_wf();
            lemma_rank_finds(self@, *item);
            self.lemma_gap_above(p, p + 1);
            assert forall|l: int, c: int| #[trigger]
                self.has_cell(l, c) <==> (self.has_cell(l, c) && !(l >= rows && c == p)) by {
                if self.has_cell(l, c) {
                    self.lemma_cell_place(l, c);
                }
            }
        }
        let mut row: usize = 0;
        while row < rows
            invariant
                row <= rows,
                rows == self.rows(),
                path@.len() == rows,
                self.inv(rows - row, p, p + 1),
                self@ == old(self)@,
                1 <= p <= self@.len(),
                *item == self@[p - 1],
                forall|l: int, c: int| #[trigger]
                    self.has_cell(l, c) <==> (old(self).has_cell(l, c) && !(l >= rows - row && c
                        == p)),
                forall|j: int|
                    row <= j < rows ==> self.straddles(
                        (#[trigger] path@[j]).curr_node as int,
                        rows - 1 - j,
                        p,
                        p,
                    ),
            decreases rows - row,
        {
            let node = path[row];
            let ghost prior = *self;
            self.drop_at(node.curr_node, item, Ghost(rows - row), Ghost(p));
            proof {
                assert forall|j: int| row + 1 <= j < rows implies self.straddles(
                    (#[trigger] path@[j]).curr_node as int,
                    rows - 1 - j,
                    p,
                    p,
                ) by {
                    assert(prior.straddles(path@[j].curr_node as int, rows - 1 - j, p, p));
                }
            }
            row = row + 1;
        }
        let ghost mid = *self;
        self.close_gap(Ghost(p), Ghost(p + 1), new_len);
        proof {
            assert(self@ =~= old(self)@.remove(p - 1));
            assert forall|l: int, c: int| #[trigger]
                self.has_cell(l, c) <==> old(self).has_cell(
                    l,
                    if c < p {
                        c
                    } else {
                        c + 1
                    },
                ) by {
                let b = if c < p {
                    c
                } else {
                    c + 1
                };
                assert(self.has_cell(l, c) <==> mid.has_cell(l, b));
                if old(self).has_cell(l, b) {
                    old(self).lemma_cell_place(l, b);
                }
            }
            lemma_rows_after_remove(old(self), self, *item);
        }
        true
    }

    /// Every element, in ascending order.
    pub fn to_vec(&self) -> (all: Vec<T>)
        requires
            self.wf(),
        ensures
            all@ == self@,
    {
        let mut all: Vec<T> = Vec::new();
        let mut curr = self.top_left();
        proof {
            self.lemma_wf();
        }
        loop
            invariant
                self.wf(),
                self.is_node(curr as int),
                self.node_pos(curr as int) == 0,
                self.node_level(curr as int) >= 0,
            ensures
                self.is_node(curr as int),
                self.node_pos(curr as int) == 0,
                self.node_level(curr as int) == 0,
            decreases self.node_level(curr as int),
        {
            match self.down(curr) {
                Some(d) => {
                    curr = d;
                },
                None => {
                    break ;
                },
            }
        }
        curr = self.right(curr);
        loop
            invariant
                self.wf(),
                obeys_order_laws::<T>(),
                self.is_node(curr as int),
                self.node_level(curr as int) == 0,
                self.node_pos(curr as int) == all@.len() + 1,
                all@.len() <= self@.len(),
                all@ == self@.take(all@.len() as int),
            ensures
                all@ == self@,
            decreases self@.len() - all@.len(),
        {
            let value = self.value(curr);
            if value.is_pos_inf() {
                proof {
                    assert(self@.take(self@.len() as int) =~= self@);
                }
                break ;
            }
            let ghost seen = all@;
            all.push(duplicate(value.get_value()));
            proof {
                assert(all@ =~= self@.take(seen.len() as int + 1));
            }
            curr = self.right(curr);
        }
        all
    }

    /// Takes the `count` largest elements out of the list and returns them
    /// in ascending order; all of them where the list holds no more than
    /// `count`.
    pub fn pop_max(&mut self, count: usize) -> (top: Vec<T>)
        requires
            old(self).wf(),
        ensures
            final(self).wf(),
            top@ == popped(old(self)@, count),
            final(self)@ == kept(old(self)@, count),
            final(self).rows() == if 0 < old(self)@.len() <= count {
                3
            } else {
                old(self).rows()
            },
            forall|l: int, y: T| #[trigger]
                final(self).in_row(l, y) == (old(self).in_row(l, y) && final(self)@.contains(y)),
    {
        proof {
            self.lemma_wf();
        }
        if self.is_empty() || count == 0 {
            proof {
                assert(self@.skip(self@.len() as int) =~= Seq::<T>::empty());
                assert(self@.take(self@.len() as int) =~= self@);
            }
            return Vec::new();
        }
        if count >= self.len() {
            let ret = self.to_vec();
            *self = SkipList::new();
            proof {
                assert(old(self)@.skip(0) =~= old(self)@);
                assert(old(self)@.take(0) =~= Seq::<T>::empty());
            }
            return ret;
        }
        let cut = self.len() - count;
        let ele_at = match self.at_index(cut) {
            Some(e) => duplicate(e),
            None => vstd::pervasive::unreached(),
        };
        proof {
            lemma_rank_of_element(self@, cut as int);
        }
        let path = self.insert_path(&ele_at);
        let rows = self.height();
        let ghost n = self@.len() as int;
        let ghost p = cut as int + 1;
        let last_value = path[rows - 1];
        let last_width = last_value.curr_width;
        let mut ret: Vec<T> = Vec::with_capacity(count);
        let first = self.right(last_value.curr_node);
        let mut tail = NodeRightIter::new(&*self, first);
        loop
            invariant
                tail.wf(),
                *tail.list() == *self,
                n == self@.len(),
                cut <= n,
                cut + ret@.len() <= n,
                ret@ == self@.subrange(cut as int, cut + ret@.len()),
                tail.remaining() == self@.skip(cut + ret@.len()),
            ensures
                ret@ == self@.skip(cut as int),
            decreases n - cut - ret@.len(),
        {
            let ghost seen = ret@;
            match tail.next() {
                Some(value) => {
                    ret.push(value);
                    proof {
                        assert(self@.skip(cut + seen.len())[0] == self@[cut + seen.len()]);
                        assert(ret@ =~= self@.subrange(cut as int, cut + seen.len() + 1));
                        assert(self@.skip(cut + seen.len()).skip(1) =~= self@.skip(
                            cut + seen.len() + 1,
                        ));
                    }
                },
                None => {
                    proof {
                        assert(self@.subrange(cut as int, n) =~= self@.skip(cut as int));
                    }
                    break ;
                },
            }
        }
        proof {
            self.lemma_gap_above(p, n + 1);
            assert forall|l: int, c: int| #[trigger]
                self.has_cell(l, c) <==> (self.has_cell(l, c) && !(l >= rows && p <= c <= n)) by {
                if self.has_cell(l, c) {
                    self.lemma_cell_place(l, c);
                }
            }
        }
        let mut row: usize = 0;
        while row < rows
            invariant
                row <= rows,
                rows == self.rows(),
                path@.len() == rows,
                n == self@.len(),
                p == cut + 1,
                cut < n,
                last_width == cut,
                n < usize::MAX,
                self.inv(rows - row, p, n + 1),
                self@ == old(self)@,
                forall|l: int, c: int| #[trigger]
                    self.has_cell(l, c) <==> (old(self).has_cell(l, c) && !(l >= rows - row && p
                        <= c <= n)),
                forall|j: int|
                    row <= j < rows ==> {
                        &&& self.straddles(
                            (#[trigger] path@[j]).curr_node as int,
                            rows - 1 - j,
                            p,
                            p,
                        )
                        &&& path@[j].curr_width == self.node_pos(path@[j].curr_node as int)
                    },
            decreases rows - row,
        {
            let nw = path[row];
            let ghost prior = *self;
            proof {
                assert(self.straddles(nw.curr_node as int, rows - 1 - row, p, p));
            }
            let jumped_left = last_width - nw.curr_width + 1;
            self.clear_right(nw.curr_node, jumped_left, Ghost(rows - row), Ghost(p));
            proof {
                assert forall|j: int| row + 1 <= j < rows implies {
                    &&& self.straddles(
                        (#[trigger] path@[j]).curr_node as int,
                        rows - 1 - j,
                        p,
                        p,
                    )
                    &&& path@[j].curr_width == self.node_pos(path@[j].curr_node as int)
                } by {
                    assert(prior.straddles(path@[j].curr_node as int, rows - 1 - j, p, p));
                }
            }
            row = row + 1;
        }
        let ghost mid = *self;
        self.close_gap(Ghost(p), Ghost(n + 1), cut);
        proof {
            assert(self@ =~= old(self)@.take(cut as int));
            assert forall|l: int, c: int| #[trigger]
                self.has_cell(l, c) <==> old(self).has_cell(
                    l,
                    if c < cut + 1 {
                        c
                    } else {
                        c + (n - cut)
                    },
                ) by {
                let b = if c < p {
                    c
                } else {
                    c + (n + 1 - p)
                };
                assert(self.has_cell(l, c) <==> mid.has_cell(l, b));
                if old(self).has_cell(l, b) {
                    old(self).lemma_cell_place(l, b);
                }
            }
            lemma_rows_after_cut(old(self), self, cut as int);
        }
        ret
    }
}

} // verus!
