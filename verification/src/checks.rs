//! Walks over the whole grid: the consistency checks, and the layout of the
//! rows as plain values.
//!
//! The checks visit every cell and test what the invariant of the list
//! promises, so on a well-formed list each of them returns `true`.

use crate::grid::SkipList;
use crate::node::{value_for, NodeValue};
use crate::order::{lt, obeys_order_laws};
use crate::sorted::ascending;
use vstd::prelude::*;

verus! {

/// Column `c` of a grid over `s` comes before column `d` in the order of
/// cell values.
pub proof fn lemma_columns_ordered<T: PartialOrd + Clone>(s: Seq<T>, c: int, d: int)
    requires
        obeys_order_laws::<T>(),
        ascending(s),
        0 <= c < d <= s.len() + 1,
    ensures
        value_for(s, c).spec_precedes(value_for(s, d)),
{
    if 1 <= c && d <= s.len() {
        assert(lt(s[c - 1], s[d - 1]));
    }
}

/// One cell of a row, as plain values.
pub struct CellView<T> {
    /// What the cell holds.
    pub value: NodeValue<T>,
    /// The number of elements that lie strictly between the cell and its
    /// right neighbour; 0 for the upper bound.
    pub skipped: usize,
}

/// The column that a cell value belongs to in a grid over `s`.
pub open spec fn column_of<T: PartialOrd>(s: Seq<T>, v: NodeValue<T>) -> int {
    match v {
        NodeValue::NegInf => 0,
        NodeValue::Value(x) => crate::sorted::rank(s, x) as int + 1,
        NodeValue::PosInf => s.len() as int + 1,
    }
}

/// `row` is a row of a grid over `s`: it leads from the lower bound to the
/// upper bound through elements of `s` in ascending order, and every cell
/// tells how many elements lie between it and the next.
pub open spec fn is_row<T: PartialOrd>(s: Seq<T>, row: Seq<CellView<T>>) -> bool {
    &&& row.len() >= 2
    &&& row[0].value is NegInf
    &&& row[row.len() - 1].value is PosInf
    &&& row[row.len() - 1].skipped == 0
    &&& forall|j: int|
        0 < j < row.len() - 1 ==> (#[trigger] row[j]).value is Value && s.contains(
            row[j].value->Value_0,
        )
    &&& forall|j: int, k: int|
        0 <= j && k == j + 1 && k < row.len() ==> column_of(s, (#[trigger] row[j]).value)
            + row[j].skipped + 1 == column_of(s, (#[trigger] row[k]).value)
}

/// `row` has a cell that holds `x`.
pub open spec fn shows<T>(row: Seq<CellView<T>>, x: T) -> bool {
    exists|j: int| 0 <= j < row.len() && (#[trigger] row[j]).value == NodeValue::Value(x)
}

/// The columns `cols` are columns of cells of row `l` of `list`, and they
/// are all the columns before `next` in which that row holds a cell.
pub open spec fn covers<T: PartialOrd + Clone>(
    list: &SkipList<T>,
    l: int,
    cols: Seq<int>,
    next: int,
) -> bool {
    &&& forall|j: int| 0 <= j < cols.len() ==> list.has_cell(l, #[trigger] cols[j])
    &&& forall|c: int| 0 <= c < next && #[trigger] list.has_cell(l, c) ==> cols.contains(c)
}

proof fn lemma_covers_grows<T: PartialOrd + Clone>(
    list: &SkipList<T>,
    cols: Seq<int>,
    i: int,
)
    requires
        list.wf(),
        list.is_node(i),
        covers(list, list.node_level(i), cols, list.node_pos(i)),
    ensures
        covers(
            list,
            list.node_level(i),
            cols.push(list.node_pos(i)),
            list.node_pos(list.right_of(i)),
        ),
{
    let l = list.node_level(i);
    let c0 = list.node_pos(i);
    let next = list.node_pos(list.right_of(i));
    let more = cols.push(c0);
    list.lemma_cell(i);
    assert forall|j: int| 0 <= j < more.len() implies list.has_cell(l, #[trigger] more[j]) by {
        if j < cols.len() {
            assert(more[j] == cols[j]);
        }
    }
    assert forall|c: int| 0 <= c < next && #[trigger] list.has_cell(l, c) implies more.contains(
        c,
    ) by {
        if c < c0 {
            let j = choose|j: int| 0 <= j < cols.len() && cols[j] == c;
            assert(more[j] == c);
        } else if c == c0 {
            assert(more[cols.len() as int] == c);
        } else {
            list.lemma_gap_free(i, c);
        }
    }
}

/// A complete row shows exactly the elements that have a cell in it.
proof fn lemma_row_shows<T: PartialOrd + Clone>(
    list: &SkipList<T>,
    l: int,
    row: Seq<CellView<T>>,
    cols: Seq<int>,
)
    requires
        list.wf(),
        row.len() >= 2,
        cols.len() == row.len(),
        row_of(list@, row.drop_last(), cols.drop_last(), list@.len() as int + 1),
        row.last().value is PosInf,
        covers(list, l, cols.drop_last(), list@.len() as int + 1),
    ensures
        forall|y: T| #[trigger] shows(row, y) <==> list.in_row(l, y),
{
    list.lemma_wf();
    let s = list@;
    let body = row.drop_last();
    let bcols = cols.drop_last();
    assert forall|y: T| #[trigger] shows(row, y) <==> list.in_row(l, y) by {
        if shows(row, y) {
            let j = choose|j: int| 0 <= j < row.len() && (#[trigger] row[j]).value
                == NodeValue::Value(y);
            assert(body[j] == row[j]);
            let c = bcols[j];
            assert(s[c - 1] == y);
            crate::sorted::lemma_rank_of_element(s, c - 1);
            assert(list.has_cell(l, bcols[j]));
        }
        if list.in_row(l, y) {
            crate::sorted::lemma_rank_bounds(s, y);
            crate::sorted::lemma_rank_finds(s, y);
            let c = crate::sorted::rank(s, y) as int + 1;
            assert(bcols.contains(c));
            let j = choose|j: int| 0 <= j < bcols.len() && bcols[j] == c;
            assert(body[j] == row[j]);
            assert(row[j].value == NodeValue::Value(y));
        }
    }
}

/// `row` holds the cells of the columns `cols` of a grid over `s`, which
/// begin with column 0 when there are any, and the link of the last cell
/// leads to column `next`.
pub open spec fn row_of<T>(s: Seq<T>, row: Seq<CellView<T>>, cols: Seq<int>, next: int) -> bool {
    &&& cols.len() == row.len()
    &&& row.len() == 0 <==> next == 0
    &&& row.len() > 0 ==> cols[0] == 0
    &&& forall|j: int|
        0 <= j < row.len() ==> {
            &&& 0 <= cols[j] <= s.len()
            &&& (#[trigger] row[j]).value == value_for(s, cols[j])
            &&& cols[j] + row[j].skipped + 1 == if j + 1 < row.len() {
                cols[j + 1]
            } else {
                next
            }
        }
}

proof fn lemma_row_grows<T>(
    s: Seq<T>,
    row: Seq<CellView<T>>,
    cols: Seq<int>,
    c: int,
    cell: CellView<T>,
    next: int,
)
    requires
        row_of(s, row, cols, c),
        0 <= c <= s.len(),
        cell.value == value_for(s, c),
        c + cell.skipped + 1 == next,
    ensures
        row_of(s, row.push(cell), cols.push(c), next),
{
    let row2 = row.push(cell);
    let cols2 = cols.push(c);
    assert forall|j: int| 0 <= j < row2.len() implies {
        &&& 0 <= cols2[j] <= s.len()
        &&& (#[trigger] row2[j]).value == value_for(s, cols2[j])
        &&& cols2[j] + row2[j].skipped + 1 == if j + 1 < row2.len() {
            cols2[j + 1]
        } else {
            next
        }
    } by {
        if j < row.len() {
            assert(cols2[j] == cols[j]);
            assert(row2[j] == row[j]);
        }
    }
}

proof fn lemma_row_done<T: PartialOrd + Clone>(s: Seq<T>, row: Seq<CellView<T>>, cols: Seq<int>)
    requires
        obeys_order_laws::<T>(),
        ascending(s),
        row.len() >= 2,
        cols.len() == row.len(),
        row_of(s, row.drop_last(), cols.drop_last(), s.len() as int + 1),
        row.last().value is PosInf,
        row.last().skipped == 0,
    ensures
        is_row(s, row),
{
    let body = row.drop_last();
    let bcols = cols.drop_last();
    let m = body.len() as int;
    assert forall|j: int| 0 <= j < m
        implies column_of(s, (#[trigger] row[j]).value) == bcols[j] by {
        assert(body[j] == row[j]);
        if 1 <= bcols[j] {
            crate::sorted::lemma_rank_of_element(s, bcols[j] - 1);
        }
    }
    assert(row[0] == body[0]);
    assert forall|j: int| 0 < j < row.len() - 1 implies (#[trigger] row[j]).value is Value
        && s.contains(row[j].value->Value_0) by {
        assert(body[j] == row[j]);
        assert(body[j - 1].skipped >= 0);
        assert(bcols[j - 1] >= 0);
        assert(bcols[j] >= 1);
        assert(s.contains(s[bcols[j] - 1]));
    }
    assert forall|j: int, k: int| 0 <= j && k == j + 1 && k < row.len() implies column_of(
        s,
        (#[trigger] row[j]).value,
    ) + row[j].skipped + 1 == column_of(s, (#[trigger] row[k]).value) by {
        assert(body[j] == row[j]);
        if k < m {
            assert(body[k] == row[k]);
        }
    }
}

impl<T: PartialOrd + Clone> SkipList<T> {
    /// Every row is ordered: a cell that is no upper bound links to a cell
    /// on its right, and what it holds comes strictly before what that
    /// cell holds.
    pub open spec fn rows_ordered(&self) -> bool {
        forall|i: int|
            #[trigger] self.is_node(i) && !(self.value_of(i) is PosInf) ==> self.is_node(
                self.right_of(i),
            ) && self.value_of(i).spec_precedes(self.value_of(self.right_of(i)))
    }

    /// Every column holds one value: a cell that has a cell below it holds
    /// what that cell holds.
    pub open spec fn columns_same_value(&self) -> bool {
        forall|i: int|
            #[trigger] self.is_node(i) && self.is_node(self.down_of(i)) ==> self.value_of(
                self.down_of(i),
            ) == self.value_of(i)
    }

    /// The sum of the widths of the cells from cell `i` to the upper bound
    /// of its row, the upper bound left out.
    pub open spec fn row_sum(&self, i: int) -> int
        decreases self@.len() + 1 - self.node_pos(i),
    {
        if self.is_node(i) && !(self.value_of(i) is PosInf) && self.node_pos(i) < self.node_pos(
            self.right_of(i),
        ) <= self@.len() + 1 {
            self.width_of(i) + self.row_sum(self.right_of(i))
        } else {
            0
        }
    }

    /// The widths of every row add up to the number of elements plus one.
    pub open spec fn rows_sum_len(&self) -> bool {
        forall|i: int|
            #[trigger] self.is_node(i) && self.value_of(i) is NegInf ==> self.row_sum(i)
                == self@.len() + 1
    }

    /// The top row holds nothing but its two bounds.
    pub open spec fn top_row_closed(&self) -> bool {
        self.value_of(self.right_of(self.top())) is PosInf
    }

    /// A well-formed list has ordered rows.
    pub proof fn lemma_rows_ordered(&self)
        requires
            self.wf(),
        ensures
            self.rows_ordered(),
    {
        self.lemma_wf();
        assert forall|i: int|
            #[trigger] self.is_node(i) && !(self.value_of(i) is PosInf) implies self.is_node(
            self.right_of(i),
        ) && self.value_of(i).spec_precedes(self.value_of(self.right_of(i))) by {
            self.lemma_cell_value(i);
            self.lemma_node_place(i);
            self.lemma_link(i);
            self.lemma_cell_value(self.right_of(i));
            lemma_columns_ordered(self@, self.node_pos(i), self.node_pos(self.right_of(i)));
        }
    }

    /// The columns of a well-formed list hold one value each.
    pub proof fn lemma_columns_same_value(&self)
        requires
            self.wf(),
        ensures
            self.columns_same_value(),
    {
        assert forall|i: int|
            #[trigger] self.is_node(i) && self.is_node(self.down_of(i)) implies self.value_of(
            self.down_of(i),
        ) == self.value_of(i) by {
            self.lemma_down(i);
            self.lemma_cell_value(i);
            self.lemma_cell_value(self.down_of(i));
        }
    }

    /// In a well-formed list the widths from a cell to the end of its row
    /// add up to the number of columns from the cell to the upper bound.
    pub proof fn lemma_row_sum(&self, i: int)
        requires
            self.wf(),
            self.is_node(i),
        ensures
            self.row_sum(i) == self@.len() + 1 - self.node_pos(i),
        decreases self@.len() + 1 - self.node_pos(i),
    {
        self.lemma_cell_value(i);
        self.lemma_node_place(i);
        if self.node_pos(i) <= self@.len() {
            self.lemma_link(i);
            self.lemma_row_sum(self.right_of(i));
        }
    }

    /// The widths of every row of a well-formed list add up.
    pub proof fn lemma_rows_sum_len(&self)
        requires
            self.wf(),
        ensures
            self.rows_sum_len(),
    {
        assert forall|i: int|
            #[trigger] self.is_node(i) && self.value_of(i) is NegInf implies self.row_sum(i)
            == self@.len() + 1 by {
            self.lemma_cell_value(i);
            self.lemma_node_place(i);
            self.lemma_row_sum(i);
        }
    }

    /// The top row of a well-formed list holds nothing but its bounds.
    pub proof fn lemma_top_row_closed(&self)
        requires
            self.wf(),
        ensures
            self.top_row_closed(),
    {
        self.lemma_top_row();
        self.lemma_cell_value(self.right_of(self.top()));
    }

    /// Walks every row and tests that each cell comes before its right
    /// neighbour: decides whether the rows are ordered, which they are.
    pub fn ensure_rows_ordered(&self) -> (ok: bool)
        requires
            self.wf(),
        ensures
            ok == self.rows_ordered(),
            ok,
    {
        let mut left_row = self.top_left();
        proof {
            self.lemma_wf();
            self.lemma_rows_ordered();
        }
        loop
            invariant
                self.wf(),
                self.rows_ordered(),
                obeys_order_laws::<T>(),
                ascending(self@),
                self.is_node(left_row as int),
                self.node_pos(left_row as int) == 0,
                self.node_level(left_row as int) >= 0,
            decreases self.node_level(left_row as int),
        {
            let mut curr_node = left_row;
            loop
                invariant
                    self.wf(),
                    self.rows_ordered(),
                    obeys_order_laws::<T>(),
                    ascending(self@),
                    self.is_node(curr_node as int),
                    0 <= self.node_pos(curr_node as int) <= self@.len() + 1,
                decreases self@.len() + 1 - self.node_pos(curr_node as int),
            {
                if self.value(curr_node).is_pos_inf() {
                    break ;
                }
                let right = self.right(curr_node);
                proof {
                    lemma_columns_ordered(
                        self@,
                        self.node_pos(curr_node as int),
                        self.node_pos(right as int),
                    );
                }
                if !self.value(curr_node).precedes(self.value(right)) {
                    return false;
                }
                curr_node = right;
            }
            match self.down(left_row) {
                Some(down) => {
                    left_row = down;
                },
                None => {
                    return true;
                },
            }
        }
    }

    /// Walks every row and tests, for each cell, that the cells below it
    /// hold the same: decides whether every column holds one value, which
    /// it does.
    pub fn ensure_columns_same_value(&self) -> (ok: bool)
        requires
            self.wf(),
        ensures
            ok == self.columns_same_value(),
            ok,
    {
        let mut left_row = self.top_left();
        proof {
            self.lemma_wf();
            self.lemma_columns_same_value();
        }
        loop
            invariant
                self.wf(),
                self.columns_same_value(),
                obeys_order_laws::<T>(),
                self.is_node(left_row as int),
                self.node_pos(left_row as int) == 0,
                self.node_level(left_row as int) >= 0,
            decreases self.node_level(left_row as int),
        {
            let mut curr_node = left_row;
            loop
                invariant
                    self.wf(),
                    self.columns_same_value(),
                    obeys_order_laws::<T>(),
                    self.is_node(curr_node as int),
                    0 <= self.node_pos(curr_node as int) <= self@.len() + 1,
                decreases self@.len() + 1 - self.node_pos(curr_node as int),
            {
                let curr_value = self.value(curr_node);
                if curr_value.is_pos_inf() {
                    break ;
                }
                proof {
                    self.lemma_node_place(curr_node as int);
                }
                let mut curr_down = curr_node;
                loop
                    invariant
                        self.wf(),
                        self.columns_same_value(),
                        obeys_order_laws::<T>(),
                        self.is_node(curr_down as int),
                        self.node_pos(curr_down as int) == self.node_pos(curr_node as int),
                        self.node_pos(curr_node as int) <= self@.len(),
                        self.node_level(curr_down as int) >= 0,
                        *curr_value == value_for(self@, self.node_pos(curr_node as int)),
                    decreases self.node_level(curr_down as int),
                {
                    match self.down(curr_down) {
                        Some(down) => {
                            if !self.value(down).same_as(curr_value) {
                                return false;
                            }
                            curr_down = down;
                        },
                        None => {
                            break ;
                        },
                    }
                }
                curr_node = self.right(curr_node);
            }
            match self.down(left_row) {
                Some(down) => {
                    left_row = down;
                },
                None => {
                    return true;
                },
            }
        }
    }

    /// Walks every row and tests that its widths add up to the number of
    /// elements plus one: decides whether the widths of every row add up,
    /// which they do.
    pub fn ensure_rows_sum_len(&self) -> (ok: bool)
        requires
            self.wf(),
        ensures
            ok == self.rows_sum_len(),
            ok,
    {
        let mut left_row = self.top_left();
        let len = self.len();
        proof {
            self.lemma_wf();
            self.lemma_rows_sum_len();
        }
        loop
            invariant
                self.wf(),
                self.rows_sum_len(),
                len == self@.len(),
                len < usize::MAX,
                self.is_node(left_row as int),
                self.node_pos(left_row as int) == 0,
                self.node_level(left_row as int) >= 0,
            decreases self.node_level(left_row as int),
        {
            let mut curr_node = left_row;
            let mut curr_sum: usize = 0;
            loop
                invariant
                    self.wf(),
                    self.rows_sum_len(),
                    len == self@.len(),
                    len < usize::MAX,
                    self.is_node(curr_node as int),
                    0 <= self.node_pos(curr_node as int) <= self@.len() + 1,
                    curr_sum == self.node_pos(curr_node as int),
                ensures
                    curr_sum == len + 1,
                decreases self@.len() + 1 - self.node_pos(curr_node as int),
            {
                if self.value(curr_node).is_pos_inf() {
                    break ;
                }
                let right = self.right(curr_node);
                curr_sum = curr_sum + self.width(curr_node);
                curr_node = right;
            }
            if len != curr_sum - 1 {
                return false;
            }
            match self.down(left_row) {
                Some(down) => {
                    left_row = down;
                },
                None => {
                    return true;
                },
            }
        }
    }

    /// Runs every consistency check: the top row holds nothing but its
    /// bounds, rows are ordered, columns hold one value each, and the
    /// widths of every row add up.
    pub fn ensure_invariants(&self) -> (ok: bool)
        requires
            self.wf(),
        ensures
            ok == (self.top_row_closed() && self.rows_ordered() && self.columns_same_value()
                && self.rows_sum_len()),
            ok,
    {
        proof {
            self.lemma_wf();
            self.lemma_top_row();
            self.lemma_top_row_closed();
        }
        let top = self.top_left();
        self.value(self.right(top)).is_pos_inf() && self.ensure_rows_ordered()
            && self.ensure_columns_same_value() && self.ensure_rows_sum_len()
    }

    /// The rows of the grid from the top row down, each from its lower
    /// bound to its upper bound.
    pub fn layout(&self) -> (rows: Vec<Vec<CellView<T>>>)
        requires
            self.wf(),
        ensures
            rows@.len() == self.rows(),
            forall|i: int| 0 <= i < rows@.len() ==> is_row(self@, (#[trigger] rows@[i])@),
            forall|i: int, y: T|
                0 <= i < rows@.len() ==> (#[trigger] shows(rows@[i]@, y) <==> self.in_row(
                    rows@.len() - 1 - i,
                    y,
                )),
            rows@[rows@.len() - 1]@.len() == self@.len() + 2,
    {
        let mut rows: Vec<Vec<CellView<T>>> = Vec::new();
        let mut left_row = self.top_left();
        proof {
            self.lemma_wf();
        }
        loop
            invariant_except_break
                rows@.len() + self.node_level(left_row as int) + 1 == self.rows(),
            invariant
                self.wf(),
                self.is_node(left_row as int),
                self.node_pos(left_row as int) == 0,
                self.node_level(left_row as int) >= 0,
                forall|i: int| 0 <= i < rows@.len() ==> is_row(self@, (#[trigger] rows@[i])@),
                forall|i: int, y: T|
                    0 <= i < rows@.len() ==> (#[trigger] shows(rows@[i]@, y) <==> self.in_row(
                        self.rows() - 1 - i,
                        y,
                    )),
            ensures
                rows@.len() == self.rows(),
                forall|i: int| 0 <= i < rows@.len() ==> is_row(self@, (#[trigger] rows@[i])@),
                forall|i: int, y: T|
                    0 <= i < rows@.len() ==> (#[trigger] shows(rows@[i]@, y) <==> self.in_row(
                        self.rows() - 1 - i,
                        y,
                    )),
                rows@[rows@.len() - 1]@.len() == self@.len() + 2,
            decreases self.node_level(left_row as int),
        {
            let row = self.row_layout(left_row);
            rows.push(row);
            match self.down(left_row) {
                Some(down) => {
                    left_row = down;
                },
                None => {
                    break ;
                },
            }
        }
        rows
    }

    /// The row that begins with the lower bound `left`, cell by cell.
    fn row_layout(&self, left: usize) -> (row: Vec<CellView<T>>)
        requires
            self.wf(),
            self.is_node(left as int),
            self.node_pos(left as int) == 0,
        ensures
            is_row(self@, row@),
            forall|y: T| #[trigger] shows(row@, y)
                <==> self.in_row(self.node_level(left as int), y),
            self.node_level(left as int) == 0 ==> row@.len() == self@.len() + 2,
    {
        let mut row: Vec<CellView<T>> = Vec::new();
        let mut curr_node = left;
        let ghost mut cols: Seq<int> = Seq::empty();
        proof {
            self.lemma_wf();
        }
        loop
            invariant_except_break
                cols.len() == row@.len(),
                row_of(self@, row@, cols, self.node_pos(curr_node as int)),
                covers(self, self.node_level(left as int), cols, self.node_pos(curr_node as int)),
                self.node_level(left as int) == 0 ==> row@.len() == self.node_pos(curr_node as int),
            invariant
                self.wf(),
                obeys_order_laws::<T>(),
                ascending(self@),
                self@.len() < usize::MAX,
                self.is_node(curr_node as int),
                self.node_level(curr_node as int) == self.node_level(left as int),
                0 <= self.node_pos(curr_node as int) <= self@.len() + 1,
            ensures
                cols.len() == row@.len(),
                row@.len() >= 2,
                row_of(self@, row@.drop_last(), cols.drop_last(), self@.len() as int + 1),
                covers(
                    self,
                    self.node_level(left as int),
                    cols.drop_last(),
                    self@.len() as int + 1,
                ),
                row@.last().value is PosInf,
                row@.last().skipped == 0,
                self.node_level(left as int) == 0 ==> row@.len() == self@.len() + 2,
            decreases self@.len() + 1 - self.node_pos(curr_node as int),
        {
            let value = self.value(curr_node);
            let ghost c = self.node_pos(curr_node as int);
            let ghost seen = row@;
            let ghost seen_cols = cols;
            if value.is_pos_inf() {
                row.push(CellView { value: NodeValue::PosInf, skipped: 0 });
                proof {
                    cols = cols.push(c);
                    assert(row@.drop_last() =~= seen);
                    assert(cols.drop_last() =~= seen_cols);
                }
                break ;
            }
            let skipped = self.width(curr_node) - 1;
            let cell = CellView { value: value.duplicate(), skipped };
            row.push(cell);
            let right = self.right(curr_node);
            proof {
                cols = cols.push(c);
                lemma_row_grows(self@, seen, seen_cols, c, cell, self.node_pos(right as int));
                lemma_covers_grows(self, seen_cols, curr_node as int);
            }
            curr_node = right;
        }
        proof {
            lemma_row_done(self@, row@, cols);
            lemma_row_shows(self, self.node_level(left as int), row@, cols);
        }
        row
    }
}

} // verus!
