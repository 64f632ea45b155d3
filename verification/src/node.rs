//! The cells of the leveled grid.

use crate::order::{duplicate, le, less, lt, obeys_order_laws, same};
use vstd::prelude::*;

verus! {

/// What a cell stands for: an element, or one of the two bounds that close
/// every row. The bounds are never handed to callers.
#[derive(Debug)]
pub enum NodeValue<T> {
    NegInf,
    Value(T),
    PosInf,
}

impl<T: PartialOrd + Clone> NodeValue<T> {
    /// `self`, taken as minus infinity, an element or plus infinity, is
    /// strictly below `item`.
    pub open spec fn spec_below(self, item: T) -> bool {
        match self {
            NodeValue::NegInf => true,
            NodeValue::Value(v) => lt(v, item),
            NodeValue::PosInf => false,
        }
    }

    /// `self` is the element `item`.
    pub open spec fn spec_holds(self, item: T) -> bool {
        self == NodeValue::Value(item)
    }

    /// `self`, taken as minus infinity, an element or plus infinity, is
    /// below or equal to `item`.
    pub open spec fn spec_at_most(self, item: T) -> bool {
        match self {
            NodeValue::NegInf => true,
            NodeValue::Value(v) => le(v, item),
            NodeValue::PosInf => false,
        }
    }

    /// `self` comes strictly before `other` where the lower bound comes
    /// before every element and every element before the upper bound.
    pub open spec fn spec_precedes(self, other: Self) -> bool {
        match (self, other) {
            (NodeValue::NegInf, NodeValue::NegInf) => false,
            (NodeValue::NegInf, _) => true,
            (NodeValue::Value(l), NodeValue::Value(r)) => lt(l, r),
            (NodeValue::Value(_), NodeValue::PosInf) => true,
            _ => false,
        }
    }

    /// The element of a cell that holds one.
    pub fn get_value(&self) -> (v: &T)
        requires
            self is Value,
        ensures
            *self == NodeValue::Value(*v),
    {
        match self {
            NodeValue::Value(v) => v,
            _ => vstd::pervasive::unreached(),
        }
    }

    pub fn is_pos_inf(&self) -> (r: bool)
        ensures
            r == (self is PosInf),
    {
        match self {
            NodeValue::PosInf => true,
            _ => false,
        }
    }

    pub fn is_neg_inf(&self) -> (r: bool)
        ensures
            r == (self is NegInf),
    {
        match self {
            NodeValue::NegInf => true,
            _ => false,
        }
    }

    /// Executable form of [`Self::spec_below`].
    pub fn below(&self, item: &T) -> (r: bool)
        requires
            obeys_order_laws::<T>(),
        ensures
            r == self.spec_below(*item),
    {
        match self {
            NodeValue::NegInf => true,
            NodeValue::Value(v) => less(v, item),
            NodeValue::PosInf => false,
        }
    }

    /// Executable form of [`Self::spec_holds`].
    pub fn holds(&self, item: &T) -> (r: bool)
        requires
            obeys_order_laws::<T>(),
        ensures
            r == self.spec_holds(*item),
    {
        match self {
            NodeValue::Value(v) => same(v, item),
            _ => false,
        }
    }

    /// Executable form of [`Self::spec_precedes`].
    pub fn precedes(&self, other: &Self) -> (r: bool)
        requires
            obeys_order_laws::<T>(),
        ensures
            r == self.spec_precedes(*other),
    {
        match (self, other) {
            (NodeValue::NegInf, NodeValue::NegInf) => false,
            (NodeValue::NegInf, _) => true,
            (NodeValue::Value(l), NodeValue::Value(r)) => less(l, r),
            (NodeValue::Value(_), NodeValue::PosInf) => true,
            _ => false,
        }
    }

    /// Whether two cells hold the same.
    pub fn same_as(&self, other: &Self) -> (r: bool)
        requires
            obeys_order_laws::<T>(),
        ensures
            r == (*self == *other),
    {
        match (self, other) {
            (NodeValue::NegInf, NodeValue::NegInf) => true,
            (NodeValue::PosInf, NodeValue::PosInf) => true,
            (NodeValue::Value(l), NodeValue::Value(r)) => same(l, r),
            _ => false,
        }
    }

    /// A copy of the cell value.
    pub fn duplicate(&self) -> (r: Self)
        requires
            obeys_order_laws::<T>(),
        ensures
            r == *self,
    {
        match self {
            NodeValue::NegInf => NodeValue::NegInf,
            NodeValue::PosInf => NodeValue::PosInf,
            NodeValue::Value(v) => NodeValue::Value(duplicate(v)),
        }
    }

    /// Executable form of [`Self::spec_at_most`].
    pub fn at_most(&self, item: &T) -> (r: bool)
        requires
            obeys_order_laws::<T>(),
        ensures
            r == self.spec_at_most(*item),
    {
        match self {
            NodeValue::NegInf => true,
            NodeValue::Value(v) => !less(item, v),
            NodeValue::PosInf => false,
        }
    }
}

/// One cell of the grid. Links are indices into the arena that owns the
/// cell.
pub struct Node<T> {
    /// The next cell of the same row; absent only in the upper bound.
    pub right: Option<usize>,
    /// The cell of the same column one row further down; absent in the
    /// bottom row.
    pub down: Option<usize>,
    pub value: NodeValue<T>,
    /// How many bottom-row steps lead from this cell to `right`.
    pub width: usize,
}

impl<T> Node<T> {
    /// The number of elements that lie strictly between this cell and its
    /// right neighbour.
    pub fn nodes_skipped_over(&self) -> (r: usize)
        requires
            self.width >= 1,
        ensures
            r == self.width - 1,
    {
        self.width - 1
    }
}

/// The cell value that belongs to column `c` of a grid over `s`: column 0 is
/// the lower bound, column `s.len() + 1` the upper bound, and column `c`
/// between them holds `s[c - 1]`.
pub open spec fn value_for<T>(s: Seq<T>, c: int) -> NodeValue<T> {
    if c <= 0 {
        NodeValue::NegInf
    } else if c > s.len() {
        NodeValue::PosInf
    } else {
        NodeValue::Value(s[c - 1])
    }
}

} // verus!
