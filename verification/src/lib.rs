//! An ordered, duplicate-free container built on a skip list.
//!
//! Elements live in an index-based arena of leveled nodes. Every node keeps
//! the number of bottom-row steps that its horizontal link covers, so the
//! container answers positional queries as well as ordered ones.
//! The abstract value of a [`SkipList`] is the strictly ascending sequence
//! of its elements; every contract is stated over that sequence.

pub mod checks;
pub mod grid;
pub mod hint;
pub mod iter;
pub mod laws;
pub mod node;
pub mod order;
pub mod search;
pub mod sorted;
pub mod update;

pub use crate::grid::SkipList;
pub use crate::hint::RangeHint;
pub use crate::iter::IndexBound;
