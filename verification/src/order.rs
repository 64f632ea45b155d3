//! The ordering that the container assumes of its element type.

use core::cmp::Ordering;
use vstd::prelude::*;
use vstd::std_specs::cmp::PartialEqSpec;
use vstd::std_specs::cmp::PartialOrdSpec;

verus! {

/// `a` is strictly below `b` in the element order.
pub open spec fn lt<T: PartialOrd>(a: T, b: T) -> bool {
    a.partial_cmp_spec(&b) == Some(Ordering::Less)
}

/// `a` is below or equal to `b` in the element order.
pub open spec fn le<T: PartialOrd>(a: T, b: T) -> bool {
    lt(a, b) || a == b
}

/// What the container needs of `T`: the executable comparisons agree with
/// their specifications, `==` is structural equality, `<` is a strict total
/// order, and a clone equals its source.
pub open spec fn obeys_order_laws<T: PartialOrd + Clone>() -> bool {
    &&& T::obeys_eq_spec()
    &&& T::obeys_partial_cmp_spec()
    &&& forall|a: T, b: T| #[trigger] a.eq_spec(&b) <==> a == b
    &&& forall|a: T, b: T| #[trigger] lt(a, b) || a == b || lt(b, a)
    &&& forall|a: T, b: T| !(#[trigger] lt(a, b) && lt(b, a))
    &&& forall|a: T| !#[trigger] lt(a, a)
    &&& forall|a: T, b: T, c: T| #[trigger] lt(a, b) && #[trigger] lt(b, c) ==> lt(a, c)
    &&& forall|a: T, b: T| #[trigger] cloned(a, b) ==> a == b
}

/// Executable `<` on elements.
pub fn less<T: PartialOrd + Clone>(a: &T, b: &T) -> (r: bool)
    requires
        obeys_order_laws::<T>(),
    ensures
        r == lt(*a, *b),
{
    *a < *b
}

/// Executable `==` on elements.
pub fn same<T: PartialOrd + Clone>(a: &T, b: &T) -> (r: bool)
    requires
        obeys_order_laws::<T>(),
    ensures
        r == (*a == *b),
{
    *a == *b
}

/// A clone of `a`, known to equal it.
pub fn duplicate<T: PartialOrd + Clone>(a: &T) -> (r: T)
    requires
        obeys_order_laws::<T>(),
    ensures
        r == *a,
{
    let r = a.clone();
    assert(cloned(*a, r));
    r
}

} // verus!
