//! Classifiers that delimit a window of the order.
//!
//! A classifier is an executable function from elements to [`RangeHint`].
//! Contracts speak of it through a specification function that describes
//! it: a function `h` such that whatever the classifier returns for `x` is
//! `h(x)`.

use crate::order::lt;
use vstd::prelude::*;

verus! {

/// What a classifier says of an element: it lies strictly before the
/// window, inside it, or strictly behind it.
#[derive(Debug, Clone, Copy)]
pub enum RangeHint {
    SmallerThanRange,
    InRange,
    LargerThanRange,
}

/// `f` can be called on `x`.
pub open spec fn accepts<T, F: Fn(&T) -> RangeHint>(f: F, x: T) -> bool {
    call_requires(f, (&x,))
}

/// `f` can be called on every element of `s`.
pub open spec fn accepts_all<T, F: Fn(&T) -> RangeHint>(f: F, s: Seq<T>) -> bool {
    forall|i: int| 0 <= i < s.len() ==> accepts(f, #[trigger] s[i])
}

/// `hint` is a possible answer of `f` for `x`.
pub open spec fn says<T, F: Fn(&T) -> RangeHint>(f: F, x: T, hint: RangeHint) -> bool {
    call_ensures(f, (&x,), hint)
}

/// Placing `x` before the window is a possible answer of `f`.
pub open spec fn says_below<T, F: Fn(&T) -> RangeHint>(f: F, x: T) -> bool {
    says(f, x, RangeHint::SmallerThanRange)
}

/// Placing `x` inside the window is a possible answer of `f`.
pub open spec fn says_inside<T, F: Fn(&T) -> RangeHint>(f: F, x: T) -> bool {
    says(f, x, RangeHint::InRange)
}

/// Placing `x` behind the window is a possible answer of `f`.
pub open spec fn says_above<T, F: Fn(&T) -> RangeHint>(f: F, x: T) -> bool {
    says(f, x, RangeHint::LargerThanRange)
}

/// `h` describes `f`: whatever `f` returns for an element is what `h`
/// gives for it.
pub open spec fn describes<T, F: Fn(&T) -> RangeHint>(h: spec_fn(T) -> RangeHint, f: F) -> bool {
    forall|x: T, r: RangeHint| #[trigger] says(f, x, r) ==> r == h(x)
}

/// `h` cuts the ascending sequence `s` into a part before the window, the
/// window and a part behind it: what precedes an element before the window
/// is before the window, and what follows an element behind the window is
/// behind the window.
pub open spec fn cuts<T>(h: spec_fn(T) -> RangeHint, s: Seq<T>) -> bool {
    forall|i: int, j: int|
        0 <= i < j < s.len() ==> {
            &&& h(#[trigger] s[j]) is SmallerThanRange ==> h(#[trigger] s[i]) is SmallerThanRange
            &&& h(s[i]) is LargerThanRange ==> h(s[j]) is LargerThanRange
        }
}

/// The test "`h` places the element inside the window", as a function.
pub open spec fn inside_of<T>(h: spec_fn(T) -> RangeHint) -> spec_fn(T) -> bool {
    |x: T| h(x) is InRange
}

/// The classification whose window is the closed interval from `a` to `b`.
pub open spec fn bounds_hint<T: PartialOrd>(a: T, b: T) -> spec_fn(T) -> RangeHint {
    |x: T|
        if lt(x, a) {
            RangeHint::SmallerThanRange
        } else if lt(b, x) {
            RangeHint::LargerThanRange
        } else {
            RangeHint::InRange
        }
}

} // verus!
