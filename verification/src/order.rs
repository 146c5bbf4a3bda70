//! The maximum of two scalars, with the NaN rule of the float types: a value
//! that is not equal to itself loses against any other.
use vstd::prelude::*;
use vstd::std_specs::cmp::{PartialEqSpec, PartialOrdSpec, PartialOrdIs};

verus! {

/// What `scalar_max` returns for types whose comparisons have a functional
/// specification: `b` when `a` is unordered with itself or below `b`,
/// else `a`.
pub open spec fn max_spec<T: PartialOrd>(a: T, b: T) -> T {
    if !a.eq_spec(&a) {
        b
    } else if a.is_lt(&b) {
        b
    } else {
        a
    }
}

/// `T`'s `==` and `<` have functional specifications (true of the
/// machine integers, not assumed of the float types).
pub open spec fn comparisons_specified<T: PartialOrd>() -> bool {
    T::obeys_eq_spec() && T::obeys_partial_cmp_spec()
}

/// The larger of `a` and `b`; when `a` is not equal to itself (a NaN),
/// `b`; on a tie, `a`.
pub fn scalar_max<T: Copy + PartialOrd>(a: T, b: T) -> (r: T)
    ensures
        r == a || r == b,
        comparisons_specified::<T>() ==> r == max_spec(a, b),
{
    if a != a {
        b
    } else if a < b {
        b
    } else {
        a
    }
}

} // verus!
