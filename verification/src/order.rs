//! The order on keys. A key type brings `==` and `<` from `PartialEq` and
//! `PartialOrd`; the tree needs them to form a total order in which equal
//! keys are the same value.

use vstd::prelude::*;
use vstd::std_specs::cmp::PartialEqSpec;
use vstd::std_specs::cmp::PartialOrdSpec;
use core::cmp::Ordering;

verus! {

/// `a` comes strictly before `b`.
pub open spec fn lt<T: PartialOrd>(a: T, b: T) -> bool {
    a.partial_cmp_spec(&b) == Some(Ordering::Less)
}

/// `a` comes before `b`, or is `b`.
pub open spec fn le<T: PartialOrd>(a: T, b: T) -> bool {
    lt(a, b) || a == b
}

/// What the tree asks of its key type: the operators `==` and `<` compute
/// the type's `eq_spec` and `partial_cmp_spec`, `==` is equality of values,
/// and `<` is a strict total order.
pub open spec fn total_order<T: PartialOrd>() -> bool {
    &&& T::obeys_eq_spec()
    &&& T::obeys_partial_cmp_spec()
    &&& forall|a: T, b: T| #[trigger] a.eq_spec(&b) <==> a == b
    &&& forall|a: T, b: T| #[trigger] lt(a, b) ==> a != b && !lt(b, a)
    &&& forall|a: T, b: T| a != b ==> #[trigger] lt(a, b) || lt(b, a)
    &&& forall|a: T, b: T, c: T| #[trigger] lt(a, b) && #[trigger] lt(b, c) ==> lt(a, c)
}

/// `a < b`.
pub fn less<T: PartialOrd + Copy>(a: T, b: T) -> (r: bool)
    requires
        total_order::<T>(),
    ensures
        r == lt(a, b),
{
    a < b
}

/// `a == b`.
pub fn same<T: PartialOrd + Copy>(a: T, b: T) -> (r: bool)
    requires
        total_order::<T>(),
    ensures
        r == (a == b),
{
    a == b
}

} // verus!
