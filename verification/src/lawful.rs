//! Conditions on the element types under which the map's contracts hold.

use vstd::prelude::*;
use vstd::std_specs::cmp::{OrdSpec, PartialEqSpec, PartialOrdIs, PartialOrdSpec};

verus! {

/// Every clone of a value is equal to the value itself.
pub open spec fn clone_is_exact<T: Clone>() -> bool {
    forall|a: T, b: T| #[trigger] vstd::pervasive::strictly_cloned(a, b) ==> a == b
}

/// The type's `Ord` is a total order that agrees with equality, and its `==`
/// is equality.
pub open spec fn lawful<T: Ord>() -> bool {
    &&& vstd::laws_cmp::obeys_cmp::<T>()
    &&& vstd::laws_eq::obeys_concrete_eq::<T>()
}

/// Under a lawful order no value is less than itself.
pub proof fn lemma_less_irreflexive<T: Ord>(x: T, y: T)
    requires
        lawful::<T>(),
        x.cmp_spec(&y) is Less,
    ensures
        x != y,
{
    reveal(vstd::laws_eq::obeys_concrete_eq);
    reveal(vstd::laws_cmp::obeys_cmp_partial_ord);
    reveal(vstd::laws_cmp::obeys_cmp_ord);
    if x == y {
        assert(x.eq_spec(&y));
        assert(x.partial_cmp_spec(&y) == Some(x.cmp_spec(&y)));
    }
}

/// Under a lawful order, `x < y` rules out `y < x`.
pub proof fn lemma_less_asymmetric<T: Ord>(x: T, y: T)
    requires
        lawful::<T>(),
        x.cmp_spec(&y) is Less,
    ensures
        !(y.cmp_spec(&x) is Less),
{
    reveal(vstd::laws_cmp::obeys_cmp_ord);
    reveal(vstd::laws_cmp::obeys_partial_cmp_spec_properties);
    assert(x.partial_cmp_spec(&y) == Some(x.cmp_spec(&y)));
    assert(y.partial_cmp_spec(&x) == Some(y.cmp_spec(&x)));
}

/// Under a lawful order, `<=` and `<` as std's `PartialOrd` decides them
/// agree with `cmp`.
pub proof fn lemma_order_agrees<T: Ord>(x: T, y: T)
    requires
        lawful::<T>(),
    ensures
        x.is_lt(&y) <==> x.cmp_spec(&y) is Less,
        x.is_le(&y) <==> !(y.cmp_spec(&x) is Less),
{
    reveal(vstd::laws_cmp::obeys_cmp_ord);
    reveal(vstd::laws_cmp::obeys_partial_cmp_spec_properties);
    assert(x.partial_cmp_spec(&y) == Some(x.cmp_spec(&y)));
    assert(y.partial_cmp_spec(&x) == Some(y.cmp_spec(&x)));
}

/// A copy of `x`, made with `T::clone`.
pub fn copy_of<T: Clone>(x: &T) -> (r: T)
    requires
        clone_is_exact::<T>(),
    ensures
        r == *x,
{
    Some(x).cloned().unwrap()
}

} // verus!
