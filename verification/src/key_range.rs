//! Ranges of keys, as the range queries of the map take them.

use vstd::prelude::*;
use vstd::std_specs::cmp::PartialOrdIs;
use vstd::std_specs::range::ContainsSpec;

verus! {

/// A set of values of `T` given by bounds, such as `a..b` or `a..=b`.
pub trait KeyRange<T: Ord> {
    /// Whether `t` lies within the bounds.
    spec fn covers(&self, t: T) -> bool;

    /// Decides whether `t` lies within the bounds.
    fn includes(&self, t: &T) -> (b: bool)
        requires
            vstd::laws_cmp::obeys_cmp::<T>(),
        ensures
            b == self.covers(*t),
    ;
}

impl<T: Ord> KeyRange<T> for core::ops::Range<T> {
    open spec fn covers(&self, t: T) -> bool {
        <core::ops::Range<T> as ContainsSpec<T, T>>::contains_spec(self, &t)
    }

    fn includes(&self, t: &T) -> (b: bool) {
        proof {
            reveal(vstd::laws_cmp::obeys_cmp_partial_ord);
        }
        self.contains(t)
    }
}

impl<T: Ord> KeyRange<T> for core::ops::RangeInclusive<T> {
    open spec fn covers(&self, t: T) -> bool {
        <core::ops::RangeInclusive<T> as ContainsSpec<T, T>>::contains_spec(self, &t)
    }

    fn includes(&self, t: &T) -> (b: bool) {
        proof {
            reveal(vstd::laws_cmp::obeys_cmp_partial_ord);
        }
        self.contains(t)
    }
}

/// Declares std's `RangeFull` (written `..`) to Verus; its contents stay hidden.
#[verifier::external_type_specification]
#[verifier::external_body]
pub struct ExRangeFull(core::ops::RangeFull);

impl<T: Ord> KeyRange<T> for core::ops::RangeFull {
    open spec fn covers(&self, t: T) -> bool {
        true
    }

    fn includes(&self, t: &T) -> (b: bool) {
        true
    }
}

/// Declares std's `RangeFrom` (written `a..`) to Verus, with its public field.
#[verifier::external_type_specification]
#[verifier::reject_recursive_types(Idx)]
pub struct ExRangeFrom<Idx>(core::ops::RangeFrom<Idx>);

/// Declares std's `RangeTo` (written `..b`) to Verus, with its public field.
#[verifier::external_type_specification]
#[verifier::reject_recursive_types(Idx)]
pub struct ExRangeTo<Idx>(core::ops::RangeTo<Idx>);

/// Declares std's `RangeToInclusive` (written `..=b`) to Verus, with its public field.
#[verifier::external_type_specification]
#[verifier::reject_recursive_types(Idx)]
pub struct ExRangeToInclusive<Idx>(core::ops::RangeToInclusive<Idx>);

impl<T: Ord> KeyRange<T> for core::ops::RangeFrom<T> {
    open spec fn covers(&self, t: T) -> bool {
        self.start.is_le(&t)
    }

    fn includes(&self, t: &T) -> (b: bool) {
        proof {
            reveal(vstd::laws_cmp::obeys_cmp_partial_ord);
        }
        self.start <= *t
    }
}

impl<T: Ord> KeyRange<T> for core::ops::RangeTo<T> {
    open spec fn covers(&self, t: T) -> bool {
        t.is_lt(&self.end)
    }

    fn includes(&self, t: &T) -> (b: bool) {
        proof {
            reveal(vstd::laws_cmp::obeys_cmp_partial_ord);
        }
        *t < self.end
    }
}

impl<T: Ord> KeyRange<T> for core::ops::RangeToInclusive<T> {
    open spec fn covers(&self, t: T) -> bool {
        t.is_le(&self.end)
    }

    fn includes(&self, t: &T) -> (b: bool) {
        proof {
            reveal(vstd::laws_cmp::obeys_cmp_partial_ord);
        }
        *t <= self.end
    }
}

/// Declares std's `Bound` to Verus, with its variants.
#[verifier::external_type_specification]
#[verifier::reject_recursive_types(T)]
pub struct ExBound<T>(core::ops::Bound<T>);

impl<T: Ord> KeyRange<T> for (core::ops::Bound<T>, core::ops::Bound<T>) {
    open spec fn covers(&self, t: T) -> bool {
        &&& match &self.0 {
            core::ops::Bound::Included(lo) => lo.is_le(&t),
            core::ops::Bound::Excluded(lo) => lo.is_lt(&t),
            core::ops::Bound::Unbounded => true,
        }
        &&& match &self.1 {
            core::ops::Bound::Included(hi) => t.is_le(hi),
            core::ops::Bound::Excluded(hi) => t.is_lt(hi),
            core::ops::Bound::Unbounded => true,
        }
    }

    fn includes(&self, t: &T) -> (b: bool) {
        proof {
            reveal(vstd::laws_cmp::obeys_cmp_partial_ord);
        }
        let above = match &self.0 {
            core::ops::Bound::Included(lo) => *lo <= *t,
            core::ops::Bound::Excluded(lo) => *lo < *t,
            core::ops::Bound::Unbounded => true,
        };
        let below = match &self.1 {
            core::ops::Bound::Included(hi) => *t <= *hi,
            core::ops::Bound::Excluded(hi) => *t < *hi,
            core::ops::Bound::Unbounded => true,
        };
        above && below
    }
}

/// Whether `k` lies in `range`, where `None` stands for all keys.
pub open spec fn in_range<K: Ord, B: KeyRange<K>>(range: Option<&B>, k: K) -> bool {
    match range {
        Some(b) => b.covers(k),
        None => true,
    }
}

} // verus!
