use vstd::prelude::*;

verus! {

/// A type supporting `>=` comparison without implementing `PartialOrd`.
///
/// `GreaterEqual` does not by itself enforce transitivity or anti-symmetry:
/// the relation may have cycles (as the time of 2PC does), or relate `a >= b`
/// and `b >= c` without `a >= c`.
///
/// `ge_spec` is the mathematical relation; `greater_equal` computes it.
/// `equals` is the equality the keys of a [`Map`](crate::apaxos::greater_equal_map::Map)
/// are told apart by.
pub trait GreaterEqual: Sized {
    /// `self >= other`, as a mathematical relation.
    spec fn ge_spec(&self, other: &Self) -> bool;

    /// Returns whether `self >= other`.
    fn greater_equal(&self, other: &Self) -> (r: bool)
        ensures
            r == self.ge_spec(other),
    ;

    /// Returns whether `self` and `other` are the same value.
    fn equals(&self, other: &Self) -> (r: bool)
        ensures
            r == (*self == *other),
    ;

    /// Returns whether `self` is greater than `other`: `self >= other` and
    /// they differ.
    fn is_gt(&self, other: &Self) -> (r: bool)
        ensures
            r == (self.ge_spec(other) && *self != *other),
    {
        self.greater_equal(other) && !self.equals(other)
    }
}

/// `a > b`: `a >= b` and `a != b`.
pub open spec fn gt_spec<K: GreaterEqual>(a: K, b: K) -> bool {
    a.ge_spec(&b) && a != b
}

impl GreaterEqual for u64 {
    open spec fn ge_spec(&self, other: &Self) -> bool {
        *self >= *other
    }

    fn greater_equal(&self, other: &Self) -> (r: bool) {
        *self >= *other
    }

    fn equals(&self, other: &Self) -> (r: bool) {
        *self == *other
    }
}

} // verus!
