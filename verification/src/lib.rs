//! Algorithms and utilities to work with bifiltered graphs: graphs whose edges
//! carry a two-dimensional critical grade. In particular, algorithms to remove
//! edges from a bifiltered graph while maintaining the topological properties
//! of its clique complex; see [`removal`].

use vstd::prelude::*;

pub mod chain_complex;
pub mod distance_matrix;
pub mod edges;
pub mod io_utils;
pub mod removal;

verus! {

/// A 1-critical grade with two parameters: the pair of values at which a
/// simplex enters a bifiltration. The default order is lexicographic.
#[derive(Debug, Copy, Clone, PartialEq, Eq, Structural, Hash)]
pub struct OneCriticalGrade(pub u64, pub u64);

impl OneCriticalGrade {
    /// The least grade: both coordinates at the least value.
    pub fn min_value() -> (r: Self)
        ensures
            r == OneCriticalGrade(0, 0),
    {
        OneCriticalGrade(0, 0)
    }

    /// The greatest grade: both coordinates at the greatest value.
    /// Acts as an absorbing element under [`join`](Self::join).
    pub fn max_value() -> (r: Self)
        ensures
            r == OneCriticalGrade(u64::MAX, u64::MAX),
    {
        OneCriticalGrade(u64::MAX, u64::MAX)
    }

    /// The zero grade.
    pub fn zero() -> (r: Self)
        ensures
            r == OneCriticalGrade(0, 0),
    {
        OneCriticalGrade(0, 0)
    }

    /// The number of parameters of the grade.
    pub fn parameters() -> (r: usize)
        ensures
            r == 2,
    {
        2
    }

    /// The componentwise maximum of two grades, spec-level.
    pub open spec fn spec_join(self, other: Self) -> Self {
        OneCriticalGrade(
            if self.0 >= other.0 { self.0 } else { other.0 },
            if self.1 >= other.1 { self.1 } else { other.1 },
        )
    }

    /// The product (componentwise) order on grades, spec-level.
    pub open spec fn spec_lte(self, other: Self) -> bool {
        self.0 <= other.0 && self.1 <= other.1
    }

    /// The componentwise maximum of two grades: the least grade above both.
    pub fn join(&self, other: &Self) -> (r: Self)
        ensures
            r == self.spec_join(*other),
    {
        OneCriticalGrade(
            if self.0 >= other.0 { self.0 } else { other.0 },
            if self.1 >= other.1 { self.1 } else { other.1 },
        )
    }

    /// Whether `self` is less than or equal to `other` in the product order.
    pub fn lte(&self, other: &Self) -> (r: bool)
        ensures
            r == self.spec_lte(*other),
    {
        self.0 <= other.0 && self.1 <= other.1
    }

    /// Whether `self` is greater than or equal to `other` in the product order.
    pub fn gte(&self, other: &Self) -> (r: bool)
        ensures
            r == other.spec_lte(*self),
    {
        self.0 >= other.0 && self.1 >= other.1
    }

    /// Whether neither `self <= other` nor `other <= self` holds in the
    /// product order.
    pub fn is_incomparable_to(&self, other: &Self) -> (r: bool)
        ensures
            r == (!self.spec_lte(*other) && !other.spec_lte(*self)),
    {
        !self.lte(other) && !self.gte(other)
    }

    /// Lexicographic strict order on grades, spec-level: compare the first
    /// coordinate, break ties by the second.
    pub open spec fn lex_lt(self, other: Self) -> bool {
        self.0 < other.0 || (self.0 == other.0 && self.1 < other.1)
    }

    /// Colexicographic strict order on grades, spec-level: compare the second
    /// coordinate, break ties by the first.
    pub open spec fn colex_lt(self, other: Self) -> bool {
        self.1 < other.1 || (self.1 == other.1 && self.0 < other.0)
    }

    /// Compares two grades colexicographically: the second coordinate is the
    /// most significant one.
    pub fn cmp_colexicographically(&self, b: &Self) -> (r: core::cmp::Ordering)
        ensures
            r == core::cmp::Ordering::Less <==> self.colex_lt(*b),
            r == core::cmp::Ordering::Greater <==> b.colex_lt(*self),
            r == core::cmp::Ordering::Equal <==> *self == *b,
    {
        if self.1 < b.1 {
            core::cmp::Ordering::Less
        } else if self.1 > b.1 {
            core::cmp::Ordering::Greater
        } else if self.0 < b.0 {
            core::cmp::Ordering::Less
        } else if self.0 > b.0 {
            core::cmp::Ordering::Greater
        } else {
            core::cmp::Ordering::Equal
        }
    }
}


/// A value usable as a coordinate of a grade in a bifiltered graph: totally
/// ordered and copyable, with a least, a greatest and a zero value. The
/// grades of this crate hold values of the one type that implements it.
pub trait Value: Copy + PartialEq + Eq {
    /// The least value.
    fn min_value() -> Self;

    /// The greatest value.
    fn max_value() -> Self;

    /// The zero value.
    fn zero() -> Self;
}

impl Value for u64 {
    fn min_value() -> (r: Self)
        ensures
            r == 0,
    {
        0
    }

    fn max_value() -> (r: Self)
        ensures
            r == u64::MAX,
    {
        u64::MAX
    }

    fn zero() -> (r: Self)
        ensures
            r == 0,
    {
        0
    }
}

/// The grade at which a simplex enters a filtration.
pub trait CriticalGrade: Sized {
    /// The least grade.
    fn min_value() -> Self;

    /// The greatest grade.
    fn max_value() -> Self;

    /// The zero grade.
    fn zero() -> Self;

    /// The least grade above both `self` and `other`.
    fn join(&self, other: &Self) -> Self;

    /// Whether `self` is at or below `other` in the product order.
    fn lte(&self, other: &Self) -> bool;

    /// Whether `self` is at or above `other` in the product order.
    fn gte(&self, other: &Self) -> bool;

    /// The number of parameters of the grade.
    fn parameters() -> usize;
}

impl CriticalGrade for OneCriticalGrade {
    fn min_value() -> (r: Self)
        ensures
            r == OneCriticalGrade(0, 0),
    {
        OneCriticalGrade::min_value()
    }

    fn max_value() -> (r: Self)
        ensures
            r == OneCriticalGrade(u64::MAX, u64::MAX),
    {
        OneCriticalGrade::max_value()
    }

    fn zero() -> (r: Self)
        ensures
            r == OneCriticalGrade(0, 0),
    {
        OneCriticalGrade::zero()
    }

    fn join(&self, other: &Self) -> (r: Self)
        ensures
            r == self.spec_join(*other),
    {
        self.join(other)
    }

    fn lte(&self, other: &Self) -> (r: bool)
        ensures
            r == self.spec_lte(*other),
    {
        self.lte(other)
    }

    fn gte(&self, other: &Self) -> (r: bool)
        ensures
            r == other.spec_lte(*self),
    {
        self.gte(other)
    }

    fn parameters() -> (r: usize)
        ensures
            r == 2,
    {
        OneCriticalGrade::parameters()
    }
}

} // verus!
