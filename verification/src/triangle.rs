//! Triangles by their sides: which kind a triangle is.

use num::traits::Num;
use vstd::laws_eq::obeys_concrete_eq;
use vstd::prelude::*;
use vstd::std_specs::cmp::{PartialOrdIs, PartialOrdSpec};

verus! {

/// A triangle, held as its three sides.
#[derive(Debug)]
pub struct Triangle<T>(T, T, T);

/// `num`'s `Zero::zero`: the zero of the numbers `T`.
#[verifier::external_body]
fn zero<T: Num>() -> (z: T) {
    T::zero()
}

/// Whether `a` and `b` are the same value.
fn same<T: PartialEq>(a: &T, b: &T) -> (r: bool)
    requires
        obeys_concrete_eq::<T>(),
    ensures
        r == (*a == *b),
{
    proof {
        reveal(obeys_concrete_eq);
    }
    *a == *b
}

/// How many of the three pairs among `a`, `b` and `c` are pairs of equals.
pub open spec fn equal_pairs<T>(a: T, b: T, c: T) -> int {
    (if a == b {
        1int
    } else {
        0int
    }) + (if b == c {
        1int
    } else {
        0int
    }) + (if a == c {
        1int
    } else {
        0int
    })
}

impl<T: Copy> Triangle<T> {
    /// The three sides, in the order in which they were given.
    pub closed spec fn sides(&self) -> (T, T, T) {
        (self.0, self.1, self.2)
    }
}

impl<T: PartialOrd + Copy> Triangle<T> {
    /// The triangle with the sides `sides`, unless each of them is `zero`.
    pub fn build_from(sides: [T; 3], zero: T) -> (t: Option<Triangle<T>>)
        requires
            obeys_concrete_eq::<T>(),
        ensures
            t is None <==> sides[0] == zero && sides[1] == zero && sides[2] == zero,
            t is Some ==> t->0.sides() == (sides[0], sides[1], sides[2]),
    {
        if same(&sides[0], &zero) && same(&sides[1], &zero) && same(&sides[2], &zero) {
            return None;
        }
        Some(Triangle(sides[0], sides[1], sides[2]))
    }

    /// Whether the three sides are equal.
    pub fn is_equilateral(&self) -> (r: bool)
        requires
            obeys_concrete_eq::<T>(),
        ensures
            r == (equal_pairs(self.sides().0, self.sides().1, self.sides().2) == 3),
    {
        same(&self.0, &self.1) && same(&self.0, &self.2)
    }

    /// Whether the sides grow from the first to the last.
    pub fn is_scalene(&self) -> (r: bool)
        ensures
            T::obeys_partial_cmp_spec() ==> r == (self.sides().0.is_lt(&self.sides().1)
                && self.sides().1.is_lt(&self.sides().2)),
    {
        self.0 < self.1 && self.1 < self.2
    }

    /// Whether exactly two of the sides are equal.
    pub fn is_isosceles(&self) -> (r: bool)
        requires
            obeys_concrete_eq::<T>(),
        ensures
            r == (equal_pairs(self.sides().0, self.sides().1, self.sides().2) == 1),
    {
        let ab = same(&self.0, &self.1);
        let bc = same(&self.1, &self.2);
        let ac = same(&self.0, &self.2);
        (ab && !bc) || (bc && !ab) || (ac && !ab)
    }
}

impl<T: Num + PartialOrd + Copy> Triangle<T> {
    /// The triangle with the sides `sides`, unless each of them is the zero
    /// of its numbers.
    pub fn build(sides: [T; 3]) -> (t: Option<Triangle<T>>)
        requires
            obeys_concrete_eq::<T>(),
        ensures
            t is Some ==> t->0.sides() == (sides[0], sides[1], sides[2]),
            t is None ==> sides[0] == sides[1] && sides[1] == sides[2],
    {
        Self::build_from(sides, zero::<T>())
    }
}

} // verus!
