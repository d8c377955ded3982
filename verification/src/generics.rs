//! Generic functions and data types over simple values: finding the
//! largest element of a slice, and points with generic coordinates.

use vstd::prelude::*;

use core::cmp::Ordering;
use vstd::std_specs::cmp::PartialOrdSpec;

verus! {

/// Returns the largest value in a non-empty slice of machine integers.
pub fn largest_basic(list: &[i32]) -> (r: i32)
    requires
        list@.len() > 0,
    ensures
        list@.contains(r),
        forall|i: int| 0 <= i < list@.len() ==> list@[i] <= r,
{
    let mut largest = list[0];
    let mut idx: usize = 1;
    while idx < list.len()
        invariant
            1 <= idx <= list@.len(),
            list@.contains(largest),
            forall|i: int| 0 <= i < idx ==> list@[i] <= largest,
        decreases list@.len() - idx,
    {
        let item = list[idx];
        if item > largest {
            largest = item;
        }
        idx = idx + 1;
    }
    largest
}

/// The value `largest` reaches after scanning `s` left to right, keeping
/// the newcomer whenever `partial_cmp` would call it strictly greater.
pub open spec fn spec_largest<T: PartialOrd>(s: Seq<T>) -> T
    recommends
        s.len() > 0,
    decreases s.len(),
{
    if s.len() <= 1 {
        s[0]
    } else {
        let prev = spec_largest(s.drop_last());
        if s.last().partial_cmp_spec(&prev) == Some(Ordering::Greater) {
            s.last()
        } else {
            prev
        }
    }
}

/// Returns the left-to-right running maximum of a non-empty slice, for any
/// element type that can be ordered and copied.  The result is always one
/// of the elements; when the type's comparison operator agrees with its
/// specification, the result is exactly `spec_largest`.
pub fn largest<T: PartialOrd + Copy>(list: &[T]) -> (r: T)
    requires
        list@.len() > 0,
    ensures
        exists|i: int| 0 <= i < list@.len() && r == list@[i],
        T::obeys_partial_cmp_spec() ==> r == spec_largest(list@),
{
    let mut largest = list[0];
    let mut idx: usize = 1;
    while idx < list.len()
        invariant
            1 <= idx <= list@.len(),
            exists|i: int| 0 <= i < list@.len() && largest == list@[i],
            T::obeys_partial_cmp_spec() ==> largest == spec_largest(list@.take(idx as int)),
        decreases list@.len() - idx,
    {
        let item = list[idx];
        proof {
            assert(list@.take(idx + 1).drop_last() =~= list@.take(idx as int));
            assert(list@.take(idx + 1).last() == list@[idx as int]);
        }
        if item > largest {
            largest = item;
        }
        idx = idx + 1;
    }
    proof {
        assert(list@.take(list@.len() as int) =~= list@);
    }
    largest
}

/// A point whose two coordinates share one type.
pub struct Point<T> {
    pub x: T,
    pub y: T,
}

impl<T> Point<T> {
    /// Borrows the first coordinate.
    pub fn x(&self) -> (r: &T)
        ensures
            *r == self.x,
    {
        &self.x
    }
}

/// A point whose two coordinates may have different types.
pub struct PointB<T, U> {
    pub x: T,
    pub y: U,
}

impl<T, U> PointB<T, U> {
    /// Combines `self`'s first coordinate with `other`'s second.
    pub fn mixup<V, W>(self, other: PointB<V, W>) -> (r: PointB<T, W>)
        ensures
            r.x == self.x,
            r.y == other.y,
    {
        PointB { x: self.x, y: other.y }
    }
}

/// A placeholder demonstration function; it does nothing.
pub fn f1() {
}

} // verus!
