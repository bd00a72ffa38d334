use crate::key_order::KeyOrder;
use std::cmp::Ordering;
use vstd::prelude::*;

verus! {

/// A point of the integer plane. Fields are declared y first, so that the
/// derived order compares by y and breaks ties by x, as `compare` does.
#[derive(PartialEq, Eq, Structural, PartialOrd, Ord, Clone, Copy, Debug)]
pub struct Point {
    pub y: i32,
    pub x: i32,
}

/// The square of the Euclidean distance between two points.
pub open spec fn dist2(a: Point, b: Point) -> int {
    (a.x - b.x) * (a.x - b.x) + (a.y - b.y) * (a.y - b.y)
}

impl Point {
    /// The square of the Euclidean distance to `other`.
    pub fn distance_squared_to(&self, other: &Point) -> (d: i128)
        ensures
            d == dist2(*self, *other),
    {
        let dx = self.x as i128 - other.x as i128;
        let dy = self.y as i128 - other.y as i128;
        assert(dx * dx <= 0x1_0000_0000 * 0x1_0000_0000) by (nonlinear_arith)
            requires
                -0x1_0000_0000 <= dx <= 0x1_0000_0000,
        ;
        assert(dy * dy <= 0x1_0000_0000 * 0x1_0000_0000) by (nonlinear_arith)
            requires
                -0x1_0000_0000 <= dy <= 0x1_0000_0000,
        ;
        assert(dx * dx >= 0 && dy * dy >= 0) by (nonlinear_arith);
        dx * dx + dy * dy
    }
}

/// Points are ordered by their y coordinate, ties broken by x.
impl KeyOrder for Point {
    open spec fn le(self, other: Self) -> bool {
        self.y < other.y || (self.y == other.y && self.x <= other.x)
    }

    proof fn lemma_reflexive(x: Self) {
    }

    proof fn lemma_transitive(x: Self, y: Self, z: Self) {
    }

    proof fn lemma_antisymmetric(x: Self, y: Self) {
    }

    proof fn lemma_total(x: Self, y: Self) {
    }

    fn compare(&self, other: &Self) -> (o: Ordering) {
        if self == other {
            Ordering::Equal
        } else if self.y != other.y {
            if self.y < other.y {
                Ordering::Less
            } else {
                Ordering::Greater
            }
        } else {
            if self.x < other.x {
                Ordering::Less
            } else {
                Ordering::Greater
            }
        }
    }
}

} // verus!
