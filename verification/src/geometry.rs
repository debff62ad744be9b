//! Points and line segments of a flattened path.
use crate::scalar::Scalar;
use core::cmp::Ordering;
use vstd::prelude::*;

verus! {

/// A point of the plane. The pixel (x, y) is the unit square between the
/// points (x, y) and (x + 1, y + 1).
#[derive(Clone, Copy, Debug)]
pub struct Point {
    pub x: Scalar,
    pub y: Scalar,
}

impl Point {
    /// Both coordinates are equal numbers.
    pub open spec fn same(self, other: Point) -> bool {
        &&& self.x.compared(other.x) == Some(Ordering::Equal)
        &&& self.y.compared(other.y) == Some(Ordering::Equal)
    }
}

impl PartialEq for Point {
    fn eq(&self, other: &Point) -> (r: bool) {
        self.x == other.x && self.y == other.y
    }
}

impl vstd::std_specs::cmp::PartialEqSpecImpl for Point {
    open spec fn obeys_eq_spec() -> bool {
        true
    }

    open spec fn eq_spec(&self, other: &Point) -> bool {
        self.same(*other)
    }
}

/// A line segment.
#[derive(Clone, Copy, Debug)]
pub struct Segment {
    pub from: Point,
    pub to: Point,
}

impl PartialEq for Segment {
    fn eq(&self, other: &Segment) -> (r: bool) {
        self.from == other.from && self.to == other.to
    }
}

impl vstd::std_specs::cmp::PartialEqSpecImpl for Segment {
    open spec fn obeys_eq_spec() -> bool {
        true
    }

    open spec fn eq_spec(&self, other: &Segment) -> bool {
        self.from.same(other.from) && self.to.same(other.to)
    }
}

impl Segment {
    /// Both ends lie at the same height.
    pub open spec fn level(self) -> bool {
        self.to.y.compared(self.from.y) == Some(Ordering::Equal)
    }

    /// Tells whether both ends lie at the same height.
    pub fn is_level(&self) -> (b: bool)
        ensures
            b == self.level(),
    {
        self.to.y == self.from.y
    }
}

} // verus!
