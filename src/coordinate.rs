//! Points of the integer lattice.
use vstd::prelude::*;

verus! {

/// A point of the integer lattice. Ordered by `x` first, then `y`.
#[derive(Debug, Default, Clone, Copy, PartialEq, Eq, Structural, PartialOrd, Ord, Hash)]
pub struct Coordinate {
    pub x: i32,
    pub y: i32,
}

/// Strict lexicographic order on coordinates: `x` first, then `y`.
pub open spec fn coord_lt(a: Coordinate, b: Coordinate) -> bool {
    a.x < b.x || (a.x == b.x && a.y < b.y)
}

/// The perpendicular vector: a quarter turn counter-clockwise, `(x, y) -> (-y, x)`.
pub open spec fn perp_spec(c: Coordinate) -> Coordinate {
    Coordinate { x: (-c.y) as i32, y: c.x }
}

/// A coordinate whose components can be negated without overflow.
pub open spec fn negatable(c: Coordinate) -> bool {
    c.x > i32::MIN && c.y > i32::MIN
}

impl Coordinate {
    pub fn new(x: i32, y: i32) -> (r: Coordinate)
        ensures
            r.x == x,
            r.y == y,
    {
        Coordinate { x, y }
    }

    /// Builds a coordinate from grid indices.
    pub fn from_indices(x: usize, y: usize) -> (r: Coordinate)
        requires
            x <= i32::MAX,
            y <= i32::MAX,
        ensures
            r.x == x,
            r.y == y,
    {
        Coordinate { x: x as i32, y: y as i32 }
    }

    /// The perpendicular vector `(-y, x)`.
    pub fn perp(&self) -> (r: Coordinate)
        requires
            negatable(*self),
        ensures
            r == perp_spec(*self),
            negatable(r),
    {
        Coordinate { x: -self.y, y: self.x }
    }

    /// Component-wise sum, or `None` where a component leaves the range of `i32`.
    pub fn checked_add(&self, other: &Coordinate) -> (r: Option<Coordinate>)
        ensures
            match r {
                Some(c) => c.x == self.x + other.x && c.y == self.y + other.y,
                None => !(i32::MIN <= self.x + other.x <= i32::MAX && i32::MIN <= self.y
                    + other.y <= i32::MAX),
            },
    {
        let x = self.x as i64 + other.x as i64;
        let y = self.y as i64 + other.y as i64;
        if x < i32::MIN as i64 || x > i32::MAX as i64 || y < i32::MIN as i64 || y > i32::MAX as i64 {
            None
        } else {
            Some(Coordinate { x: x as i32, y: y as i32 })
        }
    }

    /// Strict order: `x` first, then `y`.
    pub fn is_before(&self, other: &Coordinate) -> (r: bool)
        ensures
            r == coord_lt(*self, *other),
    {
        self.x < other.x || (self.x == other.x && self.y < other.y)
    }
}

} // verus!
