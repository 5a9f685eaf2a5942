use vstd::prelude::*;

verus! {

/// A point of the plane on the half-unit grid: `x` and `y` hold twice the
/// coordinates of the point, so that apexes and crossings of tents over
/// integer endpoints are exact.
#[derive(Debug, Clone, Copy, PartialEq, Eq, Structural, PartialOrd, Ord)]
pub struct PointOrd {
    pub x: i64,
    pub y: i64,
}

/// The total order on points: by `x`, then by `y`.
pub open spec fn point_lt(a: PointOrd, b: PointOrd) -> bool {
    a.x < b.x || (a.x == b.x && a.y < b.y)
}

impl PointOrd {
    /// Whether `self` comes strictly before `other` in the order by `x`, then `y`.
    pub fn less_than(&self, other: &PointOrd) -> (r: bool)
        ensures
            r == point_lt(*self, *other),
    {
        self.x < other.x || (self.x == other.x && self.y < other.y)
    }
}

} // verus!
