//! Line segments between integer points.

use vstd::prelude::*;
use crate::point::Point;

verus! {

/// A closed line segment between two points.
#[derive(Debug, Clone, Copy, PartialEq)]
pub struct LineSegment {
    pub start: Point<2, i64>,
    pub end: Point<2, i64>,
}

/// Checked sum of two unsigned integers.
pub fn add(left: u64, right: u64) -> (r: u64)
    requires
        left + right <= u64::MAX,
    ensures
        r == left + right,
{
    left + right
}

} // verus!
