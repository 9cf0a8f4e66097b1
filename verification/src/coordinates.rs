//! Grid positions and Chebyshev adjacency.

use vstd::prelude::*;

verus! {

/// A pair of non-negative grid indices; `x` counts columns, `y` counts rows,
/// both starting at zero.
#[derive(Clone, Copy, Debug, PartialEq, Eq, Structural)]
pub struct Coordinates {
    pub x: u16,
    pub y: u16,
}

/// Two coordinates are adjacent when their Chebyshev distance is exactly 1:
/// they differ, and each axis differs by at most one (8-connectivity,
/// diagonals included).
pub open spec fn is_adjacent(a: Coordinates, b: Coordinates) -> bool {
    &&& !(a.x == b.x && a.y == b.y)
    &&& -1 <= a.x - b.x <= 1
    &&& -1 <= a.y - b.y <= 1
}

} // verus!
