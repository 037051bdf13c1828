//! Small shared items: grid coordinates, bounds tests, squared distances.

use vstd::prelude::*;

verus! {

/// Largest coordinate magnitude the kernel admits; keeps every squared
/// distance inside `u64` and inside the fixed-point range.
pub const COORD_MAX: i32 = 1_000_000;

/// Largest grid dimension (and exit-coordinate magnitude) the kernel
/// admits; keeps squared cell distances inside the fixed-point range.
pub const DIM_CAP: i32 = 1200;

/// A grid coordinate pair `(x, y)`.
#[derive(Debug, Clone, Copy, PartialEq, Eq, Hash, Structural)]
pub struct Loc(pub i32, pub i32);

/// Whether `0 <= val < limit`.
pub fn within_bounds(val: i32, limit: i32) -> (r: bool)
    ensures
        r == (0 <= val < limit),
{
    val >= 0 && val < limit
}

/// Squared Euclidean distance between two points, as a mathematical integer.
pub open spec fn dist_sq(x1: int, y1: int, x2: int, y2: int) -> int {
    (x1 - x2) * (x1 - x2) + (y1 - y2) * (y1 - y2)
}

/// Squared Euclidean distance between two locations.
pub fn distsq(p1: &Loc, p2: &Loc) -> (r: u64)
    requires
        -COORD_MAX <= p1.0 <= COORD_MAX,
        -COORD_MAX <= p1.1 <= COORD_MAX,
        -COORD_MAX <= p2.0 <= COORD_MAX,
        -COORD_MAX <= p2.1 <= COORD_MAX,
    ensures
        r == dist_sq(p1.0 as int, p1.1 as int, p2.0 as int, p2.1 as int),
{
    let dx: i64 = (p1.0 as i64) - (p2.0 as i64);
    let dy: i64 = (p1.1 as i64) - (p2.1 as i64);
    assert(dx * dx <= 4_000_000_000_000 && dy * dy <= 4_000_000_000_000 && dx * dx >= 0 && dy * dy
        >= 0) by (nonlinear_arith)
        requires
            -2_000_000 <= dx <= 2_000_000,
            -2_000_000 <= dy <= 2_000_000,
    ;
    (dx * dx + dy * dy) as u64
}

/// Kernel parts that can be cleared between runs.
pub trait Reset {
    fn reset(&mut self);
}

} // verus!
