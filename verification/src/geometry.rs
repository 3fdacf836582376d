//! Integer grid geometry: points, room rectangles and squared distances.

use vstd::prelude::*;

verus! {

/// Width of the tile grid.
pub const SCREEN_WIDTH: i32 = 80;

/// Height of the tile grid.
pub const SCREEN_HEIGHT: i32 = 50;

/// Number of tiles in the grid.
pub const NUM_TILES: usize = 4000;

/// A position on the grid, or a displacement between two positions.
#[derive(Clone, Copy, Debug, PartialEq, Eq, Structural, Hash)]
pub struct Point {
    pub x: i32,
    pub y: i32,
}

/// Whether `p` lies on the grid.
pub open spec fn in_grid(p: Point) -> bool {
    0 <= p.x < SCREEN_WIDTH && 0 <= p.y < SCREEN_HEIGHT
}

/// Square of the Euclidean distance between two points.
pub open spec fn distance_sq(a: Point, b: Point) -> int {
    (a.x - b.x) * (a.x - b.x) + (a.y - b.y) * (a.y - b.y)
}

impl Point {
    /// The point in column `x` of row `y`.
    pub fn new(x: i32, y: i32) -> (p: Point)
        ensures
            p.x == x,
            p.y == y,
    {
        Point { x, y }
    }

    /// The first tile of the grid; as a displacement, no step at all.
    pub fn zero() -> (p: Point)
        ensures
            p.x == 0,
            p.y == 0,
    {
        Point { x: 0, y: 0 }
    }
}

/// Squared Euclidean distance between two grid points.
pub fn grid_distance_sq(a: Point, b: Point) -> (d: i32)
    requires
        in_grid(a),
        in_grid(b),
    ensures
        d == distance_sq(a, b),
        0 <= d <= 8642,
{
    let dx: i32 = a.x - b.x;
    let dy: i32 = a.y - b.y;
    assert(-79 <= dx <= 79 && -49 <= dy <= 49);
    assert(dx * dx <= 6241) by (nonlinear_arith)
        requires
            -79 <= dx <= 79,
    ;
    assert(dy * dy <= 2401) by (nonlinear_arith)
        requires
            -49 <= dy <= 49,
    ;
    assert(dx * dx >= 0 && dy * dy >= 0) by (nonlinear_arith);
    dx * dx + dy * dy
}

/// Half of `sum`, rounded toward zero.
pub open spec fn half(sum: int) -> int {
    if sum >= 0 {
        sum / 2
    } else {
        -((-sum) / 2)
    }
}

/// The value halfway between `a` and `b`, rounded toward zero.
pub fn midpoint(a: i32, b: i32) -> (m: i32)
    ensures
        m == half(a + b),
{
    let sum: i64 = a as i64 + b as i64;
    if sum >= 0 {
        (sum / 2) as i32
    } else {
        (-((-sum) / 2)) as i32
    }
}

/// An axis-aligned rectangle covering `x1 <= x < x2`, `y1 <= y < y2`.
#[derive(Clone, Copy, Debug, PartialEq, Eq, Structural)]
pub struct Rect {
    pub x1: i32,
    pub x2: i32,
    pub y1: i32,
    pub y2: i32,
}

impl Rect {
    /// Whether `p` lies in the rectangle's interior.
    pub open spec fn contains(self, p: Point) -> bool {
        self.x1 <= p.x < self.x2 && self.y1 <= p.y < self.y2
    }

    /// Whether the two rectangles touch or overlap, borders included.
    pub open spec fn overlaps(self, other: Rect) -> bool {
        self.x1 <= other.x2 && self.x2 >= other.x1 && self.y1 <= other.y2 && self.y2 >= other.y1
    }

    /// Whether every interior point stays off the outermost ring of the grid.
    pub open spec fn inside_border(self) -> bool {
        forall|p: Point| #[trigger] self.contains(p) ==> 1 <= p.x < SCREEN_WIDTH - 1 && 1 <= p.y
            < SCREEN_HEIGHT - 1
    }

    /// The midpoint, each coordinate rounded toward zero.
    pub open spec fn spec_center(self) -> Point {
        Point { x: half(self.x1 + self.x2) as i32, y: half(self.y1 + self.y2) as i32 }
    }

    /// A rectangle from its first corner and its extent.
    pub fn with_size(x: i32, y: i32, w: i32, h: i32) -> (r: Rect)
        requires
            i32::MIN <= x + w <= i32::MAX,
            i32::MIN <= y + h <= i32::MAX,
        ensures
            r == (Rect { x1: x, x2: (x + w) as i32, y1: y, y2: (y + h) as i32 }),
    {
        Rect { x1: x, x2: x + w, y1: y, y2: y + h }
    }

    /// Whether the two rectangles touch or overlap.
    pub fn intersect(&self, other: &Rect) -> (b: bool)
        ensures
            b == self.overlaps(*other),
    {
        self.x1 <= other.x2 && self.x2 >= other.x1 && self.y1 <= other.y2 && self.y2 >= other.y1
    }

    /// The midpoint.
    pub fn center(&self) -> (c: Point)
        ensures
            c == self.spec_center(),
    {
        Point { x: midpoint(self.x1, self.x2), y: midpoint(self.y1, self.y2) }
    }

    /// Whether `point` lies in the interior.
    pub fn point_in_rect(&self, point: Point) -> (b: bool)
        ensures
            b == self.contains(point),
    {
        point.x >= self.x1 && point.x < self.x2 && point.y >= self.y1 && point.y < self.y2
    }
}

} // verus!
