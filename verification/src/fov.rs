//! Field of view: the tiles within a radius of an eye that a straight line
//! from the eye reaches without crossing a wall.

use vstd::prelude::*;
use vstd::arithmetic::div_mod::lemma_hoist_over_denominator;
use crate::geometry::{distance_sq, grid_distance_sq, in_grid, NUM_TILES, Point};
use crate::map::{index_to_point, spec_map_idx, TileMap, TileType};

verus! {

/// The number of steps of the line from `a` to `b`: the larger of the two
/// coordinate differences.
pub open spec fn line_steps(a: Point, b: Point) -> int {
    let dx = if b.x >= a.x {
        b.x - a.x
    } else {
        a.x - b.x
    };
    let dy = if b.y >= a.y {
        b.y - a.y
    } else {
        a.y - b.y
    };
    if dx >= dy {
        dx
    } else {
        dy
    }
}

/// The coordinate `s` steps along a line of `n` steps that starts at `a`
/// and covers the difference `d`: the exact value rounded to the nearest
/// integer, halves upward.
pub open spec fn interpolated(a: int, d: int, s: int, n: int) -> int {
    a + (2 * s * d + n) / (2 * n)
}

/// The point `s` steps along the line from `a` to `b`.
pub open spec fn line_point(a: Point, b: Point, s: int) -> Point {
    let n = line_steps(a, b);
    Point {
        x: interpolated(a.x as int, b.x - a.x, s, n) as i32,
        y: interpolated(a.y as int, b.y - a.y, s, n) as i32,
    }
}

/// Whether sight passes through the tile at `p`.
pub open spec fn transparent(tiles: Seq<TileType>, p: Point) -> bool {
    in_grid(p) && tiles[spec_map_idx(p.x as int, p.y as int)] == TileType::Floor
}

/// Whether every tile strictly between `a` and `b` on the line from `a` to
/// `b` lets sight pass.
pub open spec fn clear_line(tiles: Seq<TileType>, a: Point, b: Point) -> bool {
    forall|s: int| 0 < s < line_steps(a, b) ==> transparent(tiles, #[trigger] line_point(a, b, s))
}

/// Whether `b` lies within the Euclidean distance `radius` of `a`.
pub open spec fn within_radius(a: Point, b: Point, radius: int) -> bool {
    radius >= 0 && distance_sq(a, b) <= radius * radius
}

/// Whether an eye at `eye` with sight of `radius` sees the tile at `p`. A
/// wall is seen where the line first strikes it, and hides what lies
/// behind.
pub open spec fn sees(tiles: Seq<TileType>, eye: Point, radius: int, p: Point) -> bool {
    in_grid(p) && within_radius(eye, p, radius) && clear_line(tiles, eye, p)
}

/// The coordinate `s` steps along a line of `n` steps.
fn interpolate(a: i32, d: i32, s: i32, n: i32) -> (r: i32)
    requires
        0 <= a < 80,
        -79 <= d <= 79,
        1 <= n <= 79,
        0 <= s <= n,
    ensures
        r == interpolated(a as int, d as int, s as int, n as int),
{
    assert(-79 * n <= s * d <= 79 * n) by (nonlinear_arith)
        requires
            -79 <= d <= 79,
            0 <= s <= n,
    ;
    let sd: i32 = s * d;
    let shifted: i32 = 2 * sd + n + 160 * n;
    let q: i32 = shifted / (2 * n);
    proof {
        lemma_hoist_over_denominator(2 * s * d + n, 80, (2 * n) as nat);
        assert(2 * s * d == 2 * (s * d)) by (nonlinear_arith);
        assert(80 * (2 * n) == 160 * n);
        assert(0 <= q <= shifted) by (nonlinear_arith)
            requires
                q == (shifted as int) / (2 * n),
                shifted >= 0,
                n >= 1,
        ;
    }
    a + q - 80
}

/// Whether every tile strictly between `eye` and `target` lets sight pass.
pub fn line_of_sight(map: &TileMap, eye: Point, target: Point) -> (b: bool)
    requires
        map.wf(),
        in_grid(eye),
        in_grid(target),
    ensures
        b == clear_line(map.tiles@, eye, target),
{
    let dx: i32 = target.x - eye.x;
    let dy: i32 = target.y - eye.y;
    let ax: i32 = if dx >= 0 {
        dx
    } else {
        -dx
    };
    let ay: i32 = if dy >= 0 {
        dy
    } else {
        -dy
    };
    let n: i32 = if ax >= ay {
        ax
    } else {
        ay
    };
    assert(n == line_steps(eye, target));
    let mut s: i32 = 1;
    while s < n
        invariant
            map.wf(),
            in_grid(eye),
            in_grid(target),
            dx == target.x - eye.x,
            dy == target.y - eye.y,
            n == line_steps(eye, target),
            0 <= n <= 79,
            1 <= s,
            s <= n || n == 0,
            forall|t: int| 0 < t < s
                ==> transparent(map.tiles@, #[trigger] line_point(eye, target, t)),
        decreases n - s,
    {
        let p: Point = Point {
            x: interpolate(eye.x, dx, s, n),
            y: interpolate(eye.y, dy, s, n),
        };
        assert(p == line_point(eye, target, s as int));
        if !map.can_enter_tile(p) {
            return false;
        }
        s += 1;
    }
    true
}

/// Whether the points stand in the order of their tile indices.
pub open spec fn in_index_order(points: Seq<Point>) -> bool {
    forall|i: int, j: int|
        0 <= i < j < points.len() ==> spec_map_idx(
            (#[trigger] points[i]).x as int,
            points[i].y as int,
        ) < spec_map_idx((#[trigger] points[j]).x as int, points[j].y as int)
}

/// The tiles that an eye at `eye` with sight of `radius` sees, in index
/// order; each tile seen is listed once, and no other tile is listed.
pub fn field_of_view_set(eye: Point, radius: i32, map: &TileMap) -> (visible: Vec<Point>)
    requires
        map.wf(),
        in_grid(eye),
    ensures
        forall|p: Point| visible@.contains(p) <==> sees(map.tiles@, eye, radius as int, p),
        forall|j: int| 0 <= j < visible@.len() ==> in_grid(#[trigger] visible@[j]),
        in_index_order(visible@),
        visible@.no_duplicates(),
{
    let mut visible: Vec<Point> = Vec::new();
    if radius < 0 {
        assert forall|p: Point| visible@.contains(p) <==> sees(
            map.tiles@,
            eye,
            radius as int,
            p,
        ) by {}
        return visible;
    }
    // no two tiles of the grid are farther apart than 93
    assert(radius > 93 ==> radius * radius >= 8649) by (nonlinear_arith);
    assert(radius <= 93 ==> 0 <= radius * radius <= 8649) by (nonlinear_arith)
        requires
            radius >= 0,
    ;
    let limit: i32 = if radius > 93 {
        8649
    } else {
        radius * radius
    };
    let mut idx: usize = 0;
    while idx < NUM_TILES
        invariant
            map.wf(),
            in_grid(eye),
            radius >= 0,
            idx <= NUM_TILES,
            limit <= radius * radius,
            limit >= 8649 || limit == radius * radius,
            forall|j: int|
                0 <= j < visible@.len() ==> in_grid(#[trigger] visible@[j]) && spec_map_idx(
                    visible@[j].x as int,
                    visible@[j].y as int,
                ) < idx && sees(map.tiles@, eye, radius as int, visible@[j]),
            forall|p: Point|
                in_grid(p) && spec_map_idx(p.x as int, p.y as int) < idx && sees(
                    map.tiles@,
                    eye,
                    radius as int,
                    p,
                ) ==> visible@.contains(p),
            in_index_order(visible@),
            visible@.no_duplicates(),
        decreases NUM_TILES - idx,
    {
        let p: Point = index_to_point(idx);
        let ghost before = visible@;
        if grid_distance_sq(eye, p) <= limit && line_of_sight(map, eye, p) {
            visible.push(p);
            proof {
                assert(visible@[before.len() as int] == p);
                assert forall|q: Point|
                    in_grid(q) && spec_map_idx(q.x as int, q.y as int) < idx + 1 && sees(
                        map.tiles@,
                        eye,
                        radius as int,
                        q,
                    ) implies visible@.contains(q) by {
                    if spec_map_idx(q.x as int, q.y as int) < idx {
                        let j = choose|j: int| 0 <= j < before.len() && before[j] == q;
                        assert(visible@[j] == q);
                    } else {
                        assert(q == p);
                    }
                }
            }
        } else {
            proof {
                assert forall|q: Point|
                    in_grid(q) && spec_map_idx(q.x as int, q.y as int) < idx + 1 && sees(
                        map.tiles@,
                        eye,
                        radius as int,
                        q,
                    ) implies visible@.contains(q) by {
                    if spec_map_idx(q.x as int, q.y as int) == idx {
                        assert(q == p);
                    }
                }
            }
        }
        idx += 1;
    }
    assert forall|p: Point| visible@.contains(p) <==> sees(map.tiles@, eye, radius as int, p) by {
        if visible@.contains(p) {
            let j = choose|j: int| 0 <= j < visible@.len() && visible@[j] == p;
            assert(in_grid(visible@[j]));
        }
    }
    visible
}

} // verus!
