//! Why a layout of rooms and corridors hangs together: walks along rows
//! and columns of floor, through rooms and along corridors.

use vstd::prelude::*;
use crate::geometry::{in_grid, NUM_TILES, Point, Rect};
use crate::map::{spec_index_to_point, spec_map_idx, TileType};
use crate::map_builder::rooms::{
    carved,
    greater,
    in_some_room,
    lesser,
    ordered_by_center,
    rooms_inside,
    rooms_joined,
    rooms_solid,
    solid,
    with_corridor,
    with_corridors,
};
use crate::pathfinding::{
    connected_from,
    lemma_within_monotonic,
    lemma_within_step,
    MAX_DEPTH,
    neighbor,
    within,
};

verus! {

/// Whether the tile in column `x` of row `y` is a floor tile of the grid.
pub open spec fn floor_xy(tiles: Seq<TileType>, x: int, y: int) -> bool {
    0 <= x < 80 && 0 <= y < 50 && tiles[spec_map_idx(x, y)] == TileType::Floor
}

/// The distance between two numbers.
pub open spec fn gap(a: int, b: int) -> int {
    if a >= b {
        a - b
    } else {
        b - a
    }
}

/// Whether every tile of row `y` between the columns `x0` and `x1` is
/// floor.
pub open spec fn row_is_floor(tiles: Seq<TileType>, y: int, x0: int, x1: int) -> bool {
    forall|x: int| lesser(x0, x1) <= x <= greater(x0, x1) ==> #[trigger] floor_xy(tiles, x, y)
}

/// Whether every tile of column `x` between the rows `y0` and `y1` is
/// floor.
pub open spec fn column_is_floor(tiles: Seq<TileType>, x: int, y0: int, y1: int) -> bool {
    forall|y: int| lesser(y0, y1) <= y <= greater(y0, y1) ==> #[trigger] floor_xy(tiles, x, y)
}

/// A walk goes on along a row of floor.
pub proof fn lemma_walk_along_row(
    tiles: Seq<TileType>,
    goals: Seq<usize>,
    k: nat,
    y: int,
    x0: int,
    x1: int,
)
    requires
        tiles.len() == NUM_TILES,
        row_is_floor(tiles, y, x0, x1),
        within(tiles, goals, k, spec_map_idx(x0, y)),
    ensures
        within(tiles, goals, (k + gap(x0, x1)) as nat, spec_map_idx(x1, y)),
    decreases gap(x0, x1),
{
    if x0 != x1 {
        let before = if x1 > x0 {
            x1 - 1
        } else {
            x1 + 1
        };
        assert(floor_xy(tiles, x0, y));
        assert(floor_xy(tiles, x1, y));
        assert(floor_xy(tiles, before, y));
        assert forall|x: int| lesser(x0, before) <= x <= greater(x0, before)
            implies #[trigger] floor_xy(
            tiles,
            x,
            y,
        ) by {
            assert(lesser(x0, x1) <= x <= greater(x0, x1));
        }
        lemma_walk_along_row(tiles, goals, k, y, x0, before);
        let dir = if x1 > x0 {
            1int
        } else {
            0int
        };
        assert(neighbor(spec_map_idx(before, y), dir) == Some(spec_map_idx(x1, y)));
        lemma_within_step(
            tiles,
            goals,
            (k + gap(x0, before)) as nat,
            spec_map_idx(before, y),
            dir,
            spec_map_idx(x1, y),
        );
    }
}

/// A walk goes on along a column of floor.
pub proof fn lemma_walk_along_column(
    tiles: Seq<TileType>,
    goals: Seq<usize>,
    k: nat,
    x: int,
    y0: int,
    y1: int,
)
    requires
        tiles.len() == NUM_TILES,
        column_is_floor(tiles, x, y0, y1),
        within(tiles, goals, k, spec_map_idx(x, y0)),
    ensures
        within(tiles, goals, (k + gap(y0, y1)) as nat, spec_map_idx(x, y1)),
    decreases gap(y0, y1),
{
    if y0 != y1 {
        let before = if y1 > y0 {
            y1 - 1
        } else {
            y1 + 1
        };
        assert(floor_xy(tiles, x, y0));
        assert(floor_xy(tiles, x, y1));
        assert(floor_xy(tiles, x, before));
        assert forall|y: int| lesser(y0, before) <= y <= greater(y0, before)
            implies #[trigger] floor_xy(
            tiles,
            x,
            y,
        ) by {
            assert(lesser(y0, y1) <= y <= greater(y0, y1));
        }
        lemma_walk_along_column(tiles, goals, k, x, y0, before);
        let dir = if y1 > y0 {
            3int
        } else {
            2int
        };
        assert(neighbor(spec_map_idx(x, before), dir) == Some(spec_map_idx(x, y1)));
        lemma_within_step(
            tiles,
            goals,
            (k + gap(y0, before)) as nat,
            spec_map_idx(x, before),
            dir,
            spec_map_idx(x, y1),
        );
    }
}

/// A walk goes on along a row of floor and then along a column of floor.
pub proof fn lemma_walk_row_then_column(
    tiles: Seq<TileType>,
    goals: Seq<usize>,
    k: nat,
    x0: int,
    y0: int,
    x1: int,
    y1: int,
)
    requires
        tiles.len() == NUM_TILES,
        row_is_floor(tiles, y0, x0, x1),
        column_is_floor(tiles, x1, y0, y1),
        within(tiles, goals, k, spec_map_idx(x0, y0)),
    ensures
        within(tiles, goals, (k + gap(x0, x1) + gap(y0, y1)) as nat, spec_map_idx(x1, y1)),
{
    lemma_walk_along_row(tiles, goals, k, y0, x0, x1);
    lemma_walk_along_column(tiles, goals, (k + gap(x0, x1)) as nat, x1, y0, y1);
}

/// A walk goes on along a column of floor and then along a row of floor.
pub proof fn lemma_walk_column_then_row(
    tiles: Seq<TileType>,
    goals: Seq<usize>,
    k: nat,
    x0: int,
    y0: int,
    x1: int,
    y1: int,
)
    requires
        tiles.len() == NUM_TILES,
        column_is_floor(tiles, x0, y0, y1),
        row_is_floor(tiles, y1, x0, x1),
        within(tiles, goals, k, spec_map_idx(x0, y0)),
    ensures
        within(tiles, goals, (k + gap(x0, x1) + gap(y0, y1)) as nat, spec_map_idx(x1, y1)),
{
    lemma_walk_along_column(tiles, goals, k, x0, y0, y1);
    lemma_walk_along_row(tiles, goals, (k + gap(y0, y1)) as nat, y1, x0, x1);
}

/// Whether `v` lies between `a` and `b`, both included, whichever is the
/// smaller.
pub open spec fn between(a: int, b: int, v: int) -> bool {
    lesser(a, b) <= v <= greater(a, b)
}

/// Whether the tile in column `x` of row `y` lies on the L-shaped corridor
/// from `from` to `to`.
pub open spec fn on_corridor(from: Point, to: Point, row_first: bool, x: int, y: int) -> bool {
    if row_first {
        (y == from.y && between(from.x as int, to.x as int, x)) || (x == to.x && between(
            from.y as int,
            to.y as int,
            y,
        ))
    } else {
        (x == from.x && between(from.y as int, to.y as int, y)) || (y == to.y && between(
            from.x as int,
            to.x as int,
            x,
        ))
    }
}

/// Whether the tile lies on the corridor between the rooms `i` and `i + 1`
/// of `sorted`.
pub open spec fn on_nth_corridor(sorted: Seq<Rect>, flips: Seq<bool>, i: int, x: int, y: int) -> bool {
    on_corridor(sorted[i].spec_center(), sorted[i + 1].spec_center(), flips[i], x, y)
}

/// Whether the tile lies on one of the first `n` corridors.
pub open spec fn on_some_corridor(sorted: Seq<Rect>, flips: Seq<bool>, n: int, x: int, y: int) -> bool {
    exists|i: int| 0 <= i < n && #[trigger] on_nth_corridor(sorted, flips, i, x, y)
}

/// A corridor turns exactly its own tiles into floor.
pub proof fn lemma_corridor_tiles(
    tiles: Seq<TileType>,
    from: Point,
    to: Point,
    row_first: bool,
    t: int,
)
    requires
        tiles.len() == NUM_TILES,
        0 <= t < NUM_TILES,
    ensures
        with_corridor(tiles, from, to, row_first).len() == NUM_TILES,
        with_corridor(tiles, from, to, row_first)[t] == TileType::Floor <==> tiles[t]
            == TileType::Floor || on_corridor(from, to, row_first, t % 80, t / 80),
{
}

/// The corridors turn exactly their own tiles into floor.
pub proof fn lemma_corridors_tiles(
    base: Seq<TileType>,
    sorted: Seq<Rect>,
    flips: Seq<bool>,
    n: int,
    t: int,
)
    requires
        base.len() == NUM_TILES,
        0 <= t < NUM_TILES,
    ensures
        with_corridors(base, sorted, flips, n).len() == NUM_TILES,
        with_corridors(base, sorted, flips, n)[t] == TileType::Floor <==> base[t]
            == TileType::Floor || on_some_corridor(sorted, flips, n, t % 80, t / 80),
    decreases n,
{
    if n > 0 {
        lemma_corridors_tiles(base, sorted, flips, n - 1, t);
        let earlier = with_corridors(base, sorted, flips, n - 1);
        lemma_corridor_tiles(
            earlier,
            sorted[n - 1].spec_center(),
            sorted[n].spec_center(),
            flips[n - 1],
            t,
        );
        let x = t % 80;
        let y = t / 80;
        if on_some_corridor(sorted, flips, n, x, y) {
            let i = choose|i: int| 0 <= i < n && #[trigger] on_nth_corridor(sorted, flips, i, x, y);
            if i < n - 1 {
                assert(on_some_corridor(sorted, flips, n - 1, x, y));
            }
        }
        if on_some_corridor(sorted, flips, n - 1, x, y) {
            let i = choose|i: int|
                0 <= i < n - 1 && #[trigger] on_nth_corridor(sorted, flips, i, x, y);
            assert(0 <= i < n);
        }
        if on_nth_corridor(sorted, flips, n - 1, x, y) {
            assert(on_some_corridor(sorted, flips, n, x, y));
        }
    }
}

/// Whether all tiles of the corridor from `from` to `to` are floor.
pub open spec fn corridor_is_floor(tiles: Seq<TileType>, from: Point, to: Point, row_first: bool) -> bool {
    forall|x: int, y: int| #[trigger]
        on_corridor(from, to, row_first, x, y) ==> floor_xy(tiles, x, y)
}

/// From either end of a corridor of floor a walk reaches every tile of the
/// corridor in no more steps than the corridor is long.
pub proof fn lemma_walk_along_corridor(
    tiles: Seq<TileType>,
    goals: Seq<usize>,
    k: nat,
    from: Point,
    to: Point,
    row_first: bool,
    forward: bool,
    x: int,
    y: int,
)
    requires
        tiles.len() == NUM_TILES,
        corridor_is_floor(tiles, from, to, row_first),
        on_corridor(from, to, row_first, x, y),
        within(
            tiles,
            goals,
            k,
            if forward {
                spec_map_idx(from.x as int, from.y as int)
            } else {
                spec_map_idx(to.x as int, to.y as int)
            },
        ),
    ensures
        within(
            tiles,
            goals,
            (k + gap(from.x as int, to.x as int) + gap(from.y as int, to.y as int)) as nat,
            spec_map_idx(x, y),
        ),
{
    let fx = from.x as int;
    let fy = from.y as int;
    let tx = to.x as int;
    let ty = to.y as int;
    let total = (k + gap(fx, tx) + gap(fy, ty)) as nat;
    // the legs of the corridor, as rows and columns of floor
    if row_first {
        assert forall|c: int| between(fx, tx, c) implies #[trigger] floor_xy(tiles, c, fy) by {
            assert(on_corridor(from, to, row_first, c, fy));
        }
        assert forall|r: int| between(fy, ty, r) implies #[trigger] floor_xy(tiles, tx, r) by {
            assert(on_corridor(from, to, row_first, tx, r));
        }
        if forward {
            if y == fy && between(fx, tx, x) {
                lemma_walk_along_row(tiles, goals, k, fy, fx, x);
                lemma_within_monotonic(tiles, goals, (k + gap(fx, x)) as nat, total, spec_map_idx(x, y));
            } else {
                lemma_walk_row_then_column(tiles, goals, k, fx, fy, tx, y);
                lemma_within_monotonic(
                    tiles,
                    goals,
                    (k + gap(fx, tx) + gap(fy, y)) as nat,
                    total,
                    spec_map_idx(x, y),
                );
            }
        } else {
            if x == tx && between(fy, ty, y) {
                lemma_walk_along_column(tiles, goals, k, tx, ty, y);
                lemma_within_monotonic(tiles, goals, (k + gap(ty, y)) as nat, total, spec_map_idx(x, y));
            } else {
                lemma_walk_column_then_row(tiles, goals, k, tx, ty, x, fy);
                lemma_within_monotonic(
                    tiles,
                    goals,
                    (k + gap(tx, x) + gap(ty, fy)) as nat,
                    total,
                    spec_map_idx(x, y),
                );
            }
        }
    } else {
        assert forall|r: int| between(fy, ty, r) implies #[trigger] floor_xy(tiles, fx, r) by {
            assert(on_corridor(from, to, row_first, fx, r));
        }
        assert forall|c: int| between(fx, tx, c) implies #[trigger] floor_xy(tiles, c, ty) by {
            assert(on_corridor(from, to, row_first, c, ty));
        }
        if forward {
            if x == fx && between(fy, ty, y) {
                lemma_walk_along_column(tiles, goals, k, fx, fy, y);
                lemma_within_monotonic(tiles, goals, (k + gap(fy, y)) as nat, total, spec_map_idx(x, y));
            } else {
                lemma_walk_column_then_row(tiles, goals, k, fx, fy, x, ty);
                lemma_within_monotonic(
                    tiles,
                    goals,
                    (k + gap(fx, x) + gap(fy, ty)) as nat,
                    total,
                    spec_map_idx(x, y),
                );
            }
        } else {
            if y == ty && between(fx, tx, x) {
                lemma_walk_along_row(tiles, goals, k, ty, tx, x);
                lemma_within_monotonic(tiles, goals, (k + gap(tx, x)) as nat, total, spec_map_idx(x, y));
            } else {
                lemma_walk_row_then_column(tiles, goals, k, tx, ty, fx, y);
                lemma_within_monotonic(
                    tiles,
                    goals,
                    (k + gap(tx, fx) + gap(ty, y)) as nat,
                    total,
                    spec_map_idx(x, y),
                );
            }
        }
    }
}

/// The centre of a room that keeps off the border and is of a solid size
/// lies inside the room, and well inside the grid.
pub proof fn lemma_center_inside(room: Rect)
    requires
        room.inside_border(),
        solid(room),
    ensures
        room.contains(room.spec_center()),
        1 <= room.x1 && room.x2 <= 79 && 1 <= room.y1 && room.y2 <= 49,
        2 <= room.spec_center().x <= 78,
        2 <= room.spec_center().y <= 48,
{
    assert(room.contains(Point { x: room.x1, y: room.y1 }));
    assert(room.contains(Point { x: (room.x2 - 1) as i32, y: (room.y2 - 1) as i32 }));
}

/// Whether all tiles inside the room are floor.
pub open spec fn room_is_floor(tiles: Seq<TileType>, room: Rect) -> bool {
    forall|x: int, y: int|
        room.x1 <= x < room.x2 && room.y1 <= y < room.y2 ==> #[trigger] floor_xy(tiles, x, y)
}

/// From the centre of a room of floor a walk reaches every tile of the
/// room in at most sixteen steps.
pub proof fn lemma_walk_through_room(
    tiles: Seq<TileType>,
    goals: Seq<usize>,
    k: nat,
    room: Rect,
    x: int,
    y: int,
)
    requires
        tiles.len() == NUM_TILES,
        room.inside_border(),
        solid(room),
        room_is_floor(tiles, room),
        room.x1 <= x < room.x2,
        room.y1 <= y < room.y2,
        within(
            tiles,
            goals,
            k,
            spec_map_idx(room.spec_center().x as int, room.spec_center().y as int),
        ),
    ensures
        within(tiles, goals, k + 16, spec_map_idx(x, y)),
{
    lemma_center_inside(room);
    let cx = room.spec_center().x as int;
    let cy = room.spec_center().y as int;
    lemma_walk_row_then_column(tiles, goals, k, cx, cy, x, y);
    lemma_within_monotonic(
        tiles,
        goals,
        (k + gap(cx, x) + gap(cy, y)) as nat,
        k + 16,
        spec_map_idx(x, y),
    );
}

/// The column of the centre of room `j`.
pub open spec fn center_column(sorted: Seq<Rect>, j: int) -> int {
    sorted[j].spec_center().x as int
}

/// The row of the centre of room `j`.
pub open spec fn center_row(sorted: Seq<Rect>, j: int) -> int {
    sorted[j].spec_center().y as int
}

/// The tile index of the centre of room `j`.
pub open spec fn center_index(sorted: Seq<Rect>, j: int) -> int {
    spec_map_idx(center_column(sorted, j), center_row(sorted, j))
}

/// A number of steps in which a walk from the centre of room `s` reaches
/// the centre of room `j`: the columns between the two, and at most 47 rows
/// for each corridor on the way.
pub open spec fn reach_bound(sorted: Seq<Rect>, s: int, j: int) -> int {
    gap(center_column(sorted, j), center_column(sorted, s)) + 47 * gap(j, s)
}

/// Whether the tiles hold, as floor, the rooms of `sorted` and the
/// corridors between neighbours among them, and the rooms are at most
/// twenty, of a solid size, off the border and in the order of their
/// centres.
pub open spec fn joined_floor(tiles: Seq<TileType>, sorted: Seq<Rect>, flips: Seq<bool>) -> bool {
    &&& tiles.len() == NUM_TILES
    &&& 1 <= sorted.len() <= 20
    &&& flips.len() + 1 >= sorted.len()
    &&& ordered_by_center(sorted)
    &&& forall|j: int|
        0 <= j < sorted.len() ==> (#[trigger] sorted[j]).inside_border() && solid(sorted[j])
            && room_is_floor(tiles, sorted[j])
    &&& forall|i: int|
        0 <= i < sorted.len() - 1 ==> corridor_is_floor(
            tiles,
            (#[trigger] sorted[i]).spec_center(),
            sorted[i + 1].spec_center(),
            flips[i],
        )
}

/// Along the chain of corridors a walk from the centre of room `s` reaches
/// the centre of every room.
pub proof fn lemma_walk_to_center(
    tiles: Seq<TileType>,
    sorted: Seq<Rect>,
    flips: Seq<bool>,
    s: int,
    j: int,
)
    requires
        joined_floor(tiles, sorted, flips),
        0 <= s < sorted.len(),
        0 <= j < sorted.len(),
    ensures
        within(
            tiles,
            seq![center_index(sorted, s) as usize],
            reach_bound(sorted, s, j) as nat,
            center_index(sorted, j),
        ),
        0 <= reach_bound(sorted, s, j) <= 969,
    decreases gap(j, s),
{
    let goals = seq![center_index(sorted, s) as usize];
    lemma_center_inside(sorted[s]);
    lemma_center_inside(sorted[j]);
    assert(47 * gap(j, s) <= 893) by (nonlinear_arith)
        requires
            0 <= gap(j, s) <= 19,
    ;
    assert(47 * gap(j, s) >= 0) by (nonlinear_arith)
        requires
            0 <= gap(j, s),
    ;
    if j == s {
        assert(goals[0] == center_index(sorted, s) as usize);
    } else if j > s {
        lemma_walk_to_center(tiles, sorted, flips, s, j - 1);
        lemma_center_inside(sorted[j - 1]);
        let from = sorted[j - 1].spec_center();
        let to = sorted[j].spec_center();
        assert(corridor_is_floor(tiles, sorted[j - 1].spec_center(), sorted[j - 1 + 1].spec_center(), flips[j - 1]));
        assert(sorted[s].spec_center().x <= sorted[j - 1].spec_center().x || s == j - 1);
        assert(sorted[j - 1].spec_center().x <= sorted[j].spec_center().x);
        lemma_walk_along_corridor(
            tiles,
            goals,
            reach_bound(sorted, s, j - 1) as nat,
            from,
            to,
            flips[j - 1],
            true,
            to.x as int,
            to.y as int,
        );
        assert(47 * gap(j, s) == 47 * gap(j - 1, s) + 47) by (nonlinear_arith)
            requires
                gap(j, s) == gap(j - 1, s) + 1,
        ;
        lemma_within_monotonic(
            tiles,
            goals,
            (reach_bound(sorted, s, j - 1) + gap(from.x as int, to.x as int) + gap(
                from.y as int,
                to.y as int,
            )) as nat,
            reach_bound(sorted, s, j) as nat,
            center_index(sorted, j),
        );
    } else {
        lemma_walk_to_center(tiles, sorted, flips, s, j + 1);
        lemma_center_inside(sorted[j + 1]);
        let from = sorted[j].spec_center();
        let to = sorted[j + 1].spec_center();
        assert(corridor_is_floor(tiles, sorted[j].spec_center(), sorted[j + 1].spec_center(), flips[j]));
        assert(sorted[j + 1].spec_center().x <= sorted[s].spec_center().x || s == j + 1);
        assert(sorted[j].spec_center().x <= sorted[j + 1].spec_center().x);
        lemma_walk_along_corridor(
            tiles,
            goals,
            reach_bound(sorted, s, j + 1) as nat,
            from,
            to,
            flips[j],
            false,
            from.x as int,
            from.y as int,
        );
        assert(47 * gap(j, s) == 47 * gap(j + 1, s) + 47) by (nonlinear_arith)
            requires
                gap(j, s) == gap(j + 1, s) + 1,
        ;
        lemma_within_monotonic(
            tiles,
            goals,
            (reach_bound(sorted, s, j + 1) + gap(from.x as int, to.x as int) + gap(
                from.y as int,
                to.y as int,
            )) as nat,
            reach_bound(sorted, s, j) as nat,
            center_index(sorted, j),
        );
    }
}

/// A walk from the centre of room `s` reaches every tile of every corridor.
pub proof fn lemma_walk_to_corridor(
    tiles: Seq<TileType>,
    sorted: Seq<Rect>,
    flips: Seq<bool>,
    s: int,
    i: int,
    x: int,
    y: int,
)
    requires
        joined_floor(tiles, sorted, flips),
        0 <= s < sorted.len(),
        0 <= i < sorted.len() - 1,
        on_nth_corridor(sorted, flips, i, x, y),
    ensures
        within(
            tiles,
            seq![center_index(sorted, s) as usize],
            (MAX_DEPTH - 1) as nat,
            spec_map_idx(x, y),
        ),
{
    let goals = seq![center_index(sorted, s) as usize];
    let from = sorted[i].spec_center();
    let to = sorted[i + 1].spec_center();
    lemma_center_inside(sorted[i]);
    lemma_center_inside(sorted[i + 1]);
    lemma_center_inside(sorted[s]);
    assert(corridor_is_floor(tiles, sorted[i].spec_center(), sorted[i + 1].spec_center(), flips[i]));
    let forward = i >= s;
    let near = if forward {
        i
    } else {
        i + 1
    };
    lemma_walk_to_center(tiles, sorted, flips, s, near);
    lemma_walk_along_corridor(
        tiles,
        goals,
        reach_bound(sorted, s, near) as nat,
        from,
        to,
        flips[i],
        forward,
        x,
        y,
    );
    lemma_within_monotonic(
        tiles,
        goals,
        (reach_bound(sorted, s, near) + gap(from.x as int, to.x as int) + gap(
            from.y as int,
            to.y as int,
        )) as nat,
        (MAX_DEPTH - 1) as nat,
        spec_map_idx(x, y),
    );
}

/// A walk from the centre of room `s` reaches every tile of every room.
pub proof fn lemma_walk_to_room(
    tiles: Seq<TileType>,
    sorted: Seq<Rect>,
    flips: Seq<bool>,
    s: int,
    j: int,
    x: int,
    y: int,
)
    requires
        joined_floor(tiles, sorted, flips),
        0 <= s < sorted.len(),
        0 <= j < sorted.len(),
        sorted[j].x1 <= x < sorted[j].x2,
        sorted[j].y1 <= y < sorted[j].y2,
    ensures
        within(
            tiles,
            seq![center_index(sorted, s) as usize],
            (MAX_DEPTH - 1) as nat,
            spec_map_idx(x, y),
        ),
{
    let goals = seq![center_index(sorted, s) as usize];
    lemma_walk_to_center(tiles, sorted, flips, s, j);
    lemma_walk_through_room(tiles, goals, reach_bound(sorted, s, j) as nat, sorted[j], x, y);
    lemma_within_monotonic(
        tiles,
        goals,
        (reach_bound(sorted, s, j) + 16) as nat,
        (MAX_DEPTH - 1) as nat,
        spec_map_idx(x, y),
    );
}

/// Whether `sorted` holds the rooms of `rooms`, each as often, in the order
/// of their centres, and the tiles are the rooms carved out of solid rock
/// and joined by the corridors that `flips` shape.
pub open spec fn joined_as(
    tiles: Seq<TileType>,
    rooms: Seq<Rect>,
    sorted: Seq<Rect>,
    flips: Seq<bool>,
) -> bool {
    &&& sorted.to_multiset() == rooms.to_multiset()
    &&& ordered_by_center(sorted)
    &&& flips.len() + 1 >= sorted.len()
    &&& with_corridors(carved(rooms), sorted, flips, sorted.len() - 1) == tiles
}

/// Two lists that hold the same rooms, each as often, are of one length,
/// and every room of the one is a room of the other.
pub proof fn lemma_same_rooms(rooms: Seq<Rect>, sorted: Seq<Rect>)
    requires
        sorted.to_multiset() == rooms.to_multiset(),
    ensures
        sorted.len() == rooms.len(),
        forall|j: int| 0 <= j < sorted.len() ==> rooms.contains(#[trigger] sorted[j]),
        forall|i: int| 0 <= i < rooms.len() ==> sorted.contains(#[trigger] rooms[i]),
{
    sorted.to_multiset_ensures();
    rooms.to_multiset_ensures();
    assert forall|j: int| 0 <= j < sorted.len() implies rooms.contains(#[trigger] sorted[j]) by {
        assert(sorted.contains(sorted[j]));
        assert(sorted.to_multiset().count(sorted[j]) > 0);
    }
    assert forall|i: int| 0 <= i < rooms.len() implies sorted.contains(#[trigger] rooms[i]) by {
        assert(rooms.contains(rooms[i]));
        assert(rooms.to_multiset().count(rooms[i]) > 0);
    }
}

/// The tiles of a room that was carved are floor after the corridors have
/// been dug.
pub proof fn lemma_room_stays_floor(
    tiles: Seq<TileType>,
    rooms: Seq<Rect>,
    sorted: Seq<Rect>,
    flips: Seq<bool>,
    room: Rect,
)
    requires
        joined_as(tiles, rooms, sorted, flips),
        rooms.contains(room),
        room.inside_border(),
        solid(room),
    ensures
        room_is_floor(tiles, room),
{
    lemma_center_inside(room);
    let base = carved(rooms);
    assert forall|x: int, y: int|
        room.x1 <= x < room.x2
            && room.y1 <= y < room.y2 implies #[trigger] floor_xy(tiles, x, y) by {
        let t = spec_map_idx(x, y);
        let p = Point { x: x as i32, y: y as i32 };
        assert(spec_index_to_point(t) == p);
        let i = choose|i: int| 0 <= i < rooms.len() && rooms[i] == room;
        assert(rooms[i].contains(p));
        assert(in_some_room(rooms, p));
        assert(base[t] == TileType::Floor);
        lemma_corridors_tiles(base, sorted, flips, sorted.len() - 1, t);
    }
}

/// The tiles of a corridor are floor after all corridors have been dug.
pub proof fn lemma_corridor_stays_floor(
    tiles: Seq<TileType>,
    rooms: Seq<Rect>,
    sorted: Seq<Rect>,
    flips: Seq<bool>,
    i: int,
)
    requires
        joined_as(tiles, rooms, sorted, flips),
        0 <= i < sorted.len() - 1,
        sorted[i].inside_border() && solid(sorted[i]),
        sorted[i + 1].inside_border() && solid(sorted[i + 1]),
    ensures
        corridor_is_floor(tiles, sorted[i].spec_center(), sorted[i + 1].spec_center(), flips[i]),
{
    lemma_center_inside(sorted[i]);
    lemma_center_inside(sorted[i + 1]);
    let base = carved(rooms);
    let from = sorted[i].spec_center();
    let to = sorted[i + 1].spec_center();
    assert forall|x: int, y: int| #[trigger]
        on_corridor(from, to, flips[i], x, y) implies floor_xy(tiles, x, y) by {
        let t = spec_map_idx(x, y);
        assert(0 <= x < 80 && 0 <= y < 50);
        assert(t % 80 == x && t / 80 == y);
        assert(on_nth_corridor(sorted, flips, i, x, y));
        assert(on_some_corridor(sorted, flips, sorted.len() - 1, x, y));
        lemma_corridors_tiles(base, sorted, flips, sorted.len() - 1, t);
    }
}

/// What has been carved and joined holds its rooms and corridors as floor.
pub proof fn lemma_joined_floor(
    tiles: Seq<TileType>,
    rooms: Seq<Rect>,
    sorted: Seq<Rect>,
    flips: Seq<bool>,
)
    requires
        1 <= rooms.len() <= 20,
        rooms_inside(rooms),
        rooms_solid(rooms),
        joined_as(tiles, rooms, sorted, flips),
    ensures
        joined_floor(tiles, sorted, flips),
{
    lemma_same_rooms(rooms, sorted);
    lemma_corridors_tiles(carved(rooms), sorted, flips, sorted.len() - 1, 0);
    assert forall|j: int| 0 <= j < sorted.len() implies (#[trigger] sorted[j]).inside_border()
        && solid(sorted[j]) && room_is_floor(tiles, sorted[j]) by {
        let i = choose|i: int| 0 <= i < rooms.len() && rooms[i] == sorted[j];
        assert(rooms[i].inside_border() && solid(rooms[i]));
        lemma_room_stays_floor(tiles, rooms, sorted, flips, sorted[j]);
    }
    assert forall|i: int| 0 <= i < sorted.len() - 1 implies corridor_is_floor(
        tiles,
        (#[trigger] sorted[i]).spec_center(),
        sorted[i + 1].spec_center(),
        flips[i],
    ) by {
        assert(sorted[i + 1].inside_border());
        lemma_corridor_stays_floor(tiles, rooms, sorted, flips, i);
    }
}

/// Every floor tile of what has been carved and joined lies in a room or
/// on a corridor, and a walk from the centre of room `s` reaches it.
pub proof fn lemma_floor_is_reached(
    tiles: Seq<TileType>,
    rooms: Seq<Rect>,
    sorted: Seq<Rect>,
    flips: Seq<bool>,
    s: int,
    t: int,
)
    requires
        joined_as(tiles, rooms, sorted, flips),
        joined_floor(tiles, sorted, flips),
        0 <= s < sorted.len(),
        0 <= t < NUM_TILES,
        tiles[t] == TileType::Floor,
    ensures
        within(tiles, seq![center_index(sorted, s) as usize], (MAX_DEPTH - 1) as nat, t),
{
    let x = t % 80;
    let y = t / 80;
    assert(spec_map_idx(x, y) == t);
    let base = carved(rooms);
    lemma_same_rooms(rooms, sorted);
    lemma_corridors_tiles(base, sorted, flips, sorted.len() - 1, t);
    if base[t] == TileType::Floor {
        let p = spec_index_to_point(t);
        assert(in_some_room(rooms, p));
        let i = choose|i: int| 0 <= i < rooms.len() && (#[trigger] rooms[i]).contains(p);
        assert(sorted.contains(rooms[i]));
        let j = choose|j: int| 0 <= j < sorted.len() && sorted[j] == rooms[i];
        lemma_walk_to_room(tiles, sorted, flips, s, j, x, y);
    } else {
        let i = choose|i: int|
            0 <= i < sorted.len() - 1 && #[trigger] on_nth_corridor(sorted, flips, i, x, y);
        lemma_walk_to_corridor(tiles, sorted, flips, s, i, x, y);
    }
}

/// Rooms joined by corridors hang together: where up to twenty rooms of a
/// solid size, off the border, have been carved out of solid rock and
/// joined in the order of their centres, a walk from the centre of the
/// first room reaches every floor tile.
pub proof fn lemma_rooms_connected(tiles: Seq<TileType>, rooms: Seq<Rect>)
    requires
        1 <= rooms.len() <= 20,
        rooms_inside(rooms),
        rooms_solid(rooms),
        rooms_joined(tiles, rooms),
    ensures
        connected_from(tiles, rooms[0].spec_center()),
{
    let (sorted, flips) = choose|sorted: Seq<Rect>, flips: Seq<bool>|
        sorted.to_multiset() == rooms.to_multiset() && ordered_by_center(sorted) && flips.len() + 1
            >= sorted.len() && #[trigger] with_corridors(
            carved(rooms),
            sorted,
            flips,
            sorted.len() - 1,
        ) == tiles;
    assert(joined_as(tiles, rooms, sorted, flips));
    lemma_same_rooms(rooms, sorted);
    lemma_joined_floor(tiles, rooms, sorted, flips);
    assert(sorted.contains(rooms[0]));
    let s = choose|s: int| 0 <= s < sorted.len() && sorted[s] == rooms[0];
    let start = rooms[0].spec_center();
    let goals = seq![spec_map_idx(start.x as int, start.y as int) as usize];
    assert(goals =~= seq![center_index(sorted, s) as usize]);
    assert forall|t: int| 0 <= t < NUM_TILES
        && #[trigger] tiles[t] == TileType::Floor implies within(
        tiles,
        goals,
        (MAX_DEPTH - 1) as nat,
        t,
    ) by {
        lemma_floor_is_reached(tiles, rooms, sorted, flips, s, t);
    }
}

/// Open ground hangs together: where every tile is floor, a walk from any
/// tile reaches every tile.
pub proof fn lemma_open_ground_connected(tiles: Seq<TileType>, start: Point)
    requires
        tiles.len() == NUM_TILES,
        forall|t: int| 0 <= t < NUM_TILES ==> tiles[t] == TileType::Floor,
        in_grid(start),
    ensures
        connected_from(tiles, start),
{
    let sx = start.x as int;
    let sy = start.y as int;
    let goals = seq![spec_map_idx(sx, sy) as usize];
    assert(goals[0] == spec_map_idx(sx, sy) as usize);
    assert forall|t: int| 0 <= t < NUM_TILES
        && #[trigger] tiles[t] == TileType::Floor implies within(
        tiles,
        goals,
        (MAX_DEPTH - 1) as nat,
        t,
    ) by {
        let x = t % 80;
        let y = t / 80;
        assert(spec_map_idx(x, y) == t);
        assert forall|c: int| between(sx, x, c) implies #[trigger] floor_xy(tiles, c, sy) by {
            assert(tiles[spec_map_idx(c, sy)] == TileType::Floor);
        }
        assert forall|r: int| between(sy, y, r) implies #[trigger] floor_xy(tiles, x, r) by {
            assert(tiles[spec_map_idx(x, r)] == TileType::Floor);
        }
        lemma_walk_row_then_column(tiles, goals, 0, sx, sy, x, y);
        lemma_within_monotonic(
            tiles,
            goals,
            (gap(sx, x) + gap(sy, y)) as nat,
            (MAX_DEPTH - 1) as nat,
            t,
        );
    }
}

} // verus!
