//! The fortress: a fixed structure stamped on a finished map, away from
//! the player.

use vstd::prelude::*;
use crate::geometry::{in_grid, NUM_TILES, Point, SCREEN_HEIGHT, SCREEN_WIDTH};
use crate::map::{index_to_point, map_idx, spec_index_to_point, spec_map_idx, TileMap, TileType};
use crate::pathfinding::{flow_distances, FlowField, UNREACHABLE};
use crate::random::draw_range;

verus! {

/// Width of the fortress.
pub const FORTRESS_WIDTH: i32 = 12;

/// Height of the fortress.
pub const FORTRESS_HEIGHT: i32 = 11;

/// Number of places that are tried for the fortress.
pub const MAX_PLACEMENTS: u32 = 10;

/// The fortress wants a tile farther from the player than this.
pub const FORTRESS_DISTANCE: u32 = 20;

/// Whether the fortress has a wall in column `col` of its row `row`: a
/// keep with a gate in each of its four sides, inside a ring of floor.
pub open spec fn fortress_wall(col: int, row: int) -> bool {
    ((row == 1 || row == 9) && 3 <= col <= 8) || ((row == 2 || row == 3 || row == 7 || row == 8)
        && (col == 3 || col == 8)) || ((row == 4 || row == 6) && (1 <= col <= 3 || 8 <= col <= 10))
}

/// Whether the fortress with its first corner at `at` covers `p`.
pub open spec fn covers(at: Point, p: Point) -> bool {
    at.x <= p.x < at.x + FORTRESS_WIDTH && at.y <= p.y < at.y + FORTRESS_HEIGHT
}

/// The tiles with the fortress stamped on them, its first corner at `at`.
pub open spec fn stamped(tiles: Seq<TileType>, at: Point) -> Seq<TileType> {
    Seq::new(
        tiles.len(),
        |t: int|
            {
                let p = spec_index_to_point(t);
                if covers(at, p) {
                    if fortress_wall(p.x - at.x, p.y - at.y) {
                        TileType::Wall
                    } else {
                        TileType::Floor
                    }
                } else {
                    tiles[t]
                }
            },
    )
}

/// Whether the fortress may stand with its first corner at `at`: it leaves
/// the tile `keep` alone, and covers a tile that is reachable and farther
/// than `FORTRESS_DISTANCE`.
pub open spec fn can_place(distances: Seq<u32>, at: Point, keep: Point) -> bool {
    !covers(at, keep) && exists|t: int|
        0 <= t < NUM_TILES && covers(at, spec_index_to_point(t)) && FORTRESS_DISTANCE
            < #[trigger] distances[t] < UNREACHABLE
}

/// Whether a corner drawn for the fortress keeps all of it on the grid.
pub open spec fn corner_fits(at: Point) -> bool {
    0 <= at.x <= SCREEN_WIDTH - FORTRESS_WIDTH && 0 <= at.y <= SCREEN_HEIGHT - FORTRESS_HEIGHT
}

/// Whether the fortress with its first corner at `at` covers `p`.
fn is_covered(at: Point, p: Point) -> (b: bool)
    requires
        corner_fits(at),
    ensures
        b == covers(at, p),
{
    at.x <= p.x && p.x < at.x + FORTRESS_WIDTH && at.y <= p.y && p.y < at.y + FORTRESS_HEIGHT
}

/// Whether the fortress may stand with its first corner at `at`.
pub fn fits(field: &FlowField, at: Point, keep: Point) -> (b: bool)
    requires
        field.wf(),
        corner_fits(at),
    ensures
        b == can_place(field.distances@, at, keep),
{
    if is_covered(at, keep) {
        return false;
    }
    let mut idx: usize = 0;
    while idx < NUM_TILES
        invariant
            field.wf(),
            corner_fits(at),
            !covers(at, keep),
            idx <= NUM_TILES,
            forall|t: int|
                0 <= t < idx ==> !(covers(at, spec_index_to_point(t)) && FORTRESS_DISTANCE
                    < #[trigger] field.distances@[t] < UNREACHABLE),
        decreases NUM_TILES - idx,
    {
        let d: u32 = field.distances[idx];
        if is_covered(at, index_to_point(idx)) && d > FORTRESS_DISTANCE && d < UNREACHABLE {
            assert(covers(at, spec_index_to_point(idx as int)) && FORTRESS_DISTANCE
                < field.distances@[idx as int] < UNREACHABLE);
            return true;
        }
        idx += 1;
    }
    false
}

/// Stamps the fortress with its first corner at `at`.
pub fn stamp(map: &mut TileMap, at: Point)
    requires
        old(map).wf(),
        corner_fits(at),
    ensures
        final(map).wf(),
        final(map).tiles@ == stamped(old(map).tiles@, at),
        final(map).revealed_tiles@ == old(map).revealed_tiles@,
{
    let mut idx: usize = 0;
    while idx < NUM_TILES
        invariant
            map.wf(),
            corner_fits(at),
            idx <= NUM_TILES,
            old(map).tiles@.len() == NUM_TILES,
            map.revealed_tiles@ == old(map).revealed_tiles@,
            forall|t: int|
                0 <= t < idx ==> #[trigger] map.tiles@[t] == stamped(old(map).tiles@, at)[t],
            forall|t: int| idx <= t < NUM_TILES ==> #[trigger] map.tiles@[t] == old(map).tiles@[t],
        decreases NUM_TILES - idx,
    {
        let p: Point = index_to_point(idx);
        if is_covered(at, p) {
            let col: i32 = p.x - at.x;
            let row: i32 = p.y - at.y;
            let is_wall: bool = ((row == 1 || row == 9) && 3 <= col && col <= 8) || ((row == 2
                || row == 3 || row == 7 || row == 8) && (col == 3 || col == 8)) || ((row == 4
                || row == 6) && ((1 <= col && col <= 3) || (8 <= col && col <= 10)));
            if is_wall {
                map.set_tile(idx, TileType::Wall);
            } else {
                map.set_tile(idx, TileType::Floor);
            }
        }
        idx += 1;
    }
    assert(map.tiles@ =~= stamped(old(map).tiles@, at));
}

/// Draws corners by chance, one after the other, and stamps the fortress at
/// the first where it may stand, judged by the flow field rooted at
/// `player_start`; after `MAX_PLACEMENTS` corners it gives up. Returns the
/// corner of the fortress, or `None` with the map untouched.
pub fn apply_prefab(
    map: &mut TileMap,
    player_start: Point,
    rng: &mut bracket_lib::prelude::RandomNumberGenerator,
) -> (r: Option<Point>)
    requires
        old(map).wf(),
        in_grid(player_start),
    ensures
        final(map).wf(),
        final(map).revealed_tiles@ == old(map).revealed_tiles@,
        exists|corners: Seq<Point>| #[trigger]
            tried(distances_from(old(map).tiles@, player_start), player_start, corners, r),
        match r {
            Some(at) => drawable(at) && corner_fits(at) && can_place(
                distances_from(old(map).tiles@, player_start),
                at,
                player_start,
            ) && final(map).tiles@ == stamped(old(map).tiles@, at),
            None => final(map).tiles@ == old(map).tiles@,
        },
        (forall|at: Point| #[trigger]
            drawable(at) ==> can_place(
                distances_from(old(map).tiles@, player_start),
                at,
                player_start,
            )) ==> r.is_some(),
        (forall|at: Point| #[trigger]
            drawable(at) ==> !can_place(
                distances_from(old(map).tiles@, player_start),
                at,
                player_start,
            )) ==> r.is_none(),
        final(map).tiles@[spec_map_idx(player_start.x as int, player_start.y as int)]
            == old(map).tiles@[spec_map_idx(player_start.x as int, player_start.y as int)],
{
    let mut goals: Vec<usize> = Vec::new();
    goals.push(map_idx(player_start.x, player_start.y));
    assert(goals@ =~= seq![spec_map_idx(player_start.x as int, player_start.y as int) as usize]);
    let field = FlowField::new(&goals, map);
    let ghost distances = distances_from(old(map).tiles@, player_start);
    let ghost mut corners: Seq<Point> = Seq::empty();
    let mut attempts: u32 = 0;
    while attempts < MAX_PLACEMENTS
        invariant
            map.wf(),
            field.wf(),
            map.tiles@ == old(map).tiles@,
            map.revealed_tiles@ == old(map).revealed_tiles@,
            in_grid(player_start),
            attempts <= MAX_PLACEMENTS,
            distances == distances_from(old(map).tiles@, player_start),
            field.distances@ == distances,
            corners.len() == attempts,
            forall|k: int| 0 <= k < corners.len() ==> drawable(#[trigger] corners[k]),
            forall|k: int|
                0 <= k < corners.len() ==> !can_place(distances, #[trigger] corners[k], player_start),
        decreases MAX_PLACEMENTS - attempts,
    {
        let x: i32 = draw_range(rng, 0, SCREEN_WIDTH - FORTRESS_WIDTH);
        let y: i32 = draw_range(rng, 0, SCREEN_HEIGHT - FORTRESS_HEIGHT);
        let at: Point = Point { x, y };
        let ghost earlier = corners;
        proof {
            corners = earlier.push(at);
            assert forall|k: int| 0 <= k < corners.len() implies drawable(#[trigger] corners[k]) by {
                if k < earlier.len() {
                    assert(corners[k] == earlier[k]);
                }
            }
        }
        if place_fortress(map, &field, player_start, at) {
            proof {
                assert forall|k: int| 0 <= k < corners.len() - 1 implies !can_place(
                    distances,
                    #[trigger] corners[k],
                    player_start,
                ) by {
                    assert(corners[k] == earlier[k]);
                }
                assert(corners.last() == at);
                assert(tried(distances, player_start, corners, Some(at)));
            }
            return Some(at);
        }
        proof {
            assert forall|k: int| 0 <= k < corners.len() implies !can_place(
                distances,
                #[trigger] corners[k],
                player_start,
            ) by {
                if k < earlier.len() {
                    assert(corners[k] == earlier[k]);
                }
            }
        }
        attempts += 1;
    }
    proof {
        assert(drawable(corners[0]) && !can_place(distances, corners[0], player_start));
        assert(tried(distances, player_start, corners, None));
    }
    None
}

/// The flow distances of all tiles from the tile at `start`.
pub open spec fn distances_from(tiles: Seq<TileType>, start: Point) -> Seq<u32> {
    flow_distances(tiles, seq![spec_map_idx(start.x as int, start.y as int) as usize])
}

/// Whether `at` is a corner that may be drawn for the fortress.
pub open spec fn drawable(at: Point) -> bool {
    0 <= at.x < SCREEN_WIDTH - FORTRESS_WIDTH && 0 <= at.y < SCREEN_HEIGHT - FORTRESS_HEIGHT
}

/// Whether `corners` are the corners drawn in a search that ends in `r`:
/// between one and `MAX_PLACEMENTS` of them; at none but the last may the
/// fortress stand; where it may stand at the last, that corner is the
/// result; and there is no result only where `MAX_PLACEMENTS` corners have
/// been drawn in vain.
pub open spec fn tried(
    distances: Seq<u32>,
    keep: Point,
    corners: Seq<Point>,
    r: Option<Point>,
) -> bool {
    &&& 1 <= corners.len() <= MAX_PLACEMENTS
    &&& forall|k: int| 0 <= k < corners.len() ==> drawable(#[trigger] corners[k])
    &&& forall|k: int|
        0 <= k < corners.len() - 1 ==> !can_place(distances, #[trigger] corners[k], keep)
    &&& match r {
        Some(at) => at == corners.last() && can_place(distances, at, keep),
        None => corners.len() == MAX_PLACEMENTS && !can_place(distances, corners.last(), keep),
    }
}

/// Stamps the fortress with its first corner at `at` if it may stand there,
/// and leaves the map as it is if not. Returns whether it did.
pub fn place_fortress(map: &mut TileMap, field: &FlowField, keep: Point, at: Point) -> (placed:
    bool)
    requires
        old(map).wf(),
        field.wf(),
        corner_fits(at),
    ensures
        final(map).wf(),
        final(map).revealed_tiles@ == old(map).revealed_tiles@,
        placed == can_place(field.distances@, at, keep),
        final(map).tiles@ == if placed {
            stamped(old(map).tiles@, at)
        } else {
            old(map).tiles@
        },
{
    if fits(field, at, keep) {
        stamp(map, at);
        true
    } else {
        false
    }
}

} // verus!
