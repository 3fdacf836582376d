//! The architect of grown caves: random noise, smoothed by a rule of
//! neighbours, and a start in the largest region of floor.

use vstd::prelude::*;
use crate::geometry::{NUM_TILES, Point, SCREEN_HEIGHT, SCREEN_WIDTH};
use crate::map::{index_to_point, map_idx, spec_index_to_point, spec_map_idx, TileMap, TileType};
use crate::pathfinding::{flow_distances, FlowField, UNREACHABLE};
use crate::random::draw_range;

verus! {

/// Number of smoothing passes.
pub const SMOOTHING_PASSES: u32 = 10;

/// A tile with more wall neighbours than this becomes wall.
pub const WALL_THRESHOLD: u8 = 4;

/// A roll above this value, out of a hundred, gives floor.
pub const NOISE_THRESHOLD: i32 = 55;

/// The tile that a roll gives.
pub open spec fn noise_tile(roll: int) -> TileType {
    if roll > NOISE_THRESHOLD {
        TileType::Floor
    } else {
        TileType::Wall
    }
}

/// One if the tile at column `x` and row `y` is wall, else zero.
pub open spec fn wall_at(tiles: Seq<TileType>, x: int, y: int) -> int {
    if tiles[spec_map_idx(x, y)] == TileType::Wall {
        1
    } else {
        0
    }
}

/// The number of walls among the eight tiles around column `x`, row `y`.
pub open spec fn wall_neighbors(tiles: Seq<TileType>, x: int, y: int) -> int {
    wall_at(tiles, x - 1, y - 1) + wall_at(tiles, x, y - 1) + wall_at(tiles, x + 1, y - 1)
        + wall_at(tiles, x - 1, y) + wall_at(tiles, x + 1, y) + wall_at(tiles, x - 1, y + 1)
        + wall_at(tiles, x, y + 1) + wall_at(tiles, x + 1, y + 1)
}

/// Whether the tile lies off the outermost ring of the grid.
pub open spec fn interior(p: Point) -> bool {
    1 <= p.x < SCREEN_WIDTH - 1 && 1 <= p.y < SCREEN_HEIGHT - 1
}

/// The tiles after one smoothing pass: a tile off the outermost ring
/// becomes wall where more than `WALL_THRESHOLD` of the eight tiles around
/// it are wall, and floor otherwise; the outermost ring stays.
pub open spec fn smoothed(tiles: Seq<TileType>) -> Seq<TileType> {
    Seq::new(
        tiles.len(),
        |t: int|
            {
                let p = spec_index_to_point(t);
                if interior(p) {
                    if wall_neighbors(tiles, p.x as int, p.y as int) > WALL_THRESHOLD {
                        TileType::Wall
                    } else {
                        TileType::Floor
                    }
                } else {
                    tiles[t]
                }
            },
    )
}

/// The tiles after `n` smoothing passes.
pub open spec fn smoothed_times(tiles: Seq<TileType>, n: nat) -> Seq<TileType>
    decreases n,
{
    if n == 0 {
        tiles
    } else {
        smoothed(smoothed_times(tiles, (n - 1) as nat))
    }
}

/// One if the tile is wall, else zero.
fn wall(map: &TileMap, x: i32, y: i32) -> (w: u8)
    requires
        map.wf(),
        0 <= x < SCREEN_WIDTH,
        0 <= y < SCREEN_HEIGHT,
    ensures
        w == wall_at(map.tiles@, x as int, y as int),
{
    if matches!(map.tiles[map_idx(x, y)], TileType::Wall) {
        1
    } else {
        0
    }
}

/// The number of walls among the eight tiles around column `x`, row `y`.
pub fn count_neighbors(x: i32, y: i32, map: &TileMap) -> (n: u8)
    requires
        map.wf(),
        interior(Point { x, y }),
    ensures
        n == wall_neighbors(map.tiles@, x as int, y as int),
{
    wall(map, x - 1, y - 1) + wall(map, x, y - 1) + wall(map, x + 1, y - 1) + wall(map, x - 1, y)
        + wall(map, x + 1, y) + wall(map, x - 1, y + 1) + wall(map, x, y + 1) + wall(
        map,
        x + 1,
        y + 1,
    )
}

/// One smoothing pass.
pub fn iteration(map: &mut TileMap)
    requires
        old(map).wf(),
    ensures
        final(map).wf(),
        final(map).tiles@ == smoothed(old(map).tiles@),
        final(map).revealed_tiles@ == old(map).revealed_tiles@,
{
    let mut fresh: Vec<TileType> = Vec::new();
    let mut idx: usize = 0;
    while idx < NUM_TILES
        invariant
            map.wf(),
            *map == *old(map),
            idx <= NUM_TILES,
            fresh@.len() == idx,
            forall|t: int| 0 <= t < idx ==> #[trigger] fresh@[t] == smoothed(map.tiles@)[t],
        decreases NUM_TILES - idx,
    {
        let p: Point = index_to_point(idx);
        let tile: TileType = if p.x >= 1 && p.x < SCREEN_WIDTH - 1 && p.y >= 1 && p.y
            < SCREEN_HEIGHT - 1 {
            if count_neighbors(p.x, p.y, map) > WALL_THRESHOLD {
                TileType::Wall
            } else {
                TileType::Floor
            }
        } else {
            map.tiles[idx]
        };
        fresh.push(tile);
        idx += 1;
    }
    assert(fresh@ =~= smoothed(map.tiles@));
    map.tiles = fresh;
}

/// Fills the grid with noise: each tile by a roll of its own, floor for a
/// roll above `NOISE_THRESHOLD` out of a hundred.
pub fn random_noise_map(map: &mut TileMap, rng: &mut bracket_lib::prelude::RandomNumberGenerator)
    requires
        old(map).wf(),
    ensures
        final(map).wf(),
        final(map).revealed_tiles@ == old(map).revealed_tiles@,
        exists|rolls: Seq<i32>|
            rolls.len() == NUM_TILES && forall|t: int|
                0 <= t < NUM_TILES ==> 0 <= #[trigger] rolls[t] < 100 && final(map).tiles@[t]
                    == noise_tile(rolls[t] as int),
{
    let ghost mut rolls: Seq<i32> = Seq::empty();
    let mut idx: usize = 0;
    while idx < NUM_TILES
        invariant
            map.wf(),
            idx <= NUM_TILES,
            map.revealed_tiles@ == old(map).revealed_tiles@,
            rolls.len() == idx,
            forall|t: int|
                0 <= t < idx ==> 0 <= #[trigger] rolls[t] < 100 && map.tiles@[t] == noise_tile(
                    rolls[t] as int,
                ),
        decreases NUM_TILES - idx,
    {
        let roll: i32 = draw_range(rng, 0, 100);
        let tile: TileType = if roll > NOISE_THRESHOLD {
            TileType::Floor
        } else {
            TileType::Wall
        };
        map.set_tile(idx, tile);
        proof {
            rolls = rolls.push(roll);
        }
        idx += 1;
    }
    assert(rolls.len() == NUM_TILES && forall|t: int|
        0 <= t < NUM_TILES ==> 0 <= #[trigger] rolls[t] < 100 && map.tiles@[t] == noise_tile(
            rolls[t] as int,
        ));
}

/// The number of distances below index `upto` other than `UNREACHABLE`.
pub open spec fn reached_count(distances: Seq<u32>, upto: int) -> nat
    decreases upto,
{
    if upto <= 0 {
        0
    } else if distances[upto - 1] != UNREACHABLE {
        reached_count(distances, upto - 1) + 1
    } else {
        reached_count(distances, upto - 1)
    }
}

/// The size of the region of tile `root`: the number of tiles that a walk
/// from it reaches.
pub open spec fn region_size(tiles: Seq<TileType>, root: int) -> nat {
    reached_count(flow_distances(tiles, seq![root as usize]), NUM_TILES as int)
}

/// The size of the region of the tile with index `root`.
pub fn measure_region(map: &TileMap, root: usize) -> (n: usize)
    requires
        map.wf(),
        root < NUM_TILES,
    ensures
        n == region_size(map.tiles@, root as int),
        n <= NUM_TILES,
{
    let mut goals: Vec<usize> = Vec::new();
    goals.push(root);
    assert(goals@ =~= seq![root]);
    let field = FlowField::new(&goals, map);
    let mut n: usize = 0;
    let mut idx: usize = 0;
    while idx < NUM_TILES
        invariant
            field.wf(),
            idx <= NUM_TILES,
            n <= idx,
            n == reached_count(field.distances@, idx as int),
        decreases NUM_TILES - idx,
    {
        if field.distances[idx] != UNREACHABLE {
            n += 1;
        }
        idx += 1;
    }
    n
}

/// The floor tile below index `upto` with the largest region, the least
/// index where several share the size.
pub open spec fn largest_region_root(tiles: Seq<TileType>, upto: int) -> Option<int>
    decreases upto,
{
    if upto <= 0 {
        None
    } else {
        let earlier = largest_region_root(tiles, upto - 1);
        if tiles[upto - 1] != TileType::Floor {
            earlier
        } else {
            match earlier {
                Some(i) => if region_size(tiles, upto - 1) > region_size(tiles, i) {
                    Some(upto - 1)
                } else {
                    earlier
                },
                None => Some(upto - 1),
            }
        }
    }
}

/// What `largest_region_root` finds: a floor tile whose region no region
/// of a floor tile exceeds, and the first of these; nothing only where
/// there is no floor.
pub proof fn lemma_largest_region_root(tiles: Seq<TileType>, upto: int)
    requires
        0 <= upto <= tiles.len(),
    ensures
        match largest_region_root(tiles, upto) {
            Some(i) => 0 <= i < upto && tiles[i] == TileType::Floor && (forall|j: int|
                0 <= j < upto && #[trigger] tiles[j] == TileType::Floor ==> region_size(tiles, j)
                    <= region_size(tiles, i)) && (forall|j: int|
                0 <= j < i && #[trigger] tiles[j] == TileType::Floor ==> region_size(tiles, j)
                    < region_size(tiles, i)),
            None => forall|j: int| 0 <= j < upto ==> #[trigger] tiles[j] != TileType::Floor,
        },
    decreases upto,
{
    if upto > 0 {
        lemma_largest_region_root(tiles, upto - 1);
    }
}

/// The first floor tile, in index order, of a largest region of floor;
/// `None` where the map has no floor.
pub fn find_start(map: &TileMap) -> (r: Option<Point>)
    requires
        map.wf(),
    ensures
        match largest_region_root(map.tiles@, NUM_TILES as int) {
            Some(i) => r == Some(spec_index_to_point(i)),
            None => r.is_none(),
        },
        r.is_some() ==> map.enterable(r.unwrap()) && largest_region_root(
            map.tiles@,
            NUM_TILES as int,
        ) == Some(spec_map_idx(r.unwrap().x as int, r.unwrap().y as int)),
{
    let mut best: Option<(usize, usize)> = None;
    let mut idx: usize = 0;
    while idx < NUM_TILES
        invariant
            map.wf(),
            idx <= NUM_TILES,
            match best {
                Some(b) => b.0 < idx && largest_region_root(map.tiles@, idx as int) == Some(
                    b.0 as int,
                ) && b.1 == region_size(map.tiles@, b.0 as int),
                None => largest_region_root(map.tiles@, idx as int).is_none(),
            },
        decreases NUM_TILES - idx,
    {
        if matches!(map.tiles[idx], TileType::Floor) {
            let size: usize = measure_region(map, idx);
            match best {
                Some(b) => {
                    if size > b.1 {
                        best = Some((idx, size));
                    }
                },
                None => {
                    best = Some((idx, size));
                },
            }
        }
        idx += 1;
    }
    proof {
        lemma_largest_region_root(map.tiles@, NUM_TILES as int);
    }
    match best {
        Some(b) => Some(index_to_point(b.0)),
        None => None,
    }
}

/// Whether `rolls` are rolls for a whole grid: one for each tile, each from
/// zero to ninety-nine.
pub open spec fn grid_rolls(rolls: Seq<i32>) -> bool {
    rolls.len() == NUM_TILES && forall|t: int| 0 <= t < NUM_TILES ==> 0 <= #[trigger] rolls[t] < 100
}

/// The cave grown from the rolls: the noise that they give, smoothed
/// `SMOOTHING_PASSES` times.
pub open spec fn grown(rolls: Seq<i32>) -> Seq<TileType> {
    smoothed_times(
        Seq::new(NUM_TILES as nat, |t: int| noise_tile(rolls[t] as int)),
        SMOOTHING_PASSES as nat,
    )
}

/// Grows a cave: noise, then `SMOOTHING_PASSES` smoothing passes.
pub fn grow_cave(map: &mut TileMap, rng: &mut bracket_lib::prelude::RandomNumberGenerator)
    requires
        old(map).wf(),
    ensures
        final(map).wf(),
        final(map).revealed_tiles@ == old(map).revealed_tiles@,
        exists|rolls: Seq<i32>| grid_rolls(rolls) && final(map).tiles@ == #[trigger] grown(rolls),
{
    random_noise_map(map, rng);
    let ghost noise = map.tiles@;
    let mut pass: u32 = 0;
    while pass < SMOOTHING_PASSES
        invariant
            map.wf(),
            pass <= SMOOTHING_PASSES,
            map.revealed_tiles@ == old(map).revealed_tiles@,
            map.tiles@ == smoothed_times(noise, pass as nat),
        decreases SMOOTHING_PASSES - pass,
    {
        iteration(map);
        pass += 1;
    }
    proof {
        let rolls = choose|rolls: Seq<i32>|
            rolls.len() == NUM_TILES && forall|t: int|
                0 <= t < NUM_TILES ==> 0 <= #[trigger] rolls[t] < 100 && noise[t] == noise_tile(
                    rolls[t] as int,
                );
        assert(noise =~= Seq::new(NUM_TILES as nat, |t: int| noise_tile(rolls[t] as int)));
        assert(grid_rolls(rolls) && map.tiles@ == grown(rolls));
    }
}

} // verus!
