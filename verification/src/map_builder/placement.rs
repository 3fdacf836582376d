//! Where things go on a finished map: the amulet on the tile farthest from
//! the player, the monsters on floor tiles away from the player.

use vstd::prelude::*;
use crate::geometry::{distance_sq, grid_distance_sq, in_grid, NUM_TILES, Point};
use crate::map::{index_to_point, map_idx, spec_index_to_point, spec_map_idx, TileMap, TileType};
use crate::pathfinding::{
    flow_distances,
    FlowField,
    is_flow_distance,
    lemma_within_monotonic,
    MAX_DEPTH,
    UNREACHABLE,
    within,
};
use crate::random::draw_index;
use crate::turn_state::GameError;

verus! {

/// Squared distance from the player beyond which a monster may be placed.
pub const SPAWN_CLEARANCE_SQ: i32 = 100;

/// The index below `upto` with the largest distance other than
/// `UNREACHABLE`, the least such index where several share it.
pub open spec fn farthest(distances: Seq<u32>, upto: int) -> Option<int>
    decreases upto,
{
    if upto <= 0 {
        None
    } else {
        let earlier = farthest(distances, upto - 1);
        let d = distances[upto - 1];
        if d == UNREACHABLE {
            earlier
        } else {
            match earlier {
                Some(i) => if d > distances[i] {
                    Some(upto - 1)
                } else {
                    earlier
                },
                None => Some(upto - 1),
            }
        }
    }
}

/// What `farthest` finds: a reachable tile that no reachable tile lies
/// beyond, and the first of these; nothing only where nothing is
/// reachable.
pub proof fn lemma_farthest(distances: Seq<u32>, upto: int)
    requires
        0 <= upto <= distances.len(),
    ensures
        match farthest(distances, upto) {
            Some(i) => 0 <= i < upto && distances[i] != UNREACHABLE && (forall|j: int|
                0 <= j < upto && #[trigger] distances[j] != UNREACHABLE ==> distances[j]
                    <= distances[i]) && (forall|j: int|
                0 <= j < i ==> #[trigger] distances[j] == UNREACHABLE || distances[j]
                    < distances[i]),
            None => forall|j: int| 0 <= j < upto ==> #[trigger] distances[j] == UNREACHABLE,
        },
    decreases upto,
{
    if upto > 0 {
        lemma_farthest(distances, upto - 1);
    }
}

/// The tile that is farthest from `source` among those that a walk from
/// `source` reaches.
pub open spec fn most_distant(tiles: Seq<TileType>, source: Point) -> Point {
    let goals = seq![spec_map_idx(source.x as int, source.y as int) as usize];
    match farthest(flow_distances(tiles, goals), NUM_TILES as int) {
        Some(i) => spec_index_to_point(i),
        None => source,
    }
}

/// The tile farthest from `source` by flow distance, the first in index
/// order among the farthest. It is on the grid and reachable from `source`.
pub fn find_most_distant(map: &TileMap, source: Point) -> (p: Point)
    requires
        map.wf(),
        in_grid(source),
    ensures
        p == most_distant(map.tiles@, source),
        in_grid(p),
        flow_distances(
            map.tiles@,
            seq![spec_map_idx(source.x as int, source.y as int) as usize],
        )[spec_map_idx(p.x as int, p.y as int)] < MAX_DEPTH,
{
    let mut goals: Vec<usize> = Vec::new();
    let start: usize = map_idx(source.x, source.y);
    goals.push(start);
    assert(goals@ =~= seq![spec_map_idx(source.x as int, source.y as int) as usize]);
    let field = FlowField::new(&goals, map);
    let ghost distances = field.distances@;
    let mut best: Option<usize> = None;
    let mut i: usize = 0;
    while i < NUM_TILES
        invariant
            i <= NUM_TILES,
            field.wf(),
            distances == field.distances@,
            match best {
                Some(b) => farthest(distances, i as int) == Some(b as int) && b < i,
                None => farthest(distances, i as int).is_none(),
            },
        decreases NUM_TILES - i,
    {
        let d: u32 = field.distances[i];
        if d != UNREACHABLE {
            match best {
                Some(b) => {
                    if d > field.distances[b] {
                        best = Some(i);
                    }
                },
                None => {
                    best = Some(i);
                },
            }
        }
        i += 1;
    }
    proof {
        lemma_farthest(distances, NUM_TILES as int);
        // the source itself is reached with no step at all
        assert(goals@[0] == start);
        assert(within(map.tiles@, goals@, 0, start as int));
        assert(is_flow_distance(
            map.tiles@,
            goals@,
            start as int,
            distances[start as int],
        ));
        if distances[start as int] == UNREACHABLE {
            lemma_within_monotonic(
                map.tiles@,
                goals@,
                0,
                (MAX_DEPTH - 1) as nat,
                start as int,
            );
        }
    }
    match best {
        Some(b) => {
            assert(is_flow_distance(
                map.tiles@,
                goals@,
                b as int,
                distances[b as int],
            ));
            index_to_point(b)
        },
        None => source,
    }
}

/// Whether a monster may be placed on the tile with index `idx`: it is a
/// floor tile farther than the clearance from `start`.
pub open spec fn spawnable(tiles: Seq<TileType>, start: Point, idx: int) -> bool {
    tiles[idx] == TileType::Floor && distance_sq(start, spec_index_to_point(idx))
        > SPAWN_CLEARANCE_SQ
}

/// The tiles with an index below `upto` on which a monster may be placed,
/// in index order.
pub open spec fn spawnable_tiles(tiles: Seq<TileType>, start: Point, upto: int) -> Seq<Point>
    decreases upto,
{
    if upto <= 0 {
        Seq::empty()
    } else if spawnable(tiles, start, upto - 1) {
        spawnable_tiles(tiles, start, upto - 1).push(spec_index_to_point(upto - 1))
    } else {
        spawnable_tiles(tiles, start, upto - 1)
    }
}

/// Whether `p` is a floor tile of the grid farther than the clearance from
/// `start`.
pub open spec fn fit_for_monster(tiles: Seq<TileType>, start: Point, p: Point) -> bool {
    in_grid(p) && spawnable(tiles, start, spec_map_idx(p.x as int, p.y as int))
}

/// The tiles on which a monster may be placed, in index order. Each is
/// fit for a monster, and none is listed twice.
pub fn spawn_candidates(map: &TileMap, start: Point) -> (candidates: Vec<Point>)
    requires
        map.wf(),
        in_grid(start),
    ensures
        candidates@ == spawnable_tiles(map.tiles@, start, NUM_TILES as int),
        candidates@.len() <= NUM_TILES,
        candidates@.no_duplicates(),
        forall|j: int|
            0 <= j < candidates@.len() ==> fit_for_monster(
                map.tiles@,
                start,
                #[trigger] candidates@[j],
            ),
{
    let mut candidates: Vec<Point> = Vec::new();
    let mut idx: usize = 0;
    while idx < NUM_TILES
        invariant
            map.wf(),
            in_grid(start),
            idx <= NUM_TILES,
            candidates@ == spawnable_tiles(map.tiles@, start, idx as int),
            candidates@.len() <= idx,
            forall|j: int|
                0 <= j < candidates@.len() ==> fit_for_monster(
                    map.tiles@,
                    start,
                    #[trigger] candidates@[j],
                ) && spec_map_idx(candidates@[j].x as int, candidates@[j].y as int) < idx,
            candidates@.no_duplicates(),
        decreases NUM_TILES - idx,
    {
        let p: Point = index_to_point(idx);
        if matches!(map.tiles[idx], TileType::Floor) && grid_distance_sq(start, p)
            > SPAWN_CLEARANCE_SQ {
            candidates.push(p);
        }
        idx += 1;
    }
    candidates
}

/// Moves the candidate at `index` to the end of `spawns`. The other
/// candidates keep their order.
pub fn take_spawn(candidates: &mut Vec<Point>, spawns: &mut Vec<Point>, index: usize)
    requires
        index < old(candidates)@.len(),
    ensures
        final(candidates)@ == old(candidates)@.remove(index as int),
        final(spawns)@ == old(spawns)@.push(old(candidates)@[index as int]),
{
    let p: Point = candidates.remove(index);
    spawns.push(p);
}

/// Picks `count` different tiles for monsters by chance, each a floor tile
/// farther than the clearance from `start`. Fails where fewer than
/// `count` tiles are fit.
pub fn spawn_monsters(
    map: &TileMap,
    start: Point,
    rng: &mut bracket_lib::prelude::RandomNumberGenerator,
    count: usize,
) -> (r: Result<Vec<Point>, GameError>)
    requires
        map.wf(),
        in_grid(start),
    ensures
        r.is_err() <==> spawnable_tiles(map.tiles@, start, NUM_TILES as int).len() < count,
        r.is_err() ==> r == Err::<Vec<Point>, GameError>(GameError::SpawnExhausted),
        r.is_ok() ==> {
            let spawns = r.unwrap()@;
            &&& spawns.len() == count
            &&& spawns.no_duplicates()
            &&& forall|j: int|
                0 <= j < spawns.len() ==> fit_for_monster(map.tiles@, start, #[trigger] spawns[j])
        },
{
    let mut candidates = spawn_candidates(map, start);
    if candidates.len() < count {
        return Err(GameError::SpawnExhausted);
    }
    let mut spawns: Vec<Point> = Vec::new();
    let mut n: usize = 0;
    while n < count
        invariant
            n <= count,
            spawns@.len() == n,
            candidates@.len() + n >= count,
            candidates@.len() <= NUM_TILES,
            candidates@.no_duplicates(),
            spawns@.no_duplicates(),
            forall|j: int|
                0 <= j < candidates@.len() ==> fit_for_monster(
                    map.tiles@,
                    start,
                    #[trigger] candidates@[j],
                ),
            forall|j: int|
                0 <= j < spawns@.len()
                    ==> fit_for_monster(map.tiles@, start, #[trigger] spawns@[j]),
            forall|j: int, k: int|
                0 <= j < candidates@.len() && 0 <= k < spawns@.len() ==> #[trigger] candidates@[j]
                    != #[trigger] spawns@[k],
        decreases count - n,
    {
        let index: usize = match draw_index(rng, &candidates) {
            Some(i) => i,
            None => 0,
        };
        let ghost candidates0 = candidates@;
        let ghost spawns0 = spawns@;
        take_spawn(&mut candidates, &mut spawns, index);
        proof {
            assert forall|j: int| 0 <= j < candidates@.len() implies fit_for_monster(
                map.tiles@,
                start,
                #[trigger] candidates@[j],
            ) && candidates@[j] != candidates0[index as int] by {
                if j < index {
                    assert(candidates@[j] == candidates0[j]);
                } else {
                    assert(candidates@[j] == candidates0[j + 1]);
                }
            }
            assert forall|j: int, k: int|
                0 <= j < candidates@.len()
                    && 0 <= k < spawns@.len() implies #[trigger] candidates@[j]
                != #[trigger] spawns@[k] by {
                let jj = if j < index {
                    j
                } else {
                    j + 1
                };
                assert(candidates@[j] == candidates0[jj]);
                if k < spawns0.len() {
                    assert(spawns@[k] == spawns0[k]);
                }
            }
            assert(candidates@.no_duplicates()) by {
                assert forall|a: int, b: int|
                    0 <= a < candidates@.len() && 0 <= b < candidates@.len()
                        && a != b implies candidates@[a]
                    != candidates@[b] by {
                    let aa = if a < index {
                        a
                    } else {
                        a + 1
                    };
                    let bb = if b < index {
                        b
                    } else {
                        b + 1
                    };
                    assert(candidates@[a] == candidates0[aa]);
                    assert(candidates@[b] == candidates0[bb]);
                }
            }
            assert(spawns@.no_duplicates()) by {
                assert forall|a: int, b: int|
                    0 <= a < spawns@.len() && 0 <= b < spawns@.len() && a != b implies spawns@[a]
                    != spawns@[b] by {
                    if a < spawns0.len() {
                        assert(spawns@[a] == spawns0[a]);
                    }
                    if b < spawns0.len() {
                        assert(spawns@[b] == spawns0[b]);
                    }
                }
            }
        }
        n += 1;
    }
    Ok(spawns)
}

} // verus!
