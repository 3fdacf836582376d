//! The architect of caves: a walker staggers about and digs out every tile
//! that it steps on.

use vstd::prelude::*;
use crate::geometry::{in_grid, NUM_TILES, Point, SCREEN_HEIGHT, SCREEN_WIDTH};
use crate::map::{map_idx, spec_map_idx, TileMap, TileType, walkable};
use crate::pathfinding::{
    connected_from,
    flow_distances,
    FlowField,
    is_flow_distance,
    lemma_within_last_step,
    lemma_within_monotonic,
    MAX_DEPTH,
    neighbor,
    reached_through,
    UNREACHABLE,
    within,
};
use crate::random::draw_range;
use crate::systems::player_input::stepped;
use crate::systems::random_move::{delta_for, direction_delta};
use crate::turn_state::GameError;

verus! {

/// Number of steps after which a walk ends.
pub const STAGGER_DISTANCE: u32 = 400;

/// Number of floor tiles at which the architect stops.
pub const DESIRED_FLOOR: usize = 1333;

/// Number of walks after which the architect gives up.
pub const MAX_WALKS: u32 = 4000;

/// The number of floor tiles with an index below `upto`.
pub open spec fn floor_count(tiles: Seq<TileType>, upto: int) -> nat
    decreases upto,
{
    if upto <= 0 {
        0
    } else if tiles[upto - 1] == TileType::Floor {
        floor_count(tiles, upto - 1) + 1
    } else {
        floor_count(tiles, upto - 1)
    }
}

/// The number of floor tiles of the map.
pub fn count_floor(map: &TileMap) -> (n: usize)
    requires
        map.wf(),
    ensures
        n == floor_count(map.tiles@, NUM_TILES as int),
{
    let mut n: usize = 0;
    let mut idx: usize = 0;
    while idx < NUM_TILES
        invariant
            map.wf(),
            idx <= NUM_TILES,
            n <= idx,
            n == floor_count(map.tiles@, idx as int),
        decreases NUM_TILES - idx,
    {
        if matches!(map.tiles[idx], TileType::Floor) {
            n += 1;
        }
        idx += 1;
    }
    n
}

/// One step of a walk: digs out the tile at `at` and moves on in the
/// direction of the draw. Returns where the walker stands then, or `None`
/// when it has left the grid.
pub fn stagger(map: &mut TileMap, at: Point, draw: i32) -> (next: Option<Point>)
    requires
        old(map).wf(),
        in_grid(at),
    ensures
        final(map).wf(),
        final(map).tiles@ == old(map).tiles@.update(
            spec_map_idx(at.x as int, at.y as int),
            TileType::Floor,
        ),
        final(map).revealed_tiles@ == old(map).revealed_tiles@,
        next == if in_grid(stepped(at, direction_delta(draw as int))) {
            Some(stepped(at, direction_delta(draw as int)))
        } else {
            None
        },
{
    map.set_tile(map_idx(at.x, at.y), TileType::Floor);
    let delta: Point = delta_for(draw);
    let to: Point = Point { x: at.x + delta.x, y: at.y + delta.y };
    if map.in_bounds(to) {
        Some(to)
    } else {
        None
    }
}

/// Whether `after` has every floor tile of `before`.
pub open spec fn keeps_floor(before: Seq<TileType>, after: Seq<TileType>) -> bool {
    before.len() == after.len() && forall|t: int|
        0 <= t < before.len() && #[trigger] before[t] == TileType::Floor ==> after[t]
            == TileType::Floor
}

/// Where a walker that starts at `start` stands after the first `n` draws.
pub open spec fn walker_at(start: Point, draws: Seq<i32>, n: int) -> Point
    decreases n,
{
    if n <= 0 {
        start
    } else {
        stepped(walker_at(start, draws, n - 1), direction_delta(draws[n - 1] as int))
    }
}

/// The tiles after a walker has dug out the first `n` tiles that it stood
/// on.
pub open spec fn dug_after(tiles: Seq<TileType>, start: Point, draws: Seq<i32>, n: int) -> Seq<
    TileType,
>
    decreases n,
{
    if n <= 0 {
        tiles
    } else {
        let at = walker_at(start, draws, n - 1);
        dug_after(tiles, start, draws, n - 1).update(
            spec_map_idx(at.x as int, at.y as int),
            TileType::Floor,
        )
    }
}

/// Whether `draws` are the draws of one walk from `start`: between one and
/// `STAGGER_DISTANCE + 1` of them, each below four, and none but the last
/// leads off the grid.
pub open spec fn is_stagger(start: Point, draws: Seq<i32>) -> bool {
    &&& 1 <= draws.len() <= STAGGER_DISTANCE + 1
    &&& forall|k: int| 0 <= k < draws.len() ==> 0 <= #[trigger] draws[k] < 4
    &&& forall|k: int| 0 <= k < draws.len() ==> in_grid(#[trigger] walker_at(start, draws, k))
    &&& draws.len() <= STAGGER_DISTANCE ==> !in_grid(
        walker_at(start, draws, draws.len() as int),
    )
}

/// A walk depends only on the draws that it has used.
proof fn lemma_walk_prefix(tiles: Seq<TileType>, start: Point, draws: Seq<i32>, longer: Seq<i32>, n: int)
    requires
        0 <= n <= draws.len() <= longer.len(),
        forall|k: int| 0 <= k < draws.len() ==> draws[k] == longer[k],
    ensures
        walker_at(start, draws, n) == walker_at(start, longer, n),
        dug_after(tiles, start, draws, n) == dug_after(tiles, start, longer, n),
    decreases n,
{
    if n > 0 {
        lemma_walk_prefix(tiles, start, draws, longer, n - 1);
    }
}

/// One walk from `start`: the walker digs out the tile that it stands on
/// and takes a step by chance, until it leaves the grid or has taken more
/// than `STAGGER_DISTANCE` steps. The tiles afterwards are those that the
/// draws of some such walk dig out; in particular tiles only turn into
/// floor, the tile at `start` among them.
pub fn drunkard(
    map: &mut TileMap,
    start: Point,
    rng: &mut bracket_lib::prelude::RandomNumberGenerator,
)
    requires
        old(map).wf(),
        in_grid(start),
    ensures
        final(map).wf(),
        final(map).revealed_tiles@ == old(map).revealed_tiles@,
        exists|draws: Seq<i32>| #[trigger]
            is_stagger(start, draws) && final(map).tiles@ == dug_after(
                old(map).tiles@,
                start,
                draws,
                draws.len() as int,
            ),
        keeps_floor(old(map).tiles@, final(map).tiles@),
        final(map).tiles@[spec_map_idx(start.x as int, start.y as int)] == TileType::Floor,
{
    let mut at: Point = start;
    let mut staggered: u32 = 0;
    let mut walking: bool = true;
    let ghost mut draws: Seq<i32> = Seq::empty();
    let ghost mut dug: int = 0;
    while walking
        invariant
            map.wf(),
            old(map).wf(),
            in_grid(at),
            in_grid(start),
            staggered <= STAGGER_DISTANCE + 1,
            walking ==> staggered <= STAGGER_DISTANCE,
            walking ==> dug == staggered && at == walker_at(start, draws, dug),
            !walking ==> is_stagger(start, draws) && dug == draws.len(),
            0 <= dug == draws.len() <= STAGGER_DISTANCE + 1,
            forall|k: int| 0 <= k < draws.len() ==> 0 <= #[trigger] draws[k] < 4,
            forall|k: int| 0 <= k < draws.len() ==> in_grid(#[trigger] walker_at(start, draws, k)),
            map.revealed_tiles@ == old(map).revealed_tiles@,
            map.tiles@ == dug_after(old(map).tiles@, start, draws, dug),
            keeps_floor(old(map).tiles@, map.tiles@),
            dug > 0 ==> map.tiles@[spec_map_idx(start.x as int, start.y as int)] == TileType::Floor,
        decreases STAGGER_DISTANCE + 1 - staggered, walking as int,
    {
        let draw: i32 = draw_range(rng, 0, 4);
        let ghost shorter = draws;
        let next = stagger(map, at, draw);
        proof {
            draws = shorter.push(draw);
            dug = dug + 1;
            lemma_walk_prefix(old(map).tiles@, start, shorter, draws, dug - 1);
            assert forall|k: int| 0 <= k < draws.len() implies in_grid(
                #[trigger] walker_at(start, draws, k),
            ) by {
                lemma_walk_prefix(old(map).tiles@, start, shorter, draws, k);
            }
            assert(walker_at(start, draws, dug) == stepped(at, direction_delta(draw as int)));
        }
        match next {
            Some(to) => {
                at = to;
                staggered += 1;
                if staggered > STAGGER_DISTANCE {
                    walking = false;
                }
            },
            None => {
                walking = false;
            },
        }
    }
}

/// The tiles with every tile whose distance is `UNREACHABLE` turned into
/// wall.
pub open spec fn pruned(tiles: Seq<TileType>, distances: Seq<u32>) -> Seq<TileType> {
    Seq::new(
        tiles.len(),
        |t: int|
            if distances[t] == UNREACHABLE {
                TileType::Wall
            } else {
                tiles[t]
            },
    )
}

/// A walk that exists before the tiles out of reach are walled up exists
/// afterwards.
pub proof fn lemma_pruned_keeps_walks(
    tiles: Seq<TileType>,
    goals: Seq<usize>,
    distances: Seq<u32>,
    k: nat,
    t: int,
)
    requires
        tiles.len() == NUM_TILES,
        distances.len() == NUM_TILES,
        forall|u: int|
            0 <= u < NUM_TILES ==> is_flow_distance(tiles, goals, u, #[trigger] distances[u]),
        k < MAX_DEPTH,
        within(tiles, goals, k, t),
    ensures
        within(pruned(tiles, distances), goals, k, t),
    decreases k,
{
    let after = pruned(tiles, distances);
    if k > 0 {
        let j = (k - 1) as nat;
        if within(tiles, goals, j, t) {
            lemma_pruned_keeps_walks(tiles, goals, distances, j, t);
        } else {
            lemma_within_last_step(tiles, goals, k, t);
            let dir = choose|dir: int|
                0 <= dir < 4 && #[trigger] reached_through(tiles, goals, j, t, dir);
            let n = neighbor(t, dir).unwrap();
            lemma_pruned_keeps_walks(tiles, goals, distances, j, n);
            assert(is_flow_distance(tiles, goals, t, distances[t]));
            if distances[t] == UNREACHABLE {
                lemma_within_monotonic(tiles, goals, k, (MAX_DEPTH - 1) as nat, t);
            }
            assert(after[t] == tiles[t]);
            assert(walkable(after, t));
            assert(reached_through(after, goals, j, t, dir));
        }
    }
}

/// Walls up every tile that no walk shorter than `MAX_DEPTH` reaches from
/// `from`. Every floor tile that is left is reached from `from`.
pub fn prune_unreachable(map: &mut TileMap, from: Point)
    requires
        old(map).wf(),
        in_grid(from),
    ensures
        final(map).wf(),
        final(map).revealed_tiles@ == old(map).revealed_tiles@,
        final(map).tiles@ == pruned(
            old(map).tiles@,
            flow_distances(
                old(map).tiles@,
                seq![spec_map_idx(from.x as int, from.y as int) as usize],
            ),
        ),
        connected_from(final(map).tiles@, from),
        forall|t: int|
            0 <= t < NUM_TILES && #[trigger] final(map).tiles@[t] == TileType::Floor
                ==> old(map).tiles@[t] == TileType::Floor,
        final(map).tiles@[spec_map_idx(from.x as int, from.y as int)]
            == old(map).tiles@[spec_map_idx(from.x as int, from.y as int)],
{
    let mut goals: Vec<usize> = Vec::new();
    goals.push(map_idx(from.x, from.y));
    assert(goals@ =~= seq![spec_map_idx(from.x as int, from.y as int) as usize]);
    let field = FlowField::new(&goals, map);
    let ghost distances = field.distances@;
    let mut idx: usize = 0;
    while idx < NUM_TILES
        invariant
            map.wf(),
            field.wf(),
            distances == field.distances@,
            idx <= NUM_TILES,
            old(map).tiles@.len() == NUM_TILES,
            map.revealed_tiles@ == old(map).revealed_tiles@,
            forall|t: int|
                0 <= t < idx ==> #[trigger] map.tiles@[t] == pruned(old(map).tiles@, distances)[t],
            forall|t: int| idx <= t < NUM_TILES ==> #[trigger] map.tiles@[t] == old(map).tiles@[t],
        decreases NUM_TILES - idx,
    {
        if field.distances[idx] == UNREACHABLE {
            map.set_tile(idx, TileType::Wall);
        }
        idx += 1;
    }
    proof {
        let before = old(map).tiles@;
        assert(map.tiles@ =~= pruned(before, distances));
        assert forall|t: int| 0 <= t < NUM_TILES && #[trigger] map.tiles@[t]
            == TileType::Floor implies within(
            map.tiles@,
            goals@,
            (MAX_DEPTH - 1) as nat,
            t,
        ) by {
            assert(is_flow_distance(before, goals@, t, distances[t]));
            lemma_pruned_keeps_walks(before, goals@, distances, distances[t] as nat, t);
            lemma_within_monotonic(
                map.tiles@,
                goals@,
                distances[t] as nat,
                (MAX_DEPTH - 1) as nat,
                t,
            );
        }
        let s = spec_map_idx(from.x as int, from.y as int);
        assert(goals@[0] == s as usize);
        assert(within(before, goals@, 0, s));
        assert(is_flow_distance(before, goals@, s, distances[s]));
        if distances[s] == UNREACHABLE {
            lemma_within_monotonic(before, goals@, 0, (MAX_DEPTH - 1) as nat, s);
        }
    }
}

/// One walk of the digger: where it starts, and the draws of its steps.
pub struct Walk {
    pub start: Point,
    pub draws: Seq<i32>,
}

/// The tiles after one walk and the walling up of what the centre does not
/// reach.
pub open spec fn after_walk(tiles: Seq<TileType>, center: Point, walk: Walk) -> Seq<TileType> {
    let dug = dug_after(tiles, walk.start, walk.draws, walk.draws.len() as int);
    pruned(dug, flow_distances(dug, seq![spec_map_idx(center.x as int, center.y as int) as usize]))
}

/// The tiles after the first `n` walks, each followed by the walling up.
pub open spec fn caved(tiles: Seq<TileType>, center: Point, walks: Seq<Walk>, n: int) -> Seq<
    TileType,
>
    decreases n,
{
    if n <= 0 {
        tiles
    } else {
        after_walk(caved(tiles, center, walks, n - 1), center, walks[n - 1])
    }
}

/// Whether `walks` are the walks of a dig that turns `before` into `after`:
/// the first from the centre, then up to `MAX_WALKS` more from tiles of the
/// grid, each made because the cave was still too small; the tiles are
/// what the walks dug and the walling up left; and the dig fails just where
/// the cave is still too small, which is only after all the walks allowed.
pub open spec fn cave_dug(
    before: Seq<TileType>,
    center: Point,
    walks: Seq<Walk>,
    after: Seq<TileType>,
    failed: bool,
) -> bool {
    &&& 1 <= walks.len() <= MAX_WALKS + 1
    &&& walks[0].start == center
    &&& forall|k: int|
        0 <= k < walks.len() ==> in_grid((#[trigger] walks[k]).start) && is_stagger(
            walks[k].start,
            walks[k].draws,
        )
    &&& forall|k: int|
        1 <= k < walks.len() ==> floor_count(
            #[trigger] caved(before, center, walks, k),
            NUM_TILES as int,
        ) < DESIRED_FLOOR
    &&& after == caved(before, center, walks, walks.len() as int)
    &&& failed <==> floor_count(after, NUM_TILES as int) < DESIRED_FLOOR
    &&& failed ==> walks.len() == MAX_WALKS + 1
}

/// The cave depends only on the walks made so far.
proof fn lemma_caved_prefix(
    tiles: Seq<TileType>,
    center: Point,
    walks: Seq<Walk>,
    longer: Seq<Walk>,
    n: int,
)
    requires
        0 <= n <= walks.len() <= longer.len(),
        forall|k: int| 0 <= k < walks.len() ==> walks[k] == longer[k],
    ensures
        caved(tiles, center, walks, n) == caved(tiles, center, longer, n),
    decreases n,
{
    if n > 0 {
        lemma_caved_prefix(tiles, center, walks, longer, n - 1);
    }
}

/// One walk from `start` and the walling up of what `center` does not
/// reach. The tiles afterwards are those that some walk from `start` leaves.
fn walk_and_prune(
    map: &mut TileMap,
    center: Point,
    start: Point,
    rng: &mut bracket_lib::prelude::RandomNumberGenerator,
) -> (walk: Ghost<Walk>)
    requires
        old(map).wf(),
        in_grid(center),
        in_grid(start),
        start != center ==> old(map).tiles@[spec_map_idx(center.x as int, center.y as int)]
            == TileType::Floor,
    ensures
        final(map).wf(),
        final(map).revealed_tiles@ == old(map).revealed_tiles@,
        walk@.start == start,
        is_stagger(start, walk@.draws),
        final(map).tiles@ == after_walk(old(map).tiles@, center, walk@),
        final(map).tiles@[spec_map_idx(center.x as int, center.y as int)] == TileType::Floor,
        connected_from(final(map).tiles@, center),
{
    drunkard(map, start, rng);
    let ghost draws = choose|draws: Seq<i32>| #[trigger]
        is_stagger(start, draws) && map.tiles@ == dug_after(
            old(map).tiles@,
            start,
            draws,
            draws.len() as int,
        );
    prune_unreachable(map, center);
    Ghost(Walk { start, draws })
}

/// Digs a cave: a first walk from `center`, then walks from tiles drawn by
/// chance, each followed by walling up what the centre does not reach, until
/// `DESIRED_FLOOR` tiles are floor. The tiles are what the walks dug and the
/// walling up left: the centre is floor, and every floor tile is reached
/// from it. Fails where the cave is still too small after `MAX_WALKS` more
/// walks.
pub fn dig_cave(
    map: &mut TileMap,
    center: Point,
    rng: &mut bracket_lib::prelude::RandomNumberGenerator,
) -> (r: Result<(), GameError>)
    requires
        old(map).wf(),
        in_grid(center),
    ensures
        final(map).wf(),
        final(map).revealed_tiles@ == old(map).revealed_tiles@,
        r.is_err() ==> r == Err::<(), GameError>(GameError::GenerationExhausted),
        r.is_ok() <==> floor_count(final(map).tiles@, NUM_TILES as int) >= DESIRED_FLOOR,
        exists|walks: Seq<Walk>| #[trigger]
            cave_dug(old(map).tiles@, center, walks, final(map).tiles@, r.is_err()),
        final(map).tiles@[spec_map_idx(center.x as int, center.y as int)] == TileType::Floor,
        connected_from(final(map).tiles@, center),
{
    let ghost before = map.tiles@;
    let first = walk_and_prune(map, center, center, rng);
    let ghost mut walks: Seq<Walk> = seq![first@];
    proof {
        assert(walks[0] == first@);
        assert(caved(before, center, walks, 0) == before);
        assert(map.tiles@ == caved(before, center, walks, 1));
    }
    let mut more: u32 = 0;
    let mut floor: usize = count_floor(map);
    while floor < DESIRED_FLOOR && more < MAX_WALKS
        invariant
            map.wf(),
            in_grid(center),
            more <= MAX_WALKS,
            map.revealed_tiles@ == old(map).revealed_tiles@,
            before == old(map).tiles@,
            floor == floor_count(map.tiles@, NUM_TILES as int),
            map.tiles@[spec_map_idx(center.x as int, center.y as int)] == TileType::Floor,
            connected_from(map.tiles@, center),
            walks.len() == more + 1,
            walks[0].start == center,
            forall|k: int|
                0 <= k < walks.len() ==> in_grid((#[trigger] walks[k]).start) && is_stagger(
                    walks[k].start,
                    walks[k].draws,
                ),
            forall|k: int|
                1 <= k < walks.len() ==> floor_count(
                    #[trigger] caved(before, center, walks, k),
                    NUM_TILES as int,
                ) < DESIRED_FLOOR,
            map.tiles@ == caved(before, center, walks, walks.len() as int),
        decreases MAX_WALKS - more,
    {
        let x: i32 = draw_range(rng, 0, SCREEN_WIDTH);
        let y: i32 = draw_range(rng, 0, SCREEN_HEIGHT);
        let next = walk_and_prune(map, center, Point { x, y }, rng);
        proof {
            let longer = walks.push(next@);
            assert forall|k: int| 0 <= k < longer.len() implies in_grid(
                (#[trigger] longer[k]).start,
            ) && is_stagger(longer[k].start, longer[k].draws) by {
                if k < walks.len() {
                    assert(longer[k] == walks[k]);
                }
            }
            assert forall|k: int| 1 <= k < longer.len() implies floor_count(
                #[trigger] caved(before, center, longer, k),
                NUM_TILES as int,
            ) < DESIRED_FLOOR by {
                lemma_caved_prefix(before, center, walks, longer, k);
            }
            lemma_caved_prefix(before, center, walks, longer, walks.len() as int);
            assert(longer[longer.len() - 1] == next@);
            assert(longer[0] == walks[0]);
            walks = longer;
        }
        floor = count_floor(map);
        more += 1;
    }
    let r: Result<(), GameError> = if floor >= DESIRED_FLOOR {
        Ok(())
    } else {
        Err(GameError::GenerationExhausted)
    };
    assert(cave_dug(before, center, walks, map.tiles@, r.is_err()));
    r
}

} // verus!
