//! Flow fields: for every tile, the length of a shortest walk from a goal tile
//! over floor tiles, moving in the four axis directions only.

use vstd::prelude::*;
use crate::geometry::{NUM_TILES, Point};
use crate::map::{spec_map_idx, TileMap, TileType, walkable};

verus! {

/// The distance carried by tiles that no walk shorter than `MAX_DEPTH` reaches.
pub const UNREACHABLE: u32 = 0xffff_ffff;

/// Walks of this many steps or more are not searched.
pub const MAX_DEPTH: u32 = 1024;

/// The neighbour of tile `idx` in direction `dir` (0 west, 1 east, 2 north,
/// 3 south), when that neighbour is on the grid.
pub open spec fn neighbor(idx: int, dir: int) -> Option<int> {
    if dir == 0 {
        if idx % 80 > 0 {
            Some(idx - 1)
        } else {
            None
        }
    } else if dir == 1 {
        if idx % 80 < 79 {
            Some(idx + 1)
        } else {
            None
        }
    } else if dir == 2 {
        if idx / 80 > 0 {
            Some(idx - 80)
        } else {
            None
        }
    } else {
        if idx / 80 < 49 {
            Some(idx + 80)
        } else {
            None
        }
    }
}

/// The direction that leads back.
pub open spec fn opposite(dir: int) -> int {
    if dir == 0 {
        1
    } else if dir == 1 {
        0
    } else if dir == 2 {
        3
    } else {
        2
    }
}

/// Whether tile `t` has a neighbour in direction `dir` that some walk of at
/// most `k` steps reaches.
pub open spec fn reached_through(
    tiles: Seq<TileType>,
    goals: Seq<usize>,
    k: nat,
    t: int,
    dir: int,
) -> bool
    decreases k, 1nat,
{
    match neighbor(t, dir) {
        Some(n) => within(tiles, goals, k, n),
        None => false,
    }
}

/// Whether some walk of at most `k` steps leads from a goal tile to `t`. A
/// walk starts on any goal tile of the grid and enters floor tiles only.
pub open spec fn within(tiles: Seq<TileType>, goals: Seq<usize>, k: nat, t: int) -> bool
    decreases k, 0nat,
{
    if k == 0 {
        0 <= t < NUM_TILES && goals.contains(t as usize)
    } else {
        within(tiles, goals, (k - 1) as nat, t) || (walkable(tiles, t) && (reached_through(
            tiles,
            goals,
            (k - 1) as nat,
            t,
            0,
        ) || reached_through(tiles, goals, (k - 1) as nat, t, 1) || reached_through(
            tiles,
            goals,
            (k - 1) as nat,
            t,
            2,
        ) || reached_through(tiles, goals, (k - 1) as nat, t, 3)))
    }
}

/// Whether `d` is the flow distance of tile `t`: the least number of steps in
/// which a walk reaches it, or `UNREACHABLE` when no walk shorter than
/// `MAX_DEPTH` does.
pub open spec fn is_flow_distance(tiles: Seq<TileType>, goals: Seq<usize>, t: int, d: u32) -> bool {
    if d == UNREACHABLE {
        !within(tiles, goals, (MAX_DEPTH - 1) as nat, t)
    } else {
        d < MAX_DEPTH && within(tiles, goals, d as nat, t) && (d > 0 ==> !within(
            tiles,
            goals,
            (d - 1) as nat,
            t,
        ))
    }
}

/// A walk that reaches a tile within `k` steps reaches it within any larger
/// number of steps.
pub proof fn lemma_within_monotonic(
    tiles: Seq<TileType>,
    goals: Seq<usize>,
    k: nat,
    m: nat,
    t: int,
)
    requires
        within(tiles, goals, k, t),
        k <= m,
    ensures
        within(tiles, goals, m, t),
    decreases m,
{
    if k < m {
        lemma_within_monotonic(tiles, goals, k, (m - 1) as nat, t);
    }
}

/// Only tiles of the grid are reached.
pub proof fn lemma_within_on_grid(tiles: Seq<TileType>, goals: Seq<usize>, k: nat, t: int)
    requires
        tiles.len() == NUM_TILES,
        within(tiles, goals, k, t),
    ensures
        0 <= t < NUM_TILES,
    decreases k,
{
    if k > 0 && within(tiles, goals, (k - 1) as nat, t) {
        lemma_within_on_grid(tiles, goals, (k - 1) as nat, t);
    }
}

/// Stepping to a neighbour and stepping back lead to the same tile.
pub proof fn lemma_neighbor_symmetric(t: int, dir: int)
    requires
        0 <= t < NUM_TILES,
        0 <= dir < 4,
        neighbor(t, dir).is_some(),
    ensures
        0 <= neighbor(t, dir).unwrap() < NUM_TILES,
        neighbor(neighbor(t, dir).unwrap(), opposite(dir)) == Some(t),
{
}

/// One more step from a reached tile onto a neighbouring floor tile.
pub proof fn lemma_within_step(
    tiles: Seq<TileType>,
    goals: Seq<usize>,
    k: nat,
    n: int,
    dir: int,
    t: int,
)
    requires
        0 <= n < NUM_TILES,
        0 <= dir < 4,
        within(tiles, goals, k, n),
        neighbor(n, dir) == Some(t),
        walkable(tiles, t),
    ensures
        within(tiles, goals, k + 1, t),
{
    lemma_neighbor_symmetric(n, dir);
    assert(reached_through(tiles, goals, k, t, opposite(dir)));
}

/// A tile first reached with the `k`-th step is a floor tile next to a tile
/// reached one step earlier.
pub proof fn lemma_within_last_step(tiles: Seq<TileType>, goals: Seq<usize>, k: nat, t: int)
    requires
        k > 0,
        within(tiles, goals, k, t),
        !within(tiles, goals, (k - 1) as nat, t),
    ensures
        walkable(tiles, t),
        exists|dir: int|
            0 <= dir < 4 && #[trigger] reached_through(tiles, goals, (k - 1) as nat, t, dir),
{
    let j = (k - 1) as nat;
    if reached_through(tiles, goals, j, t, 0) {
    } else if reached_through(tiles, goals, j, t, 1) {
    } else if reached_through(tiles, goals, j, t, 2) {
    } else {
        assert(reached_through(tiles, goals, j, t, 3));
    }
}

/// A tile has at most one flow distance.
pub proof fn lemma_flow_distance_unique(
    tiles: Seq<TileType>,
    goals: Seq<usize>,
    t: int,
    d1: u32,
    d2: u32,
)
    requires
        is_flow_distance(tiles, goals, t, d1),
        is_flow_distance(tiles, goals, t, d2),
    ensures
        d1 == d2,
{
    if d1 != d2 {
        let (lo, hi) = if d1 < d2 {
            (d1, d2)
        } else {
            (d2, d1)
        };
        assert(within(tiles, goals, lo as nat, t));
        if hi == UNREACHABLE {
            lemma_within_monotonic(tiles, goals, lo as nat, (MAX_DEPTH - 1) as nat, t);
        } else {
            lemma_within_monotonic(tiles, goals, lo as nat, (hi - 1) as nat, t);
        }
    }
}

/// Whether one step leads from tile `a` to tile `b`.
pub open spec fn adjacent(a: int, b: int) -> bool {
    exists|dir: int| 0 <= dir < 4 && #[trigger] neighbor(a, dir) == Some(b)
}

/// Whether `path` is a walk: it starts on a goal tile of the grid, every
/// step leads to a tile next to the one before, and every tile entered is a
/// floor tile.
pub open spec fn is_walk(tiles: Seq<TileType>, goals: Seq<usize>, path: Seq<int>) -> bool {
    &&& path.len() >= 1
    &&& 0 <= path[0] < NUM_TILES
    &&& goals.contains(path[0] as usize)
    &&& forall|i: int|
        1 <= i < path.len()
            ==> walkable(tiles, #[trigger] path[i]) && adjacent(path[i - 1], path[i])
}

/// Where a walk of `n` steps ends, a walk of at most `n` steps is counted.
pub proof fn lemma_walk_is_within(tiles: Seq<TileType>, goals: Seq<usize>, path: Seq<int>)
    requires
        tiles.len() == NUM_TILES,
        is_walk(tiles, goals, path),
    ensures
        within(tiles, goals, (path.len() - 1) as nat, path.last()),
    decreases path.len(),
{
    if path.len() > 1 {
        let shorter = path.drop_last();
        let last = path.len() - 1;
        assert forall|i: int| 1 <= i < shorter.len() implies walkable(tiles, #[trigger] shorter[i])
            && adjacent(shorter[i - 1], shorter[i]) by {
            assert(shorter[i] == path[i] && shorter[i - 1] == path[i - 1]);
        }
        assert(shorter[0] == path[0]);
        lemma_walk_is_within(tiles, goals, shorter);
        assert(shorter.last() == path[last - 1]);
        lemma_within_on_grid(tiles, goals, (last - 1) as nat, path[last - 1]);
        assert(adjacent(path[last - 1], path[last]));
        let dir = choose|dir: int|
            0 <= dir < 4 && #[trigger] neighbor(path[last - 1], dir) == Some(path[last]);
        lemma_within_step(tiles, goals, (last - 1) as nat, path[last - 1], dir, path[last]);
    }
}

/// Every tile counted within `k` steps is the end of a walk of at most `k`
/// steps.
pub proof fn lemma_within_has_walk(tiles: Seq<TileType>, goals: Seq<usize>, k: nat, t: int) -> (path:
    Seq<int>)
    requires
        tiles.len() == NUM_TILES,
        within(tiles, goals, k, t),
    ensures
        is_walk(tiles, goals, path),
        path.last() == t,
        path.len() - 1 <= k,
    decreases k,
{
    if k == 0 {
        seq![t]
    } else if within(tiles, goals, (k - 1) as nat, t) {
        lemma_within_has_walk(tiles, goals, (k - 1) as nat, t)
    } else {
        lemma_within_last_step(tiles, goals, k, t);
        let dir = choose|dir: int|
            0 <= dir < 4 && #[trigger] reached_through(tiles, goals, (k - 1) as nat, t, dir);
        let n = neighbor(t, dir).unwrap();
        let shorter = lemma_within_has_walk(tiles, goals, (k - 1) as nat, n);
        let path = shorter.push(t);
        lemma_neighbor_symmetric(t, dir);
        assert(neighbor(n, opposite(dir)) == Some(t));
        assert(adjacent(n, t));
        assert forall|i: int| 1 <= i < path.len() implies walkable(tiles, #[trigger] path[i])
            && adjacent(path[i - 1], path[i]) by {
            if i < shorter.len() {
                assert(path[i] == shorter[i] && path[i - 1] == shorter[i - 1]);
            } else {
                assert(path[i] == t && path[i - 1] == shorter.last());
            }
        }
        assert(path[0] == shorter[0]);
        path
    }
}

/// The flow distance of a tile is the length of a shortest walk to it: a
/// walk of that many steps ends there, and no walk that ends there is
/// shorter. An unreachable tile is the end of no walk shorter than
/// `MAX_DEPTH`.
pub proof fn lemma_flow_distance_is_shortest(
    tiles: Seq<TileType>,
    goals: Seq<usize>,
    t: int,
    d: u32,
    path: Seq<int>,
)
    requires
        tiles.len() == NUM_TILES,
        is_flow_distance(tiles, goals, t, d),
        is_walk(tiles, goals, path),
        path.last() == t,
    ensures
        d != UNREACHABLE ==> path.len() - 1 >= d,
        d == UNREACHABLE ==> path.len() - 1 >= MAX_DEPTH,
        d != UNREACHABLE ==> exists|shortest: Seq<int>| #[trigger]
            is_walk(tiles, goals, shortest) && shortest.last() == t && shortest.len() - 1 == d,
{
    lemma_walk_is_within(tiles, goals, path);
    let n = (path.len() - 1) as nat;
    if d == UNREACHABLE {
        if n < MAX_DEPTH {
            lemma_within_monotonic(tiles, goals, n, (MAX_DEPTH - 1) as nat, t);
        }
    } else {
        if n < d {
            lemma_within_monotonic(tiles, goals, n, (d - 1) as nat, t);
        }
        let shortest = lemma_within_has_walk(tiles, goals, d as nat, t);
        if shortest.len() - 1 < d {
            lemma_walk_is_within(tiles, goals, shortest);
            lemma_within_monotonic(tiles, goals, (shortest.len() - 1) as nat, (d - 1) as nat, t);
        }
        assert(is_walk(tiles, goals, shortest) && shortest.last() == t && shortest.len() - 1 == d);
    }
}

/// Whether every floor tile is reached from the tile at `start` by a walk
/// that is shorter than `MAX_DEPTH`.
pub open spec fn connected_from(tiles: Seq<TileType>, start: Point) -> bool {
    forall|t: int|
        0 <= t < NUM_TILES && #[trigger] tiles[t] == TileType::Floor ==> within(
            tiles,
            seq![spec_map_idx(start.x as int, start.y as int) as usize],
            (MAX_DEPTH - 1) as nat,
            t,
        )
}

/// The flow distance of tile `t` from `goals` over `tiles`.
pub open spec fn flow_distance(tiles: Seq<TileType>, goals: Seq<usize>, t: int) -> u32 {
    choose|d: u32| is_flow_distance(tiles, goals, t, d)
}

/// The flow distances of all tiles, in index order.
pub open spec fn flow_distances(tiles: Seq<TileType>, goals: Seq<usize>) -> Seq<u32> {
    Seq::new(NUM_TILES as nat, |t: int| flow_distance(tiles, goals, t))
}

/// A flow field: one distance per tile.
#[derive(Clone, Debug)]
pub struct FlowField {
    pub distances: Vec<u32>,
}

impl FlowField {
    /// The field holds one distance per tile of the grid.
    pub open spec fn wf(&self) -> bool {
        self.distances@.len() == NUM_TILES
    }

    /// Every tile carries its flow distance from `goals` over `tiles`.
    pub open spec fn describes(&self, tiles: Seq<TileType>, goals: Seq<usize>) -> bool {
        &&& self.wf()
        &&& forall|t: int|
            0 <= t < NUM_TILES ==> is_flow_distance(tiles, goals, t, #[trigger] self.distances@[t])
    }
}

/// The neighbour of `idx` in direction `dir`, when it is on the grid.
pub fn neighbor_index(idx: usize, dir: u8) -> (r: Option<usize>)
    requires
        idx < NUM_TILES,
        dir < 4,
    ensures
        match r {
            Some(n) => n < NUM_TILES && neighbor(idx as int, dir as int) == Some(n as int),
            None => neighbor(idx as int, dir as int).is_none(),
        },
{
    if dir == 0 {
        if idx % 80 > 0 {
            Some(idx - 1)
        } else {
            None
        }
    } else if dir == 1 {
        if idx % 80 < 79 {
            Some(idx + 1)
        } else {
            None
        }
    } else if dir == 2 {
        if idx / 80 > 0 {
            Some(idx - 80)
        } else {
            None
        }
    } else {
        if idx / 80 < 49 {
            Some(idx + 80)
        } else {
            None
        }
    }
}

/// What holds between two rounds of the search: every distance up to `k` is
/// final, and `frontier` lists the tiles at distance `k`.
spec fn level_inv(
    tiles: Seq<TileType>,
    goals: Seq<usize>,
    dist: Seq<u32>,
    frontier: Seq<usize>,
    k: nat,
) -> bool {
    &&& dist.len() == NUM_TILES
    &&& tiles.len() == NUM_TILES
    &&& k < MAX_DEPTH
    &&& forall|t: int|
        0 <= t < NUM_TILES && #[trigger] dist[t] != UNREACHABLE ==> dist[t] <= k
            && is_flow_distance(tiles, goals, t, dist[t])
    &&& forall|t: int|
        0 <= t < NUM_TILES && #[trigger] dist[t] == UNREACHABLE ==> !within(tiles, goals, k, t)
    &&& forall|i: int|
        0 <= i < frontier.len() ==> #[trigger] frontier[i] < NUM_TILES && dist[frontier[i] as int]
            == k
    &&& forall|t: int|
        0 <= t < NUM_TILES && #[trigger] dist[t] == k ==> frontier.contains(t as usize)
}

/// What holds in the middle of a round, after the first `done` pairs of a
/// frontier tile and a direction have been looked at.
spec fn expanding(
    tiles: Seq<TileType>,
    goals: Seq<usize>,
    before: Seq<u32>,
    dist: Seq<u32>,
    frontier: Seq<usize>,
    next: Seq<usize>,
    k: nat,
    done: int,
) -> bool {
    &&& dist.len() == NUM_TILES
    &&& forall|t: int|
        0 <= t < NUM_TILES && #[trigger] before[t] != UNREACHABLE ==> dist[t] == before[t]
    &&& forall|t: int|
        0 <= t < NUM_TILES && #[trigger] before[t] == UNREACHABLE ==> dist[t] == UNREACHABLE || (
        dist[t] == k + 1 && within(tiles, goals, k + 1, t) && next.contains(t as usize))
    &&& forall|j: int|
        0 <= j < next.len() ==> #[trigger] next[j] < NUM_TILES && dist[next[j] as int] == k + 1
    &&& forall|i: int, dir: int|
        0 <= i < frontier.len() && 0 <= dir < 4 && i * 4 + dir < done ==> settled(
            tiles,
            dist,
            #[trigger] neighbor(frontier[i] as int, dir),
        )
}

/// The tile `n`, if there is one and it is a floor tile, has its distance.
spec fn settled(tiles: Seq<TileType>, dist: Seq<u32>, n: Option<int>) -> bool {
    match n {
        Some(n) => walkable(tiles, n) ==> dist[n] != UNREACHABLE,
        None => true,
    }
}

/// What a list holds it still holds after a push, and the pushed value
/// with it.
proof fn lemma_push_contains(s: Seq<usize>, v: usize, x: usize)
    requires
        s.contains(x) || x == v,
    ensures
        s.push(v).contains(x),
{
    if x == v {
        assert(s.push(v)[s.len() as int] == x);
    } else {
        let i = choose|i: int| 0 <= i < s.len() && s[i] == x;
        assert(s.push(v)[i] == x);
    }
}

/// Looks at one neighbour of the frontier tile `f`: a floor tile without a
/// distance gets distance `depth + 1` and joins the next frontier.
fn relax(
    tiles: &Vec<TileType>,
    dist: &mut Vec<u32>,
    next: &mut Vec<usize>,
    f: usize,
    dir: u8,
    depth: u32,
)
    requires
        tiles@.len() == NUM_TILES,
        old(dist)@.len() == NUM_TILES,
        f < NUM_TILES,
        dir < 4,
        depth < MAX_DEPTH,
    ensures
        match neighbor(f as int, dir as int) {
            Some(n) => if walkable(tiles@, n) && old(dist)@[n] == UNREACHABLE {
                final(dist)@ == old(dist)@.update(n, (depth + 1) as u32) && final(next)@ == old(
                    next,
                )@.push(n as usize)
            } else {
                final(dist)@ == old(dist)@ && final(next)@ == old(next)@
            },
            None => final(dist)@ == old(dist)@ && final(next)@ == old(next)@,
        },
{
    match neighbor_index(f, dir) {
        Some(n) => {
            if matches!(tiles[n], TileType::Floor) && dist[n] == UNREACHABLE {
                dist.set(n, depth + 1);
                next.push(n);
            }
        },
        None => {},
    }
}

/// Looking at one more pair keeps what holds in the middle of a round.
proof fn lemma_expand_step(
    tiles: Seq<TileType>,
    goals: Seq<usize>,
    before: Seq<u32>,
    dist0: Seq<u32>,
    dist1: Seq<u32>,
    frontier: Seq<usize>,
    next0: Seq<usize>,
    next1: Seq<usize>,
    k: nat,
    i: int,
    dir: int,
)
    requires
        level_inv(tiles, goals, before, frontier, k),
        k + 1 < MAX_DEPTH,
        expanding(tiles, goals, before, dist0, frontier, next0, k, i * 4 + dir),
        0 <= i < frontier.len(),
        0 <= dir < 4,
        match neighbor(frontier[i] as int, dir) {
            Some(n) => if walkable(tiles, n) && dist0[n] == UNREACHABLE {
                dist1 == dist0.update(n, (k + 1) as u32) && next1 == next0.push(n as usize)
            } else {
                dist1 == dist0 && next1 == next0
            },
            None => dist1 == dist0 && next1 == next0,
        },
    ensures
        expanding(tiles, goals, before, dist1, frontier, next1, k, i * 4 + dir + 1),
{
    let f = frontier[i] as int;
    assert(before[f] == k);
    assert(is_flow_distance(tiles, goals, f, before[f]));
    assert(within(tiles, goals, k, f));
    let changed = match neighbor(f, dir) {
        Some(n) => walkable(tiles, n) && dist0[n] == UNREACHABLE,
        None => false,
    };
    if changed {
        let n = neighbor(f, dir).unwrap();
        lemma_neighbor_symmetric(f, dir);
        lemma_within_step(tiles, goals, k, f, dir, n);
        assert(before[n] == UNREACHABLE);
        assert forall|t: int| 0 <= t < NUM_TILES && #[trigger] before[t] == UNREACHABLE implies (
        dist1[t] == UNREACHABLE || (dist1[t] == k + 1 && within(tiles, goals, k + 1, t)
            && next1.contains(t as usize))) by {
            if t == n {
                lemma_push_contains(next0, n as usize, t as usize);
            } else if dist0[t] != UNREACHABLE {
                lemma_push_contains(next0, n as usize, t as usize);
            }
        }
        assert forall|j: int| 0 <= j < next1.len() implies #[trigger] next1[j] < NUM_TILES
            && dist1[next1[j] as int] == k + 1 by {
            if j < next0.len() {
                assert(next1[j] == next0[j]);
            }
        }
    }
    assert forall|i2: int, dir2: int|
        0 <= i2 < frontier.len() && 0 <= dir2 < 4
            && i2 * 4 + dir2 < i * 4 + dir + 1 implies settled(
        tiles,
        dist1,
        #[trigger] neighbor(frontier[i2] as int, dir2),
    ) by {
        if i2 * 4 + dir2 < i * 4 + dir {
            assert(settled(tiles, dist0, neighbor(frontier[i2] as int, dir2)));
            lemma_neighbor_grid(frontier[i2] as int, dir2);
        } else {
            assert(i2 == i && dir2 == dir);
            lemma_neighbor_grid(f, dir);
        }
    }
}

/// Neighbours lie on the grid.
proof fn lemma_neighbor_grid(t: int, dir: int)
    requires
        0 <= t < NUM_TILES,
        0 <= dir < 4,
    ensures
        neighbor(t, dir).is_some() ==> 0 <= neighbor(t, dir).unwrap() < NUM_TILES,
{
}

/// Once every pair of the round has been looked at, the next round starts
/// from the tiles that got their distance in this one.
proof fn lemma_level_done(
    tiles: Seq<TileType>,
    goals: Seq<usize>,
    before: Seq<u32>,
    dist: Seq<u32>,
    frontier: Seq<usize>,
    next: Seq<usize>,
    k: nat,
)
    requires
        level_inv(tiles, goals, before, frontier, k),
        k + 1 < MAX_DEPTH,
        expanding(tiles, goals, before, dist, frontier, next, k, (frontier.len() * 4) as int),
    ensures
        level_inv(tiles, goals, dist, next, k + 1),
{
    assert forall|t: int| 0 <= t < NUM_TILES && #[trigger] dist[t] != UNREACHABLE implies dist[t]
        <= k + 1 && is_flow_distance(tiles, goals, t, dist[t]) by {
        if before[t] != UNREACHABLE {
        } else {
            assert(!within(tiles, goals, k, t));
        }
    }
    assert forall|t: int| 0 <= t < NUM_TILES && #[trigger] dist[t] == UNREACHABLE implies !within(
        tiles,
        goals,
        k + 1,
        t,
    ) by {
        assert(before[t] == UNREACHABLE);
        assert(!within(tiles, goals, k, t));
        if within(tiles, goals, k + 1, t) {
            lemma_within_last_step(tiles, goals, k + 1, t);
            let dir = choose|dir: int|
                0 <= dir < 4 && #[trigger] reached_through(tiles, goals, k, t, dir);
            let n = neighbor(t, dir).unwrap();
            lemma_neighbor_symmetric(t, dir);
            assert(within(tiles, goals, k, n));
            assert(before[n] != UNREACHABLE);
            if before[n] == k {
                assert(frontier.contains(n as usize));
                let i = choose|i: int| 0 <= i < frontier.len() && frontier[i] == n as usize;
                assert(i * 4 + opposite(dir) < frontier.len() * 4);
                assert(settled(tiles, dist, neighbor(frontier[i] as int, opposite(dir))));
            } else {
                assert(is_flow_distance(tiles, goals, n, before[n]));
                lemma_within_step(tiles, goals, before[n] as nat, n, opposite(dir), t);
                lemma_within_monotonic(tiles, goals, (before[n] + 1) as nat, k, t);
            }
        }
    }
    assert forall|t: int| 0 <= t < NUM_TILES && #[trigger] dist[t] == k + 1 implies next.contains(
        t as usize,
    ) by {
        if before[t] != UNREACHABLE {
        }
    }
}

/// With no tile at distance `k`, no walk of any length reaches a tile that
/// has no distance yet.
proof fn lemma_exhausted(
    tiles: Seq<TileType>,
    goals: Seq<usize>,
    dist: Seq<u32>,
    frontier: Seq<usize>,
    k: nat,
    m: nat,
    t: int,
)
    requires
        level_inv(tiles, goals, dist, frontier, k),
        frontier.len() == 0,
        0 <= t < NUM_TILES,
        dist[t] == UNREACHABLE,
    ensures
        !within(tiles, goals, m, t),
    decreases m,
{
    if m <= k {
        if within(tiles, goals, m, t) {
            lemma_within_monotonic(tiles, goals, m, k, t);
        }
    } else {
        lemma_exhausted(tiles, goals, dist, frontier, k, (m - 1) as nat, t);
        if within(tiles, goals, m, t) {
            lemma_within_last_step(tiles, goals, m, t);
            let dir = choose|dir: int|
                0 <= dir < 4 && #[trigger] reached_through(tiles, goals, (m - 1) as nat, t, dir);
            let n = neighbor(t, dir).unwrap();
            lemma_neighbor_symmetric(t, dir);
            if dist[n] == UNREACHABLE {
                lemma_exhausted(tiles, goals, dist, frontier, k, (m - 1) as nat, n);
            } else {
                assert(is_flow_distance(tiles, goals, n, dist[n]));
                if dist[n] == k {
                    assert(frontier.contains(n as usize));
                } else {
                    lemma_within_step(tiles, goals, dist[n] as nat, n, opposite(dir), t);
                    lemma_within_monotonic(tiles, goals, (dist[n] + 1) as nat, k, t);
                }
            }
        }
    }
}

impl FlowField {
    /// Searches outward from the goal tiles, one round per step, and gives
    /// every tile its flow distance. Goals off the grid are ignored.
    pub fn new(goals: &Vec<usize>, map: &TileMap) -> (field: FlowField)
        requires
            map.wf(),
        ensures
            field.describes(map.tiles@, goals@),
            field.distances@ == flow_distances(map.tiles@, goals@),
    {
        let ghost tiles = map.tiles@;
        let mut dist: Vec<u32> = Vec::new();
        let mut c: usize = 0;
        while c < NUM_TILES
            invariant
                c <= NUM_TILES,
                dist@.len() == c,
                forall|t: int| 0 <= t < c ==> dist@[t] == UNREACHABLE,
            decreases NUM_TILES - c,
        {
            dist.push(UNREACHABLE);
            c += 1;
        }
        let mut frontier: Vec<usize> = Vec::new();
        let mut g: usize = 0;
        while g < goals.len()
            invariant
                g <= goals.len(),
                dist@.len() == NUM_TILES,
                forall|t: int|
                    0 <= t < NUM_TILES ==> #[trigger] dist@[t] == 0 || dist@[t] == UNREACHABLE,
                forall|t: int|
                    0 <= t < NUM_TILES && #[trigger] dist@[t] == 0 ==> goals@.contains(t as usize)
                        && frontier@.contains(t as usize),
                forall|j: int| 0 <= j < g && goals@[j] < NUM_TILES ==> dist@[goals@[j] as int] == 0,
                forall|i: int|
                    0 <= i < frontier@.len() ==> #[trigger] frontier@[i] < NUM_TILES
                        && dist@[frontier@[i] as int] == 0,
            decreases goals.len() - g,
        {
            let goal: usize = goals[g];
            if goal < NUM_TILES && dist[goal] == UNREACHABLE {
                let ghost frontier0 = frontier@;
                dist.set(goal, 0);
                frontier.push(goal);
                proof {
                    assert forall|t: int| 0 <= t < NUM_TILES && #[trigger] dist@[t] == 0 implies (
                    goals@.contains(t as usize) && frontier@.contains(t as usize)) by {
                        lemma_push_contains(frontier0, goal, t as usize);
                    }
                    assert forall|i: int| 0 <= i < frontier@.len() implies #[trigger] frontier@[i]
                        < NUM_TILES && dist@[frontier@[i] as int] == 0 by {
                        if i < frontier0.len() {
                            assert(frontier@[i] == frontier0[i]);
                        }
                    }
                }
            }
            g += 1;
        }
        let mut depth: u32 = 0;
        proof {
            assert forall|t: int| 0 <= t < NUM_TILES
                && #[trigger] dist@[t] == UNREACHABLE implies !within(
                tiles,
                goals@,
                0,
                t,
            ) by {
                if goals@.contains(t as usize) {
                    let j = choose|j: int| 0 <= j < goals@.len() && goals@[j] == t as usize;
                    assert(dist@[goals@[j] as int] == 0);
                }
            }
        }
        while frontier.len() > 0 && depth + 1 < MAX_DEPTH
            invariant
                tiles == map.tiles@,
                level_inv(tiles, goals@, dist@, frontier@, depth as nat),
            decreases MAX_DEPTH - depth,
        {
            let ghost before = dist@;
            let mut next: Vec<usize> = Vec::new();
            let mut i: usize = 0;
            while i < frontier.len()
                invariant
                    tiles == map.tiles@,
                    i <= frontier.len(),
                    depth + 1 < MAX_DEPTH,
                    level_inv(tiles, goals@, before, frontier@, depth as nat),
                    expanding(
                        tiles,
                        goals@,
                        before,
                        dist@,
                        frontier@,
                        next@,
                        depth as nat,
                        i * 4,
                    ),
                decreases frontier.len() - i,
            {
                let f: usize = frontier[i];
                let mut dir: u8 = 0;
                while dir < 4
                    invariant
                        tiles == map.tiles@,
                        i < frontier.len(),
                        f == frontier@[i as int],
                        f < NUM_TILES,
                        dir <= 4,
                        depth + 1 < MAX_DEPTH,
                        level_inv(tiles, goals@, before, frontier@, depth as nat),
                        expanding(
                            tiles,
                            goals@,
                            before,
                            dist@,
                            frontier@,
                            next@,
                            depth as nat,
                            i * 4 + dir,
                        ),
                    decreases 4 - dir,
                {
                    let ghost dist0 = dist@;
                    let ghost next0 = next@;
                    relax(&map.tiles, &mut dist, &mut next, f, dir, depth);
                    proof {
                        lemma_expand_step(
                            tiles,
                            goals@,
                            before,
                            dist0,
                            dist@,
                            frontier@,
                            next0,
                            next@,
                            depth as nat,
                            i as int,
                            dir as int,
                        );
                    }
                    dir += 1;
                }
                i += 1;
            }
            proof {
                lemma_level_done(tiles, goals@, before, dist@, frontier@, next@, depth as nat);
            }
            frontier = next;
            depth += 1;
        }
        proof {
            assert forall|t: int| 0 <= t < NUM_TILES implies is_flow_distance(
                tiles,
                goals@,
                t,
                #[trigger] dist@[t],
            ) by {
                if dist@[t] == UNREACHABLE {
                    if frontier@.len() == 0 {
                        lemma_exhausted(
                            tiles,
                            goals@,
                            dist@,
                            frontier@,
                            depth as nat,
                            (MAX_DEPTH - 1) as nat,
                            t,
                        );
                    }
                }
            }
            assert forall|t: int| 0 <= t < NUM_TILES implies dist@[t] == flow_distances(
                tiles,
                goals@,
            )[t] by {
                assert(is_flow_distance(tiles, goals@, t, dist@[t]));
                lemma_flow_distance_unique(
                    tiles,
                    goals@,
                    t,
                    dist@[t],
                    flow_distance(tiles, goals@, t),
                );
            }
            assert(dist@ =~= flow_distances(tiles, goals@));
        }
        FlowField { distances: dist }
    }
}

/// The floor tile next to `pos` in direction `dir`, if there is one.
pub open spec fn exit_at(tiles: Seq<TileType>, pos: int, dir: int) -> Option<int> {
    match neighbor(pos, dir) {
        Some(n) => if walkable(tiles, n) {
            Some(n)
        } else {
            None
        },
        None => None,
    }
}

/// The distance of the exit in direction `dir`; a value above every distance
/// where there is no exit.
pub open spec fn exit_distance(tiles: Seq<TileType>, dist: Seq<u32>, pos: int, dir: int) -> int {
    match exit_at(tiles, pos, dir) {
        Some(n) => dist[n] as int,
        None => 0x1_0000_0000,
    }
}

/// The first direction, in the order west, east, north, south, whose exit
/// distance is least.
pub open spec fn lowest_exit_dir(tiles: Seq<TileType>, dist: Seq<u32>, pos: int) -> int {
    let d0 = exit_distance(tiles, dist, pos, 0);
    let d1 = exit_distance(tiles, dist, pos, 1);
    let d2 = exit_distance(tiles, dist, pos, 2);
    let d3 = exit_distance(tiles, dist, pos, 3);
    if d0 <= d1 && d0 <= d2 && d0 <= d3 {
        0
    } else if d1 <= d2 && d1 <= d3 {
        1
    } else if d2 <= d3 {
        2
    } else {
        3
    }
}

/// The step of steepest descent from `pos`: the exit with the least distance,
/// the first such in direction order, provided that its distance is strictly
/// below that of `pos` itself.
pub open spec fn lowest_exit(tiles: Seq<TileType>, dist: Seq<u32>, pos: int) -> Option<int> {
    let dir = lowest_exit_dir(tiles, dist, pos);
    if exit_distance(tiles, dist, pos, dir) < dist[pos] {
        exit_at(tiles, pos, dir)
    } else {
        None
    }
}

/// The distance of the exit in direction `dir` and the exit itself; a
/// value above every distance where there is no exit.
fn exit_cost(field: &FlowField, map: &TileMap, position: usize, dir: u8) -> (r: (u64, usize))
    requires
        field.wf(),
        map.wf(),
        position < NUM_TILES,
        dir < 4,
    ensures
        r.0 == exit_distance(map.tiles@, field.distances@, position as int, dir as int),
        r.0 < 0x1_0000_0000 ==> exit_at(map.tiles@, position as int, dir as int) == Some(
            r.1 as int,
        ) && r.1 < NUM_TILES,
{
    match neighbor_index(position, dir) {
        Some(n) => {
            if matches!(map.tiles[n], TileType::Floor) {
                (field.distances[n] as u64, n)
            } else {
                (0x1_0000_0000, 0)
            }
        },
        None => (0x1_0000_0000, 0),
    }
}

impl FlowField {
    /// One step of steepest descent from `position`, or `None` when no exit
    /// has a smaller distance than `position` has, or `position` is off the
    /// grid.
    pub fn find_lowest_exit(&self, position: usize, map: &TileMap) -> (r: Option<usize>)
        requires
            self.wf(),
            map.wf(),
        ensures
            position >= NUM_TILES ==> r.is_none(),
            position < NUM_TILES ==> match r {
                Some(n) => n < NUM_TILES && lowest_exit(
                    map.tiles@,
                    self.distances@,
                    position as int,
                ) == Some(n as int),
                None => lowest_exit(map.tiles@, self.distances@, position as int).is_none(),
            },
    {
        if position >= NUM_TILES {
            return None;
        }
        let e0 = exit_cost(self, map, position, 0);
        let e1 = exit_cost(self, map, position, 1);
        let e2 = exit_cost(self, map, position, 2);
        let e3 = exit_cost(self, map, position, 3);
        let best = if e0.0 <= e1.0 && e0.0 <= e2.0 && e0.0 <= e3.0 {
            e0
        } else if e1.0 <= e2.0 && e1.0 <= e3.0 {
            e1
        } else if e2.0 <= e3.0 {
            e2
        } else {
            e3
        };
        if best.0 < self.distances[position] as u64 {
            Some(best.1)
        } else {
            None
        }
    }
}

/// From the goal itself no step is taken.
pub proof fn lemma_no_step_at_goal(tiles: Seq<TileType>, dist: Seq<u32>, pos: int)
    requires
        dist[pos] == 0,
    ensures
        lowest_exit(tiles, dist, pos).is_none(),
{
}

/// Where no exit has a smaller distance than the tile itself, no step is
/// taken.
pub proof fn lemma_no_step_without_improvement(tiles: Seq<TileType>, dist: Seq<u32>, pos: int)
    requires
        forall|dir: int| 0 <= dir < 4 ==> exit_distance(tiles, dist, pos, dir) >= dist[pos],
    ensures
        lowest_exit(tiles, dist, pos).is_none(),
{
}

/// In a flow field no exit of a tile at distance `d` is closer to the goals
/// than `d - 1`.
pub proof fn lemma_exits_not_closer(
    tiles: Seq<TileType>,
    goals: Seq<usize>,
    field: FlowField,
    pos: int,
    dir: int,
)
    requires
        tiles.len() == NUM_TILES,
        field.describes(tiles, goals),
        0 <= pos < NUM_TILES,
        0 <= dir < 4,
        0 < field.distances@[pos] < UNREACHABLE,
    ensures
        exit_distance(tiles, field.distances@, pos, dir) >= field.distances@[pos] - 1,
{
    let dist = field.distances@;
    let d = dist[pos];
    assert(is_flow_distance(tiles, goals, pos, dist[pos]));
    lemma_within_last_step(tiles, goals, d as nat, pos);
    if exit_at(tiles, pos, dir).is_some() {
        let m = exit_at(tiles, pos, dir).unwrap();
        lemma_neighbor_symmetric(pos, dir);
        assert(is_flow_distance(tiles, goals, m, dist[m]));
        if dist[m] < d - 1 {
            lemma_within_step(tiles, goals, dist[m] as nat, m, opposite(dir), pos);
            lemma_within_monotonic(tiles, goals, (dist[m] + 1) as nat, (d - 1) as nat, pos);
        }
    }
}

/// In a flow field, a tile at distance `d > 0` that has exactly one exit at
/// distance `d - 1` steps to that exit.
pub proof fn lemma_single_descent(
    tiles: Seq<TileType>,
    goals: Seq<usize>,
    field: FlowField,
    pos: int,
    dir: int,
)
    requires
        tiles.len() == NUM_TILES,
        field.describes(tiles, goals),
        0 <= pos < NUM_TILES,
        0 <= dir < 4,
        0 < field.distances@[pos] < UNREACHABLE,
        exit_distance(tiles, field.distances@, pos, dir) == field.distances@[pos] - 1,
        forall|other: int|
            0 <= other < 4 && other != dir ==> exit_distance(tiles, field.distances@, pos, other)
                != field.distances@[pos] - 1,
    ensures
        lowest_exit(tiles, field.distances@, pos) == exit_at(tiles, pos, dir),
        exit_at(tiles, pos, dir).is_some(),
{
    lemma_exits_not_closer(tiles, goals, field, pos, 0);
    lemma_exits_not_closer(tiles, goals, field, pos, 1);
    lemma_exits_not_closer(tiles, goals, field, pos, 2);
    lemma_exits_not_closer(tiles, goals, field, pos, 3);
}

/// In a flow field whose goals are floor tiles, every tile at a distance
/// `d > 0` has a step, and the step leads to a tile at distance `d - 1`.
pub proof fn lemma_descent_reaches_goal(
    tiles: Seq<TileType>,
    goals: Seq<usize>,
    field: FlowField,
    pos: int,
)
    requires
        tiles.len() == NUM_TILES,
        field.describes(tiles, goals),
        forall|j: int| 0 <= j < goals.len() ==> walkable(tiles, #[trigger] goals[j] as int),
        0 <= pos < NUM_TILES,
        0 < field.distances@[pos] < UNREACHABLE,
    ensures
        lowest_exit(tiles, field.distances@, pos).is_some(),
        field.distances@[lowest_exit(tiles, field.distances@, pos).unwrap()]
            == field.distances@[pos] - 1,
{
    let dist = field.distances@;
    let d = dist[pos];
    lemma_exits_not_closer(tiles, goals, field, pos, 0);
    lemma_exits_not_closer(tiles, goals, field, pos, 1);
    lemma_exits_not_closer(tiles, goals, field, pos, 2);
    lemma_exits_not_closer(tiles, goals, field, pos, 3);
    assert(is_flow_distance(tiles, goals, pos, dist[pos]));
    lemma_within_last_step(tiles, goals, d as nat, pos);
    let dir = choose|dir: int|
        0 <= dir < 4 && #[trigger] reached_through(tiles, goals, (d - 1) as nat, pos, dir);
    let n = neighbor(pos, dir).unwrap();
    lemma_neighbor_symmetric(pos, dir);
    assert(is_flow_distance(tiles, goals, n, dist[n]));
    // the neighbour is a floor tile: a goal, or a tile that a walk entered
    if within(tiles, goals, 0, n) {
        let j = choose|j: int| 0 <= j < goals.len() && goals[j] == n as usize;
        assert(walkable(tiles, goals[j] as int));
    } else {
        lemma_floor_beyond_goals(tiles, goals, (d - 1) as nat, n);
    }
    assert(exit_at(tiles, pos, dir) == Some(n));
    if dist[n] == UNREACHABLE {
        lemma_within_monotonic(tiles, goals, (d - 1) as nat, (MAX_DEPTH - 1) as nat, n);
    } else if dist[n] > d - 1 {
        lemma_within_monotonic(tiles, goals, (d - 1) as nat, (dist[n] - 1) as nat, n);
    }
    assert(exit_distance(tiles, dist, pos, dir) == d - 1);
}

/// A reached tile that is no goal is a floor tile.
pub proof fn lemma_floor_beyond_goals(tiles: Seq<TileType>, goals: Seq<usize>, k: nat, t: int)
    requires
        within(tiles, goals, k, t),
        !within(tiles, goals, 0, t),
    ensures
        walkable(tiles, t),
    decreases k,
{
    if k > 0 && within(tiles, goals, (k - 1) as nat, t) {
        lemma_floor_beyond_goals(tiles, goals, (k - 1) as nat, t);
    }
}

} // verus!
