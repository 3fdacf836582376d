//! The tile grid: a fixed-size, row-major sequence of tiles together with the
//! memory of which tiles have been seen.

use vstd::prelude::*;
use crate::geometry::{in_grid, NUM_TILES, Point, SCREEN_HEIGHT, SCREEN_WIDTH};

verus! {

/// What a tile is made of.
#[derive(Clone, Copy, Debug, PartialEq, Eq, Structural)]
pub enum TileType {
    Wall,
    Floor,
}

/// The linear index of the tile at column `x`, row `y`.
pub open spec fn spec_map_idx(x: int, y: int) -> int {
    y * SCREEN_WIDTH + x
}

/// The point whose tile has linear index `idx`.
pub open spec fn spec_index_to_point(idx: int) -> Point {
    Point { x: (idx % (SCREEN_WIDTH as int)) as i32, y: (idx / (SCREEN_WIDTH as int)) as i32 }
}

/// Whether the tile with linear index `idx` is a floor tile.
pub open spec fn walkable(tiles: Seq<TileType>, idx: int) -> bool {
    0 <= idx < tiles.len() && tiles[idx] == TileType::Floor
}

/// Whether `p` is on the grid and its tile is a floor tile.
pub open spec fn floor_at(tiles: Seq<TileType>, p: Point) -> bool {
    in_grid(p) && tiles[spec_map_idx(p.x as int, p.y as int)] == TileType::Floor
}

/// Row-major index of a grid position.
pub fn map_idx(x: i32, y: i32) -> (idx: usize)
    requires
        0 <= x < SCREEN_WIDTH,
        0 <= y < SCREEN_HEIGHT,
    ensures
        idx == spec_map_idx(x as int, y as int),
        idx < NUM_TILES,
        spec_index_to_point(idx as int) == (Point { x, y }),
{
    (y * SCREEN_WIDTH + x) as usize
}

/// The grid position of a linear index.
pub fn index_to_point(idx: usize) -> (p: Point)
    requires
        idx < NUM_TILES,
    ensures
        p == spec_index_to_point(idx as int),
        in_grid(p),
        spec_map_idx(p.x as int, p.y as int) == idx,
{
    Point { x: (idx % 80) as i32, y: (idx / 80) as i32 }
}

/// The tiles of the grid, row by row, and for each tile whether it has
/// been seen.
#[derive(Clone, Debug)]
pub struct TileMap {
    pub tiles: Vec<TileType>,
    pub revealed_tiles: Vec<bool>,
}

impl TileMap {
    /// Both sequences hold one entry per tile of the grid.
    pub open spec fn wf(&self) -> bool {
        self.tiles@.len() == NUM_TILES && self.revealed_tiles@.len() == NUM_TILES
    }

    /// No tile has been seen yet.
    pub open spec fn unexplored(&self) -> bool {
        forall|t: int| 0 <= t < NUM_TILES ==> !#[trigger] self.revealed_tiles@[t]
    }

    /// Whether `p` is on the grid and its tile is a floor tile.
    pub open spec fn enterable(&self, p: Point) -> bool {
        floor_at(self.tiles@, p)
    }

    /// A grid of floor tiles, none of them seen yet.
    pub fn new() -> (m: TileMap)
        ensures
            m.wf(),
            forall|i: int| 0 <= i < NUM_TILES ==> m.tiles@[i] == TileType::Floor,
            forall|i: int| 0 <= i < NUM_TILES ==> !m.revealed_tiles@[i],
    {
        TileMap::filled(TileType::Floor)
    }

    /// A grid whose tiles all have the given type, none of them seen yet.
    pub fn filled(tile: TileType) -> (m: TileMap)
        ensures
            m.wf(),
            forall|i: int| 0 <= i < NUM_TILES ==> m.tiles@[i] == tile,
            forall|i: int| 0 <= i < NUM_TILES ==> !m.revealed_tiles@[i],
    {
        let mut tiles: Vec<TileType> = Vec::new();
        let mut revealed_tiles: Vec<bool> = Vec::new();
        let mut i: usize = 0;
        while i < NUM_TILES
            invariant
                i <= NUM_TILES,
                tiles@.len() == i,
                revealed_tiles@.len() == i,
                forall|j: int| 0 <= j < i ==> tiles@[j] == tile,
                forall|j: int| 0 <= j < i ==> !revealed_tiles@[j],
            decreases NUM_TILES - i,
        {
            tiles.push(tile);
            revealed_tiles.push(false);
            i += 1;
        }
        TileMap { tiles, revealed_tiles }
    }

    /// Whether the grid is complete, found out by looking.
    pub fn is_sound(&self) -> (b: bool)
        ensures
            b == self.wf(),
    {
        self.tiles.len() == NUM_TILES && self.revealed_tiles.len() == NUM_TILES
    }

    /// Whether `point` lies on the grid.
    pub fn in_bounds(&self, point: Point) -> (b: bool)
        ensures
            b == in_grid(point),
    {
        point.x >= 0 && point.x < SCREEN_WIDTH && point.y >= 0 && point.y < SCREEN_HEIGHT
    }

    /// The linear index of `point`, when it is on the grid.
    pub fn try_idx(&self, point: Point) -> (r: Option<usize>)
        ensures
            r.is_some() <==> in_grid(point),
            r.is_some() ==> r.unwrap() == spec_map_idx(point.x as int, point.y as int)
                && r.unwrap() < NUM_TILES,
    {
        if !self.in_bounds(point) {
            None
        } else {
            Some(map_idx(point.x, point.y))
        }
    }

    /// Whether `point` lies on the grid and its tile is floor. Who stands
    /// there is not the map's business.
    pub fn can_enter_tile(&self, point: Point) -> (b: bool)
        requires
            self.wf(),
        ensures
            b == self.enterable(point),
    {
        self.in_bounds(point) && matches!(self.tiles[map_idx(point.x, point.y)], TileType::Floor)
    }

    /// Turns the tile at `idx` into `tile`, leaving every other tile and the
    /// exploration memory as they were.
    pub fn set_tile(&mut self, idx: usize, tile: TileType)
        requires
            old(self).wf(),
            idx < NUM_TILES,
        ensures
            final(self).wf(),
            final(self).tiles@ == old(self).tiles@.update(idx as int, tile),
            final(self).revealed_tiles@ == old(self).revealed_tiles@,
    {
        self.tiles.set(idx, tile);
    }

    /// Records the tile at `idx` as seen, leaving the tiles and the rest of
    /// the exploration memory as they were.
    pub fn mark_revealed(&mut self, idx: usize)
        requires
            old(self).wf(),
            idx < NUM_TILES,
        ensures
            final(self).wf(),
            final(self).tiles@ == old(self).tiles@,
            final(self).revealed_tiles@ == old(self).revealed_tiles@.update(idx as int, true),
    {
        self.revealed_tiles.set(idx, true);
    }
}

} // verus!
