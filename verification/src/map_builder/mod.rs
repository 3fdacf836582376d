//! Builds a dungeon: an architect lays out the tiles, a fortress is stamped
//! on them, and the places of the player, the amulet and the monsters are
//! derived from the result.

pub mod automata;
pub mod connectivity;
pub mod drunkard;
pub mod placement;
pub mod prefab;
pub mod rooms;
pub mod themes;

use vstd::prelude::*;
use crate::geometry::{in_grid, NUM_TILES, Point, Rect};
use crate::map::{spec_index_to_point, spec_map_idx, TileMap, TileType};
use crate::map_builder::automata::{
    find_start,
    grid_rolls,
    grow_cave,
    grown,
    largest_region_root,
    lemma_largest_region_root,
};
use crate::map_builder::connectivity::{
    lemma_center_inside,
    lemma_open_ground_connected,
    lemma_rooms_connected,
};
use crate::map_builder::drunkard::{cave_dug, DESIRED_FLOOR, dig_cave, floor_count, Walk};
use crate::map_builder::placement::{
    find_most_distant,
    fit_for_monster,
    most_distant,
    spawn_monsters,
    spawnable_tiles,
};
use crate::map_builder::prefab::{apply_prefab, corner_fits, stamped};
use crate::map_builder::rooms::{
    build_corridors,
    build_random_rooms,
    carved,
    in_some_room,
    MAX_ROOM_ATTEMPTS,
    NUM_ROOMS,
    rooms_drawn,
    rooms_apart,
    rooms_inside,
    rooms_joined,
    rooms_solid,
};
use crate::map_builder::themes::MapTheme;
use crate::pathfinding::{connected_from, flow_distances, MAX_DEPTH};
use crate::random::draw_range;
use crate::turn_state::GameError;

verus! {

/// Number of monsters placed on a map.
pub const NUM_MONSTERS: usize = 50;

/// The ways of laying out a map.
#[derive(Clone, Copy, Debug, PartialEq, Eq, Structural)]
pub enum Architect {
    Empty,
    Rooms,
    DrunkardsWalk,
    CellularAutomata,
}

/// A finished dungeon and what goes where in it.
#[derive(Debug)]
pub struct MapBuilder {
    pub map: TileMap,
    pub rooms: Vec<Rect>,
    pub monster_spawns: Vec<Point>,
    pub player_start: Point,
    pub amulet_start: Point,
    pub theme: MapTheme,
}

/// The architect that a draw stands for.
pub open spec fn drawn_architect(draw: int) -> Architect {
    if draw == 0 {
        Architect::DrunkardsWalk
    } else if draw == 1 {
        Architect::Rooms
    } else {
        Architect::CellularAutomata
    }
}

/// The theme that a draw stands for.
pub open spec fn drawn_theme(draw: int) -> MapTheme {
    if draw == 0 {
        MapTheme::Dungeon
    } else {
        MapTheme::Forest
    }
}

/// The architect that a draw stands for.
pub fn architect_for(draw: i32) -> (a: Architect)
    ensures
        a == drawn_architect(draw as int),
{
    if draw == 0 {
        Architect::DrunkardsWalk
    } else if draw == 1 {
        Architect::Rooms
    } else {
        Architect::CellularAutomata
    }
}

/// The theme that a draw stands for.
pub fn theme_for(draw: i32) -> (t: MapTheme)
    ensures
        t == drawn_theme(draw as int),
{
    if draw == 0 {
        MapTheme::Dungeon
    } else {
        MapTheme::Forest
    }
}

/// The tiles laid out by an architect, its rooms, and where the player
/// starts.
#[derive(Debug)]
pub struct Layout {
    pub map: TileMap,
    pub rooms: Vec<Rect>,
    pub player_start: Point,
}

impl Layout {
    /// The grid is complete and unexplored, the rooms keep off its
    /// outermost ring, and the player starts on a floor tile.
    pub open spec fn wf(&self) -> bool {
        self.map.wf() && self.map.unexplored() && rooms_inside(self.rooms@) && self.map.enterable(
            self.player_start,
        )
    }
}

/// Solid rock: every tile is wall.
pub open spec fn solid_rock() -> Seq<TileType> {
    Seq::new(NUM_TILES as nat, |t: int| TileType::Wall)
}

/// The middle of the grid.
pub open spec fn middle() -> Point {
    Point { x: 40, y: 25 }
}

/// What an architect leaves behind. Open ground has no rooms and the
/// player in the middle. The builder of rooms leaves the rooms placed of
/// the rectangles that it drew, apart from one another and joined by
/// corridors, and nothing else, with the player in the middle of the first
/// room. The digger of caves leaves what its walks dug out of solid rock, a
/// cave of the desired size around the player in the middle. With all three
/// every floor tile is reached from where the player starts. The grower of
/// caves leaves the cave grown from its rolls, which may hold pockets that
/// are not reached; there the player starts on the first tile of the largest
/// region.
pub open spec fn laid_out(architect: Architect, layout: Layout) -> bool {
    let tiles = layout.map.tiles@;
    match architect {
        Architect::Empty => {
            &&& layout.rooms@.len() == 0
            &&& layout.player_start == middle()
            &&& forall|t: int| 0 <= t < NUM_TILES ==> tiles[t] == TileType::Floor
            &&& connected_from(tiles, layout.player_start)
        },
        Architect::Rooms => {
            &&& layout.rooms@.len() == NUM_ROOMS
            &&& exists|rects: Seq<Rect>| #[trigger]
                rooms_drawn(rects, MAX_ROOM_ATTEMPTS as int, layout.rooms@, false)
            &&& rooms_apart(layout.rooms@)
            &&& rooms_solid(layout.rooms@)
            &&& rooms_joined(tiles, layout.rooms@)
            &&& layout.player_start == layout.rooms@[0].spec_center()
            &&& connected_from(tiles, layout.player_start)
        },
        Architect::DrunkardsWalk => {
            &&& layout.rooms@.len() == 0
            &&& layout.player_start == middle()
            &&& exists|walks: Seq<Walk>| #[trigger]
                cave_dug(solid_rock(), middle(), walks, tiles, false)
            &&& floor_count(tiles, NUM_TILES as int) >= DESIRED_FLOOR
            &&& connected_from(tiles, layout.player_start)
        },
        Architect::CellularAutomata => {
            &&& layout.rooms@.len() == 0
            &&& exists|rolls: Seq<i32>| grid_rolls(rolls) && tiles == #[trigger] grown(rolls)
            &&& largest_region_root(tiles, NUM_TILES as int) == Some(
                spec_map_idx(layout.player_start.x as int, layout.player_start.y as int),
            )
        },
    }
}

/// Why an architect fails. Open ground never does. The builder of rooms
/// has drawn all the rectangles it may and placed too few rooms. The digger
/// of caves has made all the walks it may and the cave is still too small.
/// The grower of caves has grown a cave without a single floor tile.
pub open spec fn lay_out_failed(architect: Architect) -> bool {
    match architect {
        Architect::Empty => false,
        Architect::Rooms => exists|rects: Seq<Rect>, rooms: Seq<Rect>| #[trigger]
            rooms_drawn(rects, MAX_ROOM_ATTEMPTS as int, rooms, true),
        Architect::DrunkardsWalk => exists|walks: Seq<Walk>, tiles: Seq<TileType>| #[trigger]
            cave_dug(solid_rock(), middle(), walks, tiles, true),
        Architect::CellularAutomata => exists|rolls: Seq<i32>|
            grid_rolls(rolls) && forall|t: int|
                0 <= t < NUM_TILES ==> (#[trigger] grown(rolls))[t] != TileType::Floor,
    }
}

/// What laying out comes to: a layout in the way of the architect, or the
/// architect's own failure.
pub open spec fn lay_out_outcome(architect: Architect, r: Result<Layout, GameError>) -> bool {
    match r {
        Ok(layout) => layout.wf() && laid_out(architect, layout),
        Err(e) => e == GameError::GenerationExhausted && lay_out_failed(architect),
    }
}

/// Open ground, with the player in the middle.
pub fn open_ground() -> (layout: Layout)
    ensures
        layout.wf(),
        laid_out(Architect::Empty, layout),
{
    let map = TileMap::new();
    proof {
        lemma_open_ground_connected(map.tiles@, Point { x: 40, y: 25 });
    }
    Layout { map, rooms: Vec::new(), player_start: Point { x: 40, y: 25 } }
}

/// Rooms placed of rectangles drawn by chance and joined by corridors, with
/// the player in the middle of the first room. Fails where the rectangles
/// that may be drawn do not give enough rooms.
#[verifier::rlimit(40)]
pub fn rooms_and_corridors(rng: &mut bracket_lib::prelude::RandomNumberGenerator) -> (r: Result<
    Layout,
    GameError,
>)
    ensures
        lay_out_outcome(Architect::Rooms, r),
{
    let mut map = TileMap::filled(TileType::Wall);
    let mut rooms: Vec<Rect> = Vec::new();
    let placed = build_random_rooms(&mut map, &mut rooms, rng);
    let ghost rects = choose|rects: Seq<Rect>| #[trigger]
        rooms_drawn(rects, MAX_ROOM_ATTEMPTS as int, rooms@, placed.is_err());
    match placed {
        Ok(()) => {},
        Err(e) => {
            assert(rooms_drawn(rects, MAX_ROOM_ATTEMPTS as int, rooms@, true));
            return Err(e);
        },
    }
    assert(rooms_drawn(rects, MAX_ROOM_ATTEMPTS as int, rooms@, false));
    let player_start: Point = rooms[0].center();
    assert(map.tiles@ =~= carved(rooms@));
    proof {
        lemma_start_in_first_room(rooms@);
    }
    build_corridors(&mut map, &rooms, rng);
    proof {
        lemma_rooms_connected(map.tiles@, rooms@);
    }
    let layout = Layout { map, rooms, player_start };
    assert(layout.map.enterable(layout.player_start));
    assert(layout.wf());
    assert(laid_out(Architect::Rooms, layout));
    Ok(layout)
}

/// The middle of the first room is a floor tile of the rooms carved out of
/// solid rock.
proof fn lemma_start_in_first_room(rooms: Seq<Rect>)
    requires
        rooms.len() >= 1,
        rooms_inside(rooms),
        rooms_solid(rooms),
    ensures
        in_grid(rooms[0].spec_center()),
        carved(rooms)[spec_map_idx(
            rooms[0].spec_center().x as int,
            rooms[0].spec_center().y as int,
        )] == TileType::Floor,
{
    let c = rooms[0].spec_center();
    lemma_center_inside(rooms[0]);
    let t = spec_map_idx(c.x as int, c.y as int);
    assert(spec_index_to_point(t) == c);
    assert(rooms[0].contains(c));
    assert(in_some_room(rooms, c));
}

/// A cave dug out of solid rock around the player in the middle. Fails
/// where the walks that may be made leave the cave too small.
pub fn dug_cave(rng: &mut bracket_lib::prelude::RandomNumberGenerator) -> (r: Result<
    Layout,
    GameError,
>)
    ensures
        lay_out_outcome(Architect::DrunkardsWalk, r),
{
    let mut map = TileMap::filled(TileType::Wall);
    assert(map.tiles@ =~= solid_rock());
    let center: Point = Point { x: 40, y: 25 };
    match dig_cave(&mut map, center, rng) {
        Ok(()) => Ok(Layout { map, rooms: Vec::new(), player_start: center }),
        Err(e) => {
            proof {
                let walks = choose|walks: Seq<Walk>| #[trigger]
                    cave_dug(solid_rock(), middle(), walks, map.tiles@, true);
                assert(cave_dug(solid_rock(), middle(), walks, map.tiles@, true));
            }
            Err(e)
        },
    }
}

/// A cave grown from rolls, with the player on the first tile of its
/// largest region. Fails where the cave has no floor at all.
pub fn grown_cave(rng: &mut bracket_lib::prelude::RandomNumberGenerator) -> (r: Result<
    Layout,
    GameError,
>)
    ensures
        lay_out_outcome(Architect::CellularAutomata, r),
{
    let mut map = TileMap::new();
    grow_cave(&mut map, rng);
    match find_start(&map) {
        Some(player_start) => Ok(Layout { map, rooms: Vec::new(), player_start }),
        None => {
            proof {
                lemma_largest_region_root(map.tiles@, NUM_TILES as int);
                let rolls = choose|rolls: Seq<i32>|
                    grid_rolls(rolls) && map.tiles@ == #[trigger] grown(rolls);
                assert(grid_rolls(rolls) && forall|t: int|
                    0 <= t < NUM_TILES ==> (#[trigger] grown(rolls))[t] != TileType::Floor);
            }
            Err(GameError::GenerationExhausted)
        },
    }
}

/// Lays out the tiles in the way of `architect`. Open ground never fails;
/// each of the others fails for its own cause and no other.
pub fn lay_out(architect: Architect, rng: &mut bracket_lib::prelude::RandomNumberGenerator) -> (r:
    Result<Layout, GameError>)
    ensures
        lay_out_outcome(architect, r),
{
    match architect {
        Architect::Empty => Ok(open_ground()),
        Architect::Rooms => rooms_and_corridors(rng),
        Architect::DrunkardsWalk => dug_cave(rng),
        Architect::CellularAutomata => grown_cave(rng),
    }
}

/// Whether `after` is `before` as it is, or with the fortress stamped on
/// it at a corner that keeps it on the grid.
pub open spec fn fortress_or_not(before: Seq<TileType>, after: Seq<TileType>) -> bool {
    after == before || exists|at: Point| corner_fits(at) && after == #[trigger] stamped(before, at)
}

/// Whether the tiles `before`, as they are or with the fortress on them,
/// hold fewer tiles fit for a monster than there are monsters.
pub open spec fn too_few_spawns(before: Seq<TileType>, start: Point) -> bool {
    exists|tiles: Seq<TileType>| #[trigger]
        fortress_or_not(before, tiles) && spawnable_tiles(tiles, start, NUM_TILES as int).len()
            < NUM_MONSTERS
}

/// Whether `mb` is `layout` finished: a sound dungeon with the player and
/// the rooms of the layout, on the tiles of the layout with or without the
/// fortress.
pub open spec fn finished(layout: Layout, mb: MapBuilder) -> bool {
    &&& mb.wf()
    &&& mb.player_start == layout.player_start
    &&& mb.rooms@ == layout.rooms@
    &&& fortress_or_not(layout.map.tiles@, mb.map.tiles@)
}

/// Whether `mb` is a dungeon built in the way of `architect`: some layout
/// of that architect, finished.
pub open spec fn built(architect: Architect, mb: MapBuilder) -> bool {
    exists|layout: Layout| layout.wf() && #[trigger] laid_out(architect, layout) && finished(
        layout,
        mb,
    )
}

/// Why building in the way of `architect` fails: the architect fails, or
/// some layout of it holds too few tiles fit for a monster.
pub open spec fn build_failed(architect: Architect, e: GameError) -> bool {
    ||| e == GameError::GenerationExhausted && lay_out_failed(architect)
    ||| e == GameError::SpawnExhausted && exists|layout: Layout|
        layout.wf() && #[trigger] laid_out(architect, layout) && too_few_spawns(
            layout.map.tiles@,
            layout.player_start,
        )
}

/// What building in the way of `architect` comes to.
pub open spec fn build_outcome(architect: Architect, r: Result<MapBuilder, GameError>) -> bool {
    match r {
        Ok(mb) => built(architect, mb),
        Err(e) => build_failed(architect, e),
    }
}

/// The architect that takes over where `architect` has failed with `e`:
/// the digger of caves where the builder of rooms could not place its rooms,
/// and nobody otherwise.
pub open spec fn takeover(architect: Architect, e: GameError) -> Option<Architect> {
    if architect == Architect::Rooms && e == GameError::GenerationExhausted {
        Some(Architect::DrunkardsWalk)
    } else {
        None
    }
}

/// The architect that takes over where `architect` has failed with `e`.
pub fn fallback_for(architect: Architect, e: GameError) -> (next: Option<Architect>)
    ensures
        next == takeover(architect, e),
{
    if matches!(architect, Architect::Rooms) && matches!(e, GameError::GenerationExhausted) {
        Some(Architect::DrunkardsWalk)
    } else {
        None
    }
}

/// What a new dungeon comes to with `architect` drawn: what `architect`
/// builds, or its failure where nobody takes over; or, where it failed and
/// another took over, what that one comes to.
pub open spec fn new_outcome(architect: Architect, r: Result<MapBuilder, GameError>) -> bool {
    ||| build_outcome(architect, r) && (r is Err ==> takeover(architect, r->Err_0).is_none())
    ||| exists|e: GameError| #[trigger]
        build_failed(architect, e) && takeover(architect, e).is_some() && build_outcome(
            takeover(architect, e).unwrap(),
            r,
        )
}

/// What a new dungeon comes to: the outcome with one of the three
/// architects that may be drawn.
pub open spec fn drawn_dungeon(r: Result<MapBuilder, GameError>) -> bool {
    exists|draw: int| 0 <= draw < 3 && #[trigger] new_outcome(drawn_architect(draw), r)
}

impl MapBuilder {
    /// What holds of every finished dungeon: the grid is complete and
    /// unexplored; the rooms keep off its outermost ring; the player starts
    /// on a floor tile; the amulet lies on the tile farthest from the
    /// player, which the player can reach; and the monsters stand on
    /// `NUM_MONSTERS` different floor tiles away from the player.
    pub open spec fn wf(&self) -> bool {
        &&& self.map.wf()
        &&& self.map.unexplored()
        &&& rooms_inside(self.rooms@)
        &&& self.map.enterable(self.player_start)
        &&& in_grid(self.amulet_start)
        &&& self.amulet_start == most_distant(self.map.tiles@, self.player_start)
        &&& flow_distances(
            self.map.tiles@,
            seq![spec_map_idx(self.player_start.x as int, self.player_start.y as int) as usize],
        )[spec_map_idx(self.amulet_start.x as int, self.amulet_start.y as int)] < MAX_DEPTH
        &&& self.monster_spawns@.len() == NUM_MONSTERS
        &&& self.monster_spawns@.no_duplicates()
        &&& forall|j: int|
            0 <= j < self.monster_spawns@.len() ==> fit_for_monster(
                self.map.tiles@,
                self.player_start,
                #[trigger] self.monster_spawns@[j],
            )
    }

    /// Turns every tile into `tile_type`.
    pub fn fill(&mut self, tile_type: TileType)
        requires
            old(self).map.wf(),
        ensures
            final(self).map.wf(),
            forall|t: int| 0 <= t < NUM_TILES ==> final(self).map.tiles@[t] == tile_type,
            final(self).map.revealed_tiles@ == old(self).map.revealed_tiles@,
            final(self).rooms == old(self).rooms,
            final(self).monster_spawns == old(self).monster_spawns,
            final(self).player_start == old(self).player_start,
            final(self).amulet_start == old(self).amulet_start,
            final(self).theme == old(self).theme,
    {
        let mut idx: usize = 0;
        while idx < NUM_TILES
            invariant
                self.map.wf(),
                idx <= NUM_TILES,
                forall|t: int| 0 <= t < idx ==> self.map.tiles@[t] == tile_type,
                self.map.revealed_tiles@ == old(self).map.revealed_tiles@,
                self.rooms == old(self).rooms,
                self.monster_spawns == old(self).monster_spawns,
                self.player_start == old(self).player_start,
                self.amulet_start == old(self).amulet_start,
                self.theme == old(self).theme,
            decreases NUM_TILES - idx,
        {
            self.map.set_tile(idx, tile_type);
            idx += 1;
        }
    }

    /// Finishes a layout: stamps the fortress where it may stand, picks a
    /// theme, puts the amulet on the tile farthest from the player and the
    /// monsters on tiles drawn by chance. The tiles are those of the layout,
    /// with or without the fortress. Fails only where these tiles hold too
    /// few that are fit for monsters.
    pub fn finish(layout: Layout, rng: &mut bracket_lib::prelude::RandomNumberGenerator) -> (r:
        Result<MapBuilder, GameError>)
        requires
            layout.wf(),
        ensures
            match r {
                Ok(mb) => finished(layout, mb),
                Err(e) => e == GameError::SpawnExhausted && too_few_spawns(
                    layout.map.tiles@,
                    layout.player_start,
                ),
            },
    {
        let Layout { map, rooms, player_start } = layout;
        let mut map = map;
        let ghost before = map.tiles@;
        let placed = apply_prefab(&mut map, player_start, rng);
        assert(fortress_or_not(before, map.tiles@)) by {
            if placed.is_some() {
                assert(map.tiles@ == stamped(before, placed.unwrap()));
            }
        }
        let theme = theme_for(draw_range(rng, 0, 2));
        let amulet_start = find_most_distant(&map, player_start);
        match spawn_monsters(&map, player_start, rng, NUM_MONSTERS) {
            Ok(monster_spawns) => Ok(
                MapBuilder { map, rooms, monster_spawns, player_start, amulet_start, theme },
            ),
            Err(e) => Err(e),
        }
    }

    /// Builds a dungeon in the way of `architect`: lays out the tiles and
    /// finishes the layout. Fails where the architect fails, or where the
    /// layout holds too few tiles fit for monsters.
    pub fn build(architect: Architect, rng: &mut bracket_lib::prelude::RandomNumberGenerator) -> (r:
        Result<MapBuilder, GameError>)
        ensures
            build_outcome(architect, r),
            r is Ok ==> r->Ok_0.wf(),
    {
        match lay_out(architect, rng) {
            Ok(layout) => {
                let ghost laid = layout;
                let r = MapBuilder::finish(layout, rng);
                proof {
                    assert(laid.wf() && laid_out(architect, laid));
                }
                r
            },
            Err(e) => Err(e),
        }
    }

    /// Builds a dungeon with an architect drawn by chance from the
    /// digger of caves, the builder of rooms and the grower of caves. Where
    /// the rooms cannot be placed, the digger of caves takes over.
    pub fn new(rng: &mut bracket_lib::prelude::RandomNumberGenerator) -> (r: Result<
        MapBuilder,
        GameError,
    >)
        ensures
            drawn_dungeon(r),
            r is Ok ==> r->Ok_0.wf(),
    {
        let draw: i32 = draw_range(rng, 0, 3);
        let architect = architect_for(draw);
        let r = match MapBuilder::build(architect, rng) {
            Ok(mb) => Ok(mb),
            Err(e) => match fallback_for(architect, e) {
                Some(next) => {
                    let second = MapBuilder::build(next, rng);
                    proof {
                        assert(build_failed(architect, e) && takeover(architect, e).is_some()
                            && build_outcome(takeover(architect, e).unwrap(), second));
                    }
                    second
                },
                None => Err(e),
            },
        };
        proof {
            assert(new_outcome(drawn_architect(draw as int), r));
        }
        r
    }
}

} // verus!
