//! What there is to draw: the tiles, entities and texts that the player is
//! shown, as plain lists for whoever draws them.

use vstd::prelude::*;
use crate::components::{FieldOfView, Health, Render};
use crate::geometry::{NUM_TILES, Point, Rect};
use crate::map::{index_to_point, spec_index_to_point, TileMap, TileType};
use crate::map_builder::themes::{cp437, MapTheme, tile_char};
use crate::turn_state::GameError;
use crate::world::{Query, Slot, World};

verus! {

/// One tile to draw: where it lies on the map, its glyph, and whether it
/// is in sight or only remembered.
#[derive(Clone, Copy, Debug, PartialEq, Eq)]
pub struct TileView {
    pub at: Point,
    pub glyph: u16,
    pub in_sight: bool,
}

/// One entity to draw.
#[derive(Clone, Copy, Debug, PartialEq, Eq)]
pub struct EntityView {
    pub at: Point,
    pub render: Render,
}

/// What is said of an entity under the pointer: its name, and its hit
/// points where it has any.
#[derive(Clone, Debug)]
pub struct Tooltip {
    pub name: String,
    pub hit_points: Option<i32>,
}

/// Whether the tile with index `t` is drawn: it lies in the window, and it
/// is in sight or remembered.
pub open spec fn tile_shown(
    revealed: Seq<bool>,
    visible: Set<Point>,
    window: Rect,
    t: int,
) -> bool {
    window.contains(spec_index_to_point(t)) && (visible.contains(spec_index_to_point(t))
        || revealed[t])
}

/// The view of the tile with index `t`.
pub open spec fn tile_view(tiles: Seq<TileType>, visible: Set<Point>, theme: MapTheme, t: int) -> TileView {
    TileView {
        at: spec_index_to_point(t),
        glyph: cp437(tile_char(theme, tiles[t])),
        in_sight: visible.contains(spec_index_to_point(t)),
    }
}

/// The views of the tiles with an index below `upto` that are drawn, in
/// index order.
pub open spec fn tile_views(
    tiles: Seq<TileType>,
    revealed: Seq<bool>,
    visible: Set<Point>,
    theme: MapTheme,
    window: Rect,
    upto: int,
) -> Seq<TileView>
    decreases upto,
{
    if upto <= 0 {
        Seq::empty()
    } else if tile_shown(revealed, visible, window, upto - 1) {
        tile_views(tiles, revealed, visible, theme, window, upto - 1).push(
            tile_view(tiles, visible, theme, upto - 1),
        )
    } else {
        tile_views(tiles, revealed, visible, theme, window, upto - 1)
    }
}

/// The tiles to draw in the window, row by row: those in the sight of
/// `fov` and those remembered, each with the glyph of the theme.
pub fn map_render(map: &TileMap, fov: &FieldOfView, theme: MapTheme, window: Rect) -> (views: Vec<
    TileView,
>)
    requires
        map.wf(),
    ensures
        views@ == tile_views(
            map.tiles@,
            map.revealed_tiles@,
            fov.visible(),
            theme,
            window,
            NUM_TILES as int,
        ),
{
    let mut views: Vec<TileView> = Vec::new();
    let mut idx: usize = 0;
    while idx < NUM_TILES
        invariant
            map.wf(),
            idx <= NUM_TILES,
            views@ == tile_views(
                map.tiles@,
                map.revealed_tiles@,
                fov.visible(),
                theme,
                window,
                idx as int,
            ),
        decreases NUM_TILES - idx,
    {
        let p: Point = index_to_point(idx);
        if window.point_in_rect(p) {
            let in_sight: bool = fov.contains(p);
            if in_sight || map.revealed_tiles[idx] {
                views.push(TileView { at: p, glyph: theme.tile_to_render(map.tiles[idx]), in_sight });
            }
        }
        idx += 1;
    }
    views
}

/// Whether the occupant of the slot is drawn: it lives, has a look, and
/// stands on a tile in sight.
pub open spec fn entity_shown(slot: Slot, visible: Set<Point>) -> bool {
    slot.alive && slot.parts.render.is_some() && visible.contains(slot.parts.position)
}

/// The views of the entities in the slots below `upto` that are drawn, in
/// slot order.
pub open spec fn entity_views(slots: Seq<Slot>, visible: Set<Point>, upto: int) -> Seq<EntityView>
    decreases upto,
{
    if upto <= 0 {
        Seq::empty()
    } else if entity_shown(slots[upto - 1], visible) {
        entity_views(slots, visible, upto - 1).push(
            EntityView {
                at: slots[upto - 1].parts.position,
                render: slots[upto - 1].parts.render.unwrap(),
            },
        )
    } else {
        entity_views(slots, visible, upto - 1)
    }
}

/// The entities to draw: those with a look that stand in the sight of
/// `fov`, in slot order.
pub fn entity_render(world: &World, fov: &FieldOfView) -> (views: Vec<EntityView>)
    ensures
        views@ == entity_views(world.slots@, fov.visible(), world.slots@.len() as int),
{
    let mut views: Vec<EntityView> = Vec::new();
    let mut i: usize = 0;
    while i < world.slots.len()
        invariant
            i <= world.slots@.len(),
            views@ == entity_views(world.slots@, fov.visible(), i as int),
        decreases world.slots@.len() - i,
    {
        let slot: Slot = world.slots[i];
        if slot.alive {
            match slot.parts.render {
                Some(render) => {
                    if fov.contains(slot.parts.position) {
                        views.push(EntityView { at: slot.parts.position, render });
                    }
                },
                None => {},
            }
        }
        i += 1;
    }
    views
}

/// Whether the occupant of slot `i` gets a tooltip at `at`: it lives, has a
/// name, and stands there.
pub open spec fn named_at(world: &World, at: Point, i: int) -> bool {
    world.slots@[i].alive && world.slots@[i].parts.position == at && world.names@[i].is_some()
}

/// What is said of the occupant of slot `i`: its name, and its hit points
/// where it has any.
pub open spec fn said_of(world: &World, i: int) -> (Seq<char>, Option<i32>) {
    (
        world.names@[i].unwrap().0@,
        match world.slots@[i].parts.health {
            Some(h) => Some(h.current),
            None => None,
        },
    )
}

/// What is said of the named entities in the slots below `upto` that stand
/// at `at`, in slot order.
pub open spec fn said_at(world: &World, at: Point, upto: int) -> Seq<(Seq<char>, Option<i32>)>
    decreases upto,
{
    if upto <= 0 {
        Seq::empty()
    } else if named_at(world, at, upto - 1) {
        said_at(world, at, upto - 1).push(said_of(world, upto - 1))
    } else {
        said_at(world, at, upto - 1)
    }
}

/// What the tooltips say.
pub open spec fn said(tips: Seq<Tooltip>) -> Seq<(Seq<char>, Option<i32>)> {
    Seq::new(tips.len(), |k: int| (tips[k].name@, tips[k].hit_points))
}

/// The tooltips for the tile at `at`: one for each named entity that
/// stands there, in slot order.
pub fn tooltips(world: &World, at: Point) -> (tips: Vec<Tooltip>)
    requires
        world.wf(),
    ensures
        said(tips@) == said_at(world, at, world.slots@.len() as int),
{
    let mut tips: Vec<Tooltip> = Vec::new();
    assert(said(tips@) =~= said_at(world, at, 0));
    let mut i: usize = 0;
    while i < world.slots.len()
        invariant
            world.wf(),
            i <= world.slots@.len(),
            said(tips@) == said_at(world, at, i as int),
        decreases world.slots@.len() - i,
    {
        let slot: Slot = world.slots[i];
        if slot.alive && slot.parts.position == at {
            match &world.names[i] {
                Some(name) => {
                    let hit_points: Option<i32> = match slot.parts.health {
                        Some(h) => Some(h.current),
                        None => None,
                    };
                    let ghost before = tips@;
                    tips.push(Tooltip { name: name.0.clone(), hit_points });
                    assert(said(tips@) =~= said(before).push(said_of(world, i as int)));
                },
                None => {},
            }
        }
        i += 1;
    }
    tips
}

/// The hit points of the first player that has any, for the status line.
/// Fails where there is none.
pub fn hud(world: &World) -> (r: Result<Health, GameError>)
    ensures
        match world.first(Query::LivingPlayer) {
            Some(player) => r == Ok::<Health, GameError>(
                world.slots@[player.index as int].parts.health.unwrap(),
            ),
            None => r == Err::<Health, GameError>(GameError::MissingPlayer),
        },
{
    match world.find(Query::LivingPlayer) {
        Some(player) => match world.slots[player.index].parts.health {
            Some(h) => Ok(h),
            None => Err(GameError::MissingPlayer),
        },
        None => Err(GameError::MissingPlayer),
    }
}

} // verus!
