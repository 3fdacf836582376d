//! The creatures that hunt: each takes one step down the flow field that is
//! rooted at the player's tile.

use vstd::prelude::*;
use crate::components::Entity;
use crate::geometry::{distance_sq, grid_distance_sq, in_grid, Point};
use crate::map::{index_to_point, map_idx, spec_index_to_point, spec_map_idx, TileMap, TileType};
use crate::pathfinding::{flow_distances, FlowField, lowest_exit};
use crate::systems::intent::{decide, intent_of, occupant, Pending, send, sent};
use crate::turn_state::GameError;
use crate::world::{Query, Slot, World};

verus! {

/// Whether the occupant of the slot hunts the player.
pub open spec fn hunts(slot: Slot) -> bool {
    slot.alive && slot.parts.chasing_player.is_some()
}

/// The tile that a hunter on `position` heads for: the player's own tile
/// from next to it, else the step of steepest descent; no tile where the
/// field offers no step.
pub open spec fn chase_target(
    tiles: Seq<TileType>,
    distances: Seq<u32>,
    position: Point,
    player: Point,
) -> Option<Point> {
    match lowest_exit(tiles, distances, spec_map_idx(position.x as int, position.y as int)) {
        None => None,
        Some(step) => if distance_sq(position, player) > 1 {
            Some(spec_index_to_point(step))
        } else {
            Some(player)
        },
    }
}

/// The pending messages after the hunters in the slots below `upto` have
/// decided, in slot order.
pub open spec fn hunted(
    slots: Seq<Slot>,
    tiles: Seq<TileType>,
    distances: Seq<u32>,
    player: Point,
    pending: Pending,
    upto: int,
) -> Pending
    decreases upto,
{
    if upto <= 0 {
        pending
    } else {
        let earlier = hunted(slots, tiles, distances, player, pending, upto - 1);
        if hunts(slots[upto - 1]) {
            match chase_target(tiles, distances, slots[upto - 1].parts.position, player) {
                Some(destination) => sent(
                    earlier,
                    intent_of(slots, occupant(slots, upto - 1), destination),
                ),
                None => earlier,
            }
        } else {
            earlier
        }
    }
}

/// The tile that a hunter on `position` heads for.
pub fn chase_step(field: &FlowField, map: &TileMap, position: Point, player: Point) -> (r: Option<
    Point,
>)
    requires
        field.wf(),
        map.wf(),
        in_grid(position),
        in_grid(player),
    ensures
        r == chase_target(map.tiles@, field.distances@, position, player),
{
    match field.find_lowest_exit(map_idx(position.x, position.y), map) {
        None => None,
        Some(step) => if grid_distance_sq(position, player) > 1 {
            Some(index_to_point(step))
        } else {
            Some(player)
        },
    }
}

/// Lets every hunter decide, in slot order, over the flow field rooted at
/// the tile of the first player. The entities stay as they are. Fails, and
/// sends nothing, when there is no player.
pub fn chasing(world: &mut World, map: &TileMap) -> (r: Result<(), GameError>)
    requires
        old(world).wf(),
        map.wf(),
    ensures
        final(world).wf(),
        final(world).same_entities(old(world)),
        match old(world).first(Query::Player) {
            None => r == Err::<(), GameError>(GameError::MissingPlayer) && final(world).pending()
                == old(world).pending(),
            Some(player) => {
                let at = old(world).slots@[player.index as int].parts.position;
                r.is_ok() && final(world).pending() == hunted(
                    old(world).slots@,
                    map.tiles@,
                    flow_distances(
                        map.tiles@,
                        seq![spec_map_idx(at.x as int, at.y as int) as usize],
                    ),
                    at,
                    old(world).pending(),
                    old(world).slots@.len() as int,
                )
            },
        },
{
    let player: Entity = match world.find(Query::Player) {
        Some(e) => e,
        None => {
            return Err(GameError::MissingPlayer);
        },
    };
    let at: Point = world.slots[player.index].parts.position;
    let mut goals: Vec<usize> = Vec::new();
    goals.push(map_idx(at.x, at.y));
    assert(goals@ =~= seq![spec_map_idx(at.x as int, at.y as int) as usize]);
    let field = FlowField::new(&goals, map);
    let ghost slots = world.slots@;
    let ghost before = world.pending();
    let mut i: usize = 0;
    while i < world.slots.len()
        invariant
            world.wf(),
            map.wf(),
            field.wf(),
            in_grid(at),
            world.same_entities(old(world)),
            slots == old(world).slots@,
            i <= slots.len(),
            world.pending() == hunted(slots, map.tiles@, field.distances@, at, before, i as int),
        decreases slots.len() - i,
    {
        let slot: Slot = world.slots[i];
        if slot.alive && slot.parts.chasing_player.is_some() {
            match chase_step(&field, map, slot.parts.position, at) {
                Some(destination) => {
                    let hunter: Entity = Entity { index: i, generation: slot.generation };
                    let intent = decide(world, hunter, destination);
                    send(world, intent);
                },
                None => {},
            }
        }
        i += 1;
    }
    Ok(())
}

} // verus!
