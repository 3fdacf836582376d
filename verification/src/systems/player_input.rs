//! Turns the key that is held down into the player's intent.

use vstd::prelude::*;
use crate::components::{Entity, Health, WantsToAttack, WantsToMove};
use crate::geometry::Point;
use crate::turn_state::{GameError, TurnState};
use crate::world::{Query, with_health, World};

verus! {

/// The keys that the game tells apart.
#[derive(Copy, Clone, Debug, PartialEq, Eq, Structural)]
pub enum Key {
    Left,
    Right,
    Up,
    Down,
    Confirm,
    Other,
}

/// The step that a key asks for; no step for no key or any other key.
pub open spec fn key_delta(key: Option<Key>) -> Point {
    match key {
        Some(Key::Left) => Point { x: -1i32, y: 0 },
        Some(Key::Right) => Point { x: 1, y: 0 },
        Some(Key::Up) => Point { x: 0, y: -1i32 },
        Some(Key::Down) => Point { x: 0, y: 1 },
        _ => Point { x: 0, y: 0 },
    }
}

/// The hit points after a turn of rest: one more, up to the maximum.
pub open spec fn rested(h: Health) -> Health {
    Health {
        current: if h.current < h.max {
            (h.current + 1) as i32
        } else {
            h.max
        },
        max: h.max,
    }
}

/// A turn of rest adds one hit point, or as many as are missing if that is
/// fewer.
pub proof fn lemma_rest_amount(h: Health)
    ensures
        rested(h).current - h.current == if 1 <= h.max - h.current {
            1
        } else {
            h.max - h.current
        },
        rested(h).max == h.max,
{
}

/// The point one step from `p`.
pub open spec fn stepped(p: Point, delta: Point) -> Point {
    Point { x: (p.x + delta.x) as i32, y: (p.y + delta.y) as i32 }
}

/// What `player_input` leaves behind when the player `player` exists.
pub open spec fn input_applied(
    before: World,
    key: Option<Key>,
    state_before: TurnState,
    player: Entity,
    after: World,
    state_after: TurnState,
) -> bool {
    let delta = key_delta(key);
    let slot = before.slots@[player.index as int];
    let destination = stepped(slot.parts.position, delta);
    &&& if delta.x == 0 && delta.y == 0 {
        &&& state_after == state_before
        &&& after.moves@ == before.moves@
        &&& after.attacks@ == before.attacks@
        &&& after.slots@ == match slot.parts.health {
            Some(h) => before.slots@.update(player.index as int, with_health(slot, rested(h))),
            None => before.slots@,
        }
    } else {
        &&& state_after == TurnState::PlayerTurn
        &&& after.slots@ == before.slots@
        &&& match before.first(Query::EnemyAt(destination)) {
            Some(enemy) => after.attacks@ == before.attacks@.push(
                WantsToAttack { attacker: player, victim: enemy },
            ) && after.moves@ == before.moves@,
            None => after.moves@ == before.moves@.push(
                WantsToMove { entity: player, destination },
            ) && after.attacks@ == before.attacks@,
        }
    }
}

/// The step that a key asks for.
pub fn delta_of(key: Option<Key>) -> (delta: Point)
    ensures
        delta == key_delta(key),
{
    match key {
        Some(Key::Left) => Point { x: -1, y: 0 },
        Some(Key::Right) => Point { x: 1, y: 0 },
        Some(Key::Up) => Point { x: 0, y: -1 },
        Some(Key::Down) => Point { x: 0, y: 1 },
        _ => Point { x: 0, y: 0 },
    }
}

/// Reads the key. A direction key sends one message for the player, an
/// attack on the first enemy that stands on the tile one step away or, where
/// none stands there, a move onto that tile, and starts the player's turn.
/// Without a direction the player rests, and the phase stays as it is.
/// Fails, and changes nothing, when there is no player.
pub fn player_input(world: &mut World, key: Option<Key>, turn_state: &mut TurnState) -> (r: Result<
    (),
    GameError,
>)
    requires
        old(world).wf(),
    ensures
        final(world).wf(),
        final(world).names@ == old(world).names@,
        final(world).fovs@ == old(world).fovs@,
        match old(world).first(Query::Player) {
            None => r == Err::<(), GameError>(GameError::MissingPlayer) && *final(world) == *old(
                world,
            ) && *final(turn_state) == *old(turn_state),
            Some(player) => r.is_ok() && input_applied(
                *old(world),
                key,
                *old(turn_state),
                player,
                *final(world),
                *final(turn_state),
            ),
        },
{
    let player: Entity = match world.find(Query::Player) {
        Some(e) => e,
        None => {
            return Err(GameError::MissingPlayer);
        },
    };
    let delta: Point = delta_of(key);
    let parts = world.slots[player.index].parts;
    if delta.x == 0 && delta.y == 0 {
        match parts.health {
            Some(h) => {
                let current: i32 = if h.current < h.max {
                    h.current + 1
                } else {
                    h.max
                };
                world.set_health(player, Health { current, max: h.max });
            },
            None => {},
        }
        return Ok(());
    }
    let destination: Point = Point { x: parts.position.x + delta.x, y: parts.position.y + delta.y };
    match world.find(Query::EnemyAt(destination)) {
        Some(enemy) => {
            world.attacks.push(WantsToAttack { attacker: player, victim: enemy });
        },
        None => {
            world.moves.push(WantsToMove { entity: player, destination });
        },
    }
    *turn_state = TurnState::PlayerTurn;
    Ok(())
}

} // verus!
