//! Ends a turn: the game is lost when the player has no hit points left, won
//! when the player stands on the amulet, and goes on otherwise.

use vstd::prelude::*;
use crate::components::Entity;
use crate::turn_state::{GameError, TurnState};
use crate::world::{Query, Slot, World};

verus! {

/// The phase that follows `state` when the game goes on.
pub open spec fn following(state: TurnState) -> TurnState {
    match state {
        TurnState::PlayerTurn => TurnState::MonsterTurn,
        TurnState::MonsterTurn => TurnState::AwaitingInput,
        _ => state,
    }
}

/// Whether the occupant of the slot has hit points and fewer than one of
/// them.
pub open spec fn slain(slot: Slot) -> bool {
    match slot.parts.health {
        Some(h) => h.current < 1,
        None => false,
    }
}

/// The phase after the evaluation, with the player in slot `player` and the
/// amulet in slot `amulet`.
pub open spec fn evaluated(state: TurnState, player: Slot, amulet: Slot) -> TurnState {
    if slain(player) {
        TurnState::GameOver
    } else if player.parts.position == amulet.parts.position {
        TurnState::Victory
    } else {
        following(state)
    }
}

/// The phases follow one another in a cycle as long as the player lives
/// and has not found the amulet; a player without hit points loses the game
/// whatever else holds, and a living player on the tile of the amulet wins
/// it.
pub proof fn lemma_cycle(player: Slot, amulet: Slot)
    ensures
        slain(player) ==> forall|state: TurnState| #[trigger]
            evaluated(state, player, amulet) == TurnState::GameOver,
        !slain(player) && player.parts.position == amulet.parts.position ==> forall|
            state: TurnState,
        | #[trigger] evaluated(state, player, amulet) == TurnState::Victory,
        !slain(player) && player.parts.position != amulet.parts.position ==> evaluated(
            TurnState::PlayerTurn,
            player,
            amulet,
        ) == TurnState::MonsterTurn && evaluated(TurnState::MonsterTurn, player, amulet)
            == TurnState::AwaitingInput,
{
}

/// What the evaluation of the end of a turn comes to. While input is
/// awaited nothing is evaluated. Otherwise the first amulet and the first
/// player are looked up, and the lack of either is an error that leaves the
/// phase as it is.
pub open spec fn turn_end(
    world: &World,
    before: TurnState,
    after: TurnState,
    r: Result<(), GameError>,
) -> bool {
    if before == TurnState::AwaitingInput {
        r.is_ok() && after == before
    } else {
        match (world.first(Query::Amulet), world.first(Query::Player)) {
            (None, _) => r == Err::<(), GameError>(GameError::MissingAmulet) && after == before,
            (Some(_), None) => r == Err::<(), GameError>(GameError::MissingPlayer) && after
                == before,
            (Some(amulet), Some(player)) => r.is_ok() && after == evaluated(
                before,
                world.slots@[player.index as int],
                world.slots@[amulet.index as int],
            ),
        }
    }
}

/// Evaluates the end of a turn.
pub fn end_turn(world: &World, turn_state: &mut TurnState) -> (r: Result<(), GameError>)
    ensures
        turn_end(world, *old(turn_state), *final(turn_state), r),
{
    if matches!(*turn_state, TurnState::AwaitingInput) {
        return Ok(());
    }
    let amulet: Entity = match world.find(Query::Amulet) {
        Some(e) => e,
        None => {
            return Err(GameError::MissingAmulet);
        },
    };
    let player: Entity = match world.find(Query::Player) {
        Some(e) => e,
        None => {
            return Err(GameError::MissingPlayer);
        },
    };
    let player_parts = world.slots[player.index].parts;
    let amulet_parts = world.slots[amulet.index].parts;
    let dead: bool = match player_parts.health {
        Some(h) => h.current < 1,
        None => false,
    };
    let next: TurnState = if dead {
        TurnState::GameOver
    } else if player_parts.position == amulet_parts.position {
        TurnState::Victory
    } else {
        match *turn_state {
            TurnState::PlayerTurn => TurnState::MonsterTurn,
            TurnState::MonsterTurn => TurnState::AwaitingInput,
            other => other,
        }
    };
    *turn_state = next;
    Ok(())
}

} // verus!
