//! The phases of a turn.

use vstd::prelude::*;

verus! {

/// The phase of the turn: which group of systems the next tick runs.
#[derive(Copy, Clone, Debug, PartialEq, Eq, Structural)]
pub enum TurnState {
    AwaitingInput,
    PlayerTurn,
    MonsterTurn,
    GameOver,
    Victory,
}

/// What stops a game from being set up or a turn from being played.
#[derive(Copy, Clone, Debug, PartialEq, Eq, Structural)]
pub enum GameError {
    /// The rooms could not be placed within the attempts allowed.
    GenerationExhausted,
    /// Fewer tiles are fit for a monster than monsters were asked for.
    SpawnExhausted,
    /// No living entity is marked as the player.
    MissingPlayer,
    /// No living entity is marked as the amulet.
    MissingAmulet,
}

} // verus!
