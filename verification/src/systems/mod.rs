//! The systems of the turn cycle. Decision systems read the registry and
//! send messages; resolution systems consume every message and change the
//! registry.

pub mod intent;
pub mod player_input;
pub mod random_move;
pub mod chasing;
pub mod combat;
pub mod movement;
pub mod end_turn;
pub mod fov;
