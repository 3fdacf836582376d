//! Simulation core of a grid-based dungeon crawler: map generation,
//! flow-field pathfinding, field of view and a turn-based scheduler.

pub mod components;
pub mod fov;
pub mod game;
pub mod geometry;
pub mod map;
pub mod map_builder;
pub mod pathfinding;
pub mod random;
pub mod render;
pub mod spawner;
pub mod systems;
pub mod turn_state;
pub mod world;
