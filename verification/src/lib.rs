//! Colony simulation core: content packs, the world grid, path finding and the
//! rules by which colonists pick, carry out and give up tasks.

pub mod components;
pub mod cost;
pub mod content;
pub mod world;
pub mod pathfinding;
pub mod systems;
pub mod tasks;
pub mod execution;
pub mod movement;
pub mod game;
pub mod laws;
