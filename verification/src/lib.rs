//! The rules of a Sokoban puzzle on a grid: a player pushes chains of boxes, walls stop them.
//!
//! The entities live in a `hecs::World`. This library loads a level into it, resolves one
//! movement intent per tick, and lists what is to be drawn, back to front.

pub mod components;
pub mod constants;
pub mod store;
pub mod grid;
pub mod systems;
pub mod rules;
pub mod entities;
pub mod laws;
pub mod map;
