//! Simulation core of a small real-time-strategy game: a tile-grid world, units
//! that walk along waypoints and collide with obstacles, a breadth-first
//! pathfinder, buildings with bounded training queues, and the abilities that
//! units and buildings cast.

pub mod dimensions;
pub mod map;
pub mod pathfind;
pub mod movement;
pub mod ability;
pub mod game;
pub mod commands;
pub mod input;
pub mod sprite_sheet;
pub mod text;
