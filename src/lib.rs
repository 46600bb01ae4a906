//! A random dungeon generator: rooms and corridors are attached to the free
//! sides of what is already built, on a bounded grid of tiles.

pub mod dungeon;
pub mod rng;
