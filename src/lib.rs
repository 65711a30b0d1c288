//! Procedural dungeon generation: rooms, mazes, region merging and dead-end pruning
//! on a grid of 16-bit region ids, where `0` is wall.

pub mod generator;
pub mod grid;
pub mod rect;
mod rng;
