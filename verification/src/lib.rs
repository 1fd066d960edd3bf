//! Simulation and scene logic of a small lumberjack village: a tile map of
//! land and water, trees that grow, die and come back, and workers that walk
//! along routes found by breadth-first search to chop wood and carry it to a
//! store house.
//!
//! The library computes; drawing is described by returned commands that the
//! surrounding program executes on the console.

pub mod game_stage;
pub mod grid;
pub mod laws;
pub mod nature;
pub mod objects;
pub mod passability;
pub mod pathfinding;
pub mod random;
pub mod render;
pub mod setup;
pub mod tilemap;
pub mod workers;
