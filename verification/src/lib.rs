//! Procedural maze worlds: a spanning-tree maze carved over a square board,
//! its expansion into a doubled grid of rooms and walls, the geometry handed
//! to a renderer, and distance culling of what was spawned.

pub mod board;
pub mod paths;
pub mod carver;
pub mod carving;
pub mod cell;
pub mod config;
pub mod culler;
pub mod expander;
pub mod factory;
pub mod grid;
pub mod random;
pub mod world;
