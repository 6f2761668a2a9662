//! # Positioning
//!
//! Coordinates on a 3D grid and pathfinding over them: a breadth first labeler, an all pairs
//! shortest path table over the statically open tiles, and an A* search guided by a pluggable
//! heuristic.
pub mod position;

pub mod cost;

pub mod walk;

pub mod pathfinding;

pub mod all_pairs;

pub mod bfs;

mod frontier;

pub use position::Position;
