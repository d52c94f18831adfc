//! Grid pathfinding for a tile-based game world.
//!
//! A sparse [`CollisionMap`] records which tiles are blocked, and a
//! [`Pathfinder`] runs a bounded breadth-first search over the
//! 8-connected grid to find a shortest-hop route between two tiles.

pub mod collision;
pub mod grid;
pub mod search;

pub use collision::CollisionMap;
pub use grid::Coordinate;
pub use search::Pathfinder;
