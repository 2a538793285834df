//! Spatial algorithms for a turn-based dungeon: a tile grid, shortest paths,
//! breadth-first distance fields, symmetric shadowcasting and procedural
//! level generators, each stated and proved with Verus.

pub mod irect;
pub mod grid;
pub mod bfs;
pub mod base_map;
pub mod fov;
pub mod map;
pub mod astar;
mod rng;
pub mod builder;
pub mod spawn;
pub mod walk;
pub mod cellular;
pub mod bsp;
pub mod simple;
pub mod random_table;
pub mod djmap;
pub mod util;
