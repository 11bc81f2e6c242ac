//! Weighted grid pathfinding with an A* search, verified with Verus.
//!
//! A grid is a row-major vector of entry costs together with its width; a
//! cell of cost zero cannot be entered.
pub mod frontier;
pub mod grid;
pub mod model;
mod outside;
pub mod search;

pub use search::{astar, find_path, PathError};
