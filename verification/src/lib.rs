//! A maze on a rectangular grid, carved by a randomized depth-first walk, and
//! a depth-first search through it that is taken one move at a time.
//!
//! - [`grid`]: positions, directions, and the walls of one cell.
//! - [`layout`]: what a maze is, as mathematics, and the graph of its doors.
//! - [`maze`]: the maze itself, its constructors and accessors.
//! - [`carver`]: the carving walk, one move at a time, in a given order.
//! - [`carve_laws`]: what holds of every carving walk.
//! - [`tree`]: when the doors of a maze form a tree.
//! - [`carve_tree`]: when a carving walk leaves a tree behind.
//! - [`solver`]: the search, one move at a time.
//! - [`solver_laws`]: what holds of every search.
//! - [`render`]: the maze as text.
//! - [`position_set`]: the set of cells a walk or a search has entered.

pub mod carve_laws;
pub mod carve_tree;
pub mod carver;
pub mod grid;
pub mod layout;
pub mod maze;
pub mod position_set;
mod random;
pub mod render;
pub mod solver;
pub mod solver_laws;
pub mod tree;
