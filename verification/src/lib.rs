//! Maze construction and grid navigation for a cell-based maze game.
//!
//! The crate carves perfect mazes into a walled grid, places the start and the
//! exit far apart, resolves camera-relative key presses into grid directions
//! and drives the cell-to-cell movement of the player. Every function carries
//! a contract that Verus proves. The proofs rest on two things that are
//! stated without proof: what the calls into `rand` return (module `random`)
//! and what `String::push` does (module `level`).
//!
//! - `grid`: cell coordinates and the four directions.
//! - `cells`, `structure`: the mathematical model of a grid and of a perfect
//!   maze.
//! - `level`: the maze level and its queries.
//! - `carve`: the carving of a maze.
//! - `placement`, `search`: the placing of player and exit by breadth-first
//!   search.
//! - `motion`: key presses and the movement of the player.
//! - `settings`, `menu`: sizes of maze, states of the program and its menus.
//! - `faces`: what a picture of the maze has to show.
//! - `markers`: names for parts of the program around the library.

pub mod grid;
pub mod cells;
pub mod random;
pub mod structure;
pub mod level;
pub mod carve;
pub mod placement;
pub mod search;
pub mod motion;
pub mod settings;
pub mod menu;
pub mod faces;
pub mod markers;
