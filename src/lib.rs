//! A toolkit for grid puzzles: a 2-D tile grid with an offset origin, breadth-first
//! reachability, A* shortest paths, geometric transforms, and small helpers for puzzle
//! input, configuration and rendering.

pub mod astar;
pub mod bits;
pub mod config;
pub mod context;
pub mod direction;
pub mod grid;
pub mod hex;
pub mod input;
pub mod linked_list;
pub mod parse;
pub mod point;
pub mod render;
pub mod search;
pub mod text;
pub mod tile;
pub mod traversable;
pub mod website;
