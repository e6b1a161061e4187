//! A grid-based spatial reasoning engine for turn-based games.
//!
//! Distance fields over a tile grid tell an agent how many king moves separate
//! every tile from the nearest goal, and a line-of-sight walk decides what can
//! be seen from a tile.

pub mod algebra;
pub mod dijkstra_map;
pub mod dungeon;
pub mod field;
mod flood;
pub mod game;
pub mod generate;
pub mod king_distance;
pub mod object;
pub mod sight;
