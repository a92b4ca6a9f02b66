//! Move selection for a two-player territory game played on a rectangular
//! board: the board and piece model, the placement rule, and the heuristics
//! that rank legal placements.

pub mod cell;
pub mod grid;
pub mod text;
pub mod player;
pub mod field;
pub mod piece;
pub mod bonus;
pub mod game;
pub mod scoring;
pub mod laws;
pub mod replay;
