//! Turn-based tactics on a hexagonal board: cube coordinates, board storage,
//! pathfinding, and the rules that decide moves, attacks, bombs and undo.

pub mod hex;
pub mod hex_laws;
pub mod hex_grid;
pub mod pathfinding;
pub mod components;
pub mod turn;
pub mod grid;
pub mod combat;
pub mod random;
pub mod enemy;
pub mod level;
pub mod undo;
pub mod player;
pub mod tiles;
pub mod util;
pub mod rule_laws;
