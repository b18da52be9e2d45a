//! A verified Minesweeper core: a rectangular board of cells with mines and
//! adjacency counts, a flood-fill reveal engine, and a game controller that
//! turns parsed commands into board operations and decides win or loss.

pub mod types;
pub mod board;
pub mod controller;
pub mod parse;
