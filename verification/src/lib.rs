//! A minesweeper board engine with machine-checked rules.
//!
//! The engine keeps a grid of cells with hidden mines, lets a player open and flag
//! cells, spreads an opening over cells with no mine around them, and renders the
//! board as text. Every operation carries a contract over a mathematical model of
//! the board (`model::Board`), and the laws that relate the operations are proved in
//! `laws`.

pub mod fill;
pub mod grid;
pub mod laws;
pub mod minesweeper;
pub mod model;
pub mod rand;

pub use crate::grid::Position;
pub use crate::minesweeper::Minesweeper;
pub use crate::model::{BoardError, Cell, OpenResult};
