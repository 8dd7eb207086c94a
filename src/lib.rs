pub mod board;
pub mod mine_sweeper_cell;

pub use board::Minesweeper;
pub use mine_sweeper_cell::{Cell, CellKind, CellState};
