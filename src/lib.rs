//! Exact cover by dancing links (Knuth's Algorithm X), and a Sudoku board
//! with a digit-by-digit backtracking solver.

pub mod builder;
pub mod config;
pub mod cover;
pub mod dlx;
pub mod laws;
pub mod ring;
pub mod search;
pub mod sudoku;

pub use builder::{from_matrix, MatrixFormatError};
pub use config::Config;
pub use cover::{cover, uncover};
pub use dlx::{Addr, Node, A};
pub use search::{dlx, search};
pub use sudoku::{backtrack, Board, Cell};
