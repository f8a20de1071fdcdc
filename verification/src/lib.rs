//! Optimal play for tic-tac-toe by exhaustive game-tree search.
//!
//! The board is a 3x3 grid of cells. Contracts speak of a board through its
//! nine cells in row-major order, a `Seq<Cell>` of length nine.

pub mod board;
pub mod eval;
pub mod laws;
pub mod search;

pub use board::{
    available_moves, make_move, other_player, try_make_move, Board, Cell, InvalidMove, Move, Player,
};
pub use eval::{check_line, evaluate, is_game_over, MAX_SCORE, MIN_SCORE};
pub use search::{best_moves, minimax};
