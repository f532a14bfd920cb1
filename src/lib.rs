//! A connect-four engine: a packed bit board with constant-time move
//! legality, placement and win detection, and move search on top of it.
pub mod bits;
pub mod board;
pub mod mcts;
pub mod playout;
pub mod search;

pub use board::{BitBoard, Board, BoardError, Outcome, Side};
pub use mcts::{Choice, McTreeAI, Proven, Tree};
pub use playout::{random_game, RandomSource};
pub use search::{search, Eval, Playout, Score};
