//! Vanishing tic-tac-toe: a 3x3 board game in which, once more than six marks
//! are on the board, the oldest surviving mark disappears with every new move.
//!
//! The crate has two parts: the game state machine ([`game`]), which owns the
//! board, move legality, the vanish rule, win detection and turn switching;
//! and the move advisor ([`ai`]), a stateless policy that proposes a move for
//! the side to play (win now, else block the opponent, else a random empty
//! cell).

pub mod ai;
pub mod game;
