//! Tic-tac-toe: the game, fixed strategies to play against, and the
//! strategy of a network.

pub mod exp;
pub mod game;
pub mod strats;
