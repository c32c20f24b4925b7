//! Depth-bounded game-tree search (minimax and alpha-beta) over any
//! two-player, zero-sum, perfect-information game, with a connect-four board
//! as one such game.

pub mod search;
pub mod connect_four;
