//! A tic-tac-toe engine: a 3x3 board with move and undo, a status scan over
//! the eight lines, and an exhaustive minimax search that picks the optimal
//! move for the side on move.
pub mod board;
pub mod search;
