//! A two-player chess rules engine: board state, move generation, check and
//! checkmate detection, and the select/drop state machine that commits moves.

pub mod board;
pub mod game;
pub mod laws;
pub mod legality;
pub mod moves;
pub mod piece;
pub mod shape;

pub use board::{Board, Tile};
pub use game::{Game, GameMoveRecord};
pub use piece::{Piece, PieceType, Side};
