//! A chess rules engine: positions, attack and pin detection, legal move generation,
//! reversible move application, and game outcome classification.

pub mod piece;
pub mod board;
pub mod play;
pub mod movegen;
pub mod game;
pub mod fen;

pub use board::{Board, DrawType, GameOutcome, HistoryData};
pub use fen::FenError;
pub use piece::{Move, Piece, PieceColor, PieceType};
