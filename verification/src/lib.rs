//! Bitboard chess move generation: board representation, attack sets,
//! move application and legal move generation, with their contracts.
use vstd::prelude::*;

pub mod bitboardmask;
pub mod attack;
pub mod attack_table;
pub mod bitboard;
pub mod bits;
pub mod build_tools;
pub mod castling;
pub mod constants;
pub mod fen;
pub mod fen_roundtrip;
pub mod generator;
pub mod geometry;
pub mod intrinsics;
pub mod mov;
pub mod movegen;
pub mod movelist;
pub mod occupancy;
pub mod piecebitboards;
pub mod position;
pub mod perft;
pub mod piece;
pub mod square;
pub mod subray;
pub mod tables;
pub mod text;
pub mod uci;
pub mod zobrist;

pub use bitboardmask::BitBoardMask;
pub use movelist::MoveList;
pub use perft::perft;
pub use perft::perft_divide;
pub use square::Square;

verus! {

} // verus!
