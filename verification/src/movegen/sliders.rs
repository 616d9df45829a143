//! Bishop, rook and queen moves.
use vstd::prelude::*;

use crate::mov::ChessMove;
use crate::movegen::{appends, from_to_key, keys_rise, piece_moves, push_piece_moves};
use crate::movelist::MoveList;
use crate::piece::PieceKind;
use crate::position::{MoveGenContext, Position};

verus! {

/// Appends every bishop move of the side in `context`: along the diagonals up to the
/// first occupied square, onto squares it does not occupy.
pub fn generate_pseudo_bishop_moves(pos: &Position, context: &MoveGenContext, moves: &mut Vec<ChessMove>)
    ensures
        appends(old(moves)@, final(moves)@, piece_moves(*pos, *context, PieceKind::Bishop)),
        keys_rise(old(moves)@, final(moves)@, |m: ChessMove| from_to_key(m)),
{
    push_piece_moves(pos, context, PieceKind::Bishop, moves);
}

/// Appends every rook move of the side in `context`.
pub fn generate_pseudo_rook_moves(pos: &Position, context: &MoveGenContext, moves: &mut Vec<ChessMove>)
    ensures
        appends(old(moves)@, final(moves)@, piece_moves(*pos, *context, PieceKind::Rook)),
        keys_rise(old(moves)@, final(moves)@, |m: ChessMove| from_to_key(m)),
{
    push_piece_moves(pos, context, PieceKind::Rook, moves);
}

/// Appends every queen move of the side in `context` (rook and bishop lines).
pub fn generate_pseudo_queen_moves(pos: &Position, context: &MoveGenContext, moves: &mut Vec<ChessMove>)
    ensures
        appends(old(moves)@, final(moves)@, piece_moves(*pos, *context, PieceKind::Queen)),
        keys_rise(old(moves)@, final(moves)@, |m: ChessMove| from_to_key(m)),
{
    push_piece_moves(pos, context, PieceKind::Queen, moves);
}

/// `generate_pseudo_bishop_moves` into a `MoveList`.
pub fn generate_pseudo_bishop_moves_fast(pos: &Position, context: &MoveGenContext, moves: &mut MoveList)
    ensures
        appends(old(moves)@, final(moves)@, piece_moves(*pos, *context, PieceKind::Bishop)),
        keys_rise(old(moves)@, final(moves)@, |m: ChessMove| from_to_key(m)),
{
    let mut v = moves.to_vec();
    push_piece_moves(pos, context, PieceKind::Bishop, &mut v);
    *moves = MoveList::from_vec(v);
}

/// `generate_pseudo_rook_moves` into a `MoveList`.
pub fn generate_pseudo_rook_moves_fast(pos: &Position, context: &MoveGenContext, moves: &mut MoveList)
    ensures
        appends(old(moves)@, final(moves)@, piece_moves(*pos, *context, PieceKind::Rook)),
        keys_rise(old(moves)@, final(moves)@, |m: ChessMove| from_to_key(m)),
{
    let mut v = moves.to_vec();
    push_piece_moves(pos, context, PieceKind::Rook, &mut v);
    *moves = MoveList::from_vec(v);
}

/// `generate_pseudo_queen_moves` into a `MoveList`.
pub fn generate_pseudo_queen_moves_fast(pos: &Position, context: &MoveGenContext, moves: &mut MoveList)
    ensures
        appends(old(moves)@, final(moves)@, piece_moves(*pos, *context, PieceKind::Queen)),
        keys_rise(old(moves)@, final(moves)@, |m: ChessMove| from_to_key(m)),
{
    let mut v = moves.to_vec();
    push_piece_moves(pos, context, PieceKind::Queen, &mut v);
    *moves = MoveList::from_vec(v);
}

} // verus!
