//! Knight moves.
use vstd::prelude::*;

use crate::mov::ChessMove;
use crate::movegen::{appends, from_to_key, keys_rise, piece_moves, push_piece_moves};
use crate::movelist::MoveList;
use crate::piece::PieceKind;
use crate::position::{MoveGenContext, Position};

verus! {

/// Appends every knight move of the side in `context` onto a square it does not
/// occupy, knight by knight in square order.
pub fn generate_pseudo_knight_moves(pos: &Position, context: &MoveGenContext, moves: &mut Vec<ChessMove>)
    ensures
        appends(old(moves)@, final(moves)@, piece_moves(*pos, *context, PieceKind::Knight)),
        keys_rise(old(moves)@, final(moves)@, |m: ChessMove| from_to_key(m)),
{
    push_piece_moves(pos, context, PieceKind::Knight, moves);
}

/// `generate_pseudo_knight_moves` into a `MoveList`.
pub fn generate_pseudo_knight_moves_fast(pos: &Position, context: &MoveGenContext, moves: &mut MoveList)
    ensures
        appends(old(moves)@, final(moves)@, piece_moves(*pos, *context, PieceKind::Knight)),
        keys_rise(old(moves)@, final(moves)@, |m: ChessMove| from_to_key(m)),
{
    let mut v = moves.to_vec();
    push_piece_moves(pos, context, PieceKind::Knight, &mut v);
    *moves = MoveList::from_vec(v);
}

} // verus!
