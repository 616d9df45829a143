//! King moves, including castling.
use vstd::prelude::*;

use crate::attack::{lemma_lowest, lowest};
use crate::geometry::king_targets;
use crate::mov::{ChessMove, MoveType};
use crate::movegen::{
    appends, keys_rise, lemma_appends_none, lemma_appends_then, push_moves_from_valid_targets, push_one,
    target_moves,
};
use crate::bitboard::king_attacks;
use crate::movelist::MoveList;
use crate::piece::{piece_of, Color, PieceKind};
use crate::position::{castle_ok, MoveGenContext, Position};
use crate::square::{lemma_square_range, Square};

verus! {

broadcast use lemma_square_range;

/// The king of the side in `ctx` (its lowest square, if several) steps onto a square
/// the side does not occupy, or castles where `castle_ok` allows.
pub open spec fn king_moves(pos: Position, ctx: MoveGenContext) -> spec_fn(ChessMove) -> bool {
    |m: ChessMove| {
        let k = pos.bb(piece_of(ctx.us, PieceKind::King));
        let base = if ctx.us == Color::White { 0int } else { 56int };
        &&& k != Set::<int>::empty()
        &&& m.from@ == lowest(k)
        &&& {
            ||| target_moves(pos, ctx.us, m.from, king_targets(m.from@).intersect(ctx.not_ours@))(m)
            ||| (castle_ok(pos, ctx.us, true) && m.to@ == base + 6 && m.move_type == MoveType::CastleKingside)
            ||| (castle_ok(pos, ctx.us, false) && m.to@ == base + 2 && m.move_type == MoveType::CastleQueenside)
        }
    }
}

/// Order of the king's moves: its steps by destination square, then castling on the
/// king side, then on the queen side.
pub open spec fn king_order_key(m: ChessMove) -> int {
    if m.move_type == MoveType::CastleKingside {
        64
    } else if m.move_type == MoveType::CastleQueenside {
        65
    } else {
        m.to@
    }
}

/// Steps rising by destination, then a king-side castle, then a queen-side castle,
/// rise in `king_order_key`.
proof fn lemma_appends_order(
    s0: Seq<ChessMove>,
    s1: Seq<ChessMove>,
    s2: Seq<ChessMove>,
    s3: Seq<ChessMove>,
    p1: spec_fn(ChessMove) -> bool,
    p2: spec_fn(ChessMove) -> bool,
    p3: spec_fn(ChessMove) -> bool,
)
    requires
        appends(s0, s1, p1),
        appends(s1, s2, p2),
        appends(s2, s3, p3),
        keys_rise(s0, s1, |m: ChessMove| m.to@),
        forall|m: ChessMove| #[trigger] p1(m) ==> m.move_type == MoveType::Quiet || m.move_type == MoveType::Capture,
        forall|m: ChessMove| #[trigger] p2(m) ==> m.move_type == MoveType::CastleKingside,
        forall|m: ChessMove| #[trigger] p3(m) ==> m.move_type == MoveType::CastleQueenside,
    ensures
        keys_rise(s0, s3, |m: ChessMove| king_order_key(m)),
{
    assert forall|k: int| 0 <= k < s1.len() implies s2[k] == #[trigger] s1[k] by {
        assert(s2.subrange(0, s1.len() as int)[k] == s2[k]);
    }
    assert forall|k: int| 0 <= k < s2.len() implies s3[k] == #[trigger] s2[k] by {
        assert(s3.subrange(0, s2.len() as int)[k] == s3[k]);
    }
    assert forall|k: int| s0.len() <= k < s3.len() implies king_order_key(#[trigger] s3[k]) == (if k < s1.len() {
        s3[k].to@
    } else if k < s2.len() {
        64
    } else {
        65
    }) by {
        if k < s1.len() {
            assert(s3[k] == s1[k]);
            assert(p1(s1[k]));
        } else if k < s2.len() {
            assert(s3[k] == s2[k]);
            assert(p2(s2[k]));
        } else {
            assert(p3(s3[k]));
        }
    }
    assert forall|j: int, k: int| s0.len() <= j < k < s3.len() implies king_order_key(s3[j]) <= king_order_key(s3[k]) by {
        if k < s1.len() {
            assert(s3[j] == s1[j] && s3[k] == s1[k]);
        }
    }
}

/// Appends the king's steps and then any castling moves.
pub fn generate_pseudo_king_moves(pos: &Position, context: &MoveGenContext, moves: &mut Vec<ChessMove>)
    ensures
        appends(old(moves)@, final(moves)@, king_moves(*pos, *context)),
        keys_rise(old(moves)@, final(moves)@, |m: ChessMove| king_order_key(m)),
{
    proof {
        pos.pieces.lemma_len();
    }
    let ghost s0 = moves@;
    let king_bb = pos.pieces.get(crate::piece::Piece::from_parts(context.us, Some(PieceKind::King)));
    match king_bb.first_square() {
        None => {
            proof {
                assert forall|m: ChessMove| !#[trigger] king_moves(*pos, *context)(m) by {}
                lemma_appends_none(s0, king_moves(*pos, *context));
            }
        },
        Some(from) => {
            proof {
                lemma_lowest(king_bb@, from@);
            }
            let valid_moves = king_attacks(from).and(context.not_ours);
            push_moves_from_valid_targets(pos, context, from, valid_moves, moves);
            let ghost s1 = moves@;
            let ghost p1 = target_moves(*pos, context.us, from, valid_moves@);

            let ghost p2 = |m: ChessMove| castle_ok(*pos, context.us, true) && m == ChessMove { from, to: if context.us == Color::White { Square::G1 } else { Square::G8 }, move_type: MoveType::CastleKingside };
            if pos.can_castle_kingside(context.us) {
                let to = match context.us {
                    Color::White => Square::G1,
                    Color::Black => Square::G8,
                };
                let mv = ChessMove::new(from, to, MoveType::CastleKingside);
                push_one(moves, mv);
                proof {
                    assert((|x: ChessMove| x == mv) =~= p2);
                }
            } else {
                proof {
                    lemma_appends_none(s1, p2);
                }
            }
            let ghost s2 = moves@;
            let ghost a2 = |m: ChessMove| p1(m) || p2(m);
            proof {
                lemma_appends_then(s0, s1, s2, p1, p2);
            }

            let ghost p3 = |m: ChessMove| castle_ok(*pos, context.us, false) && m == ChessMove { from, to: if context.us == Color::White { Square::C1 } else { Square::C8 }, move_type: MoveType::CastleQueenside };
            if pos.can_castle_queenside(context.us) {
                let to = match context.us {
                    Color::White => Square::C1,
                    Color::Black => Square::C8,
                };
                let mv = ChessMove::new(from, to, MoveType::CastleQueenside);
                push_one(moves, mv);
                proof {
                    assert((|x: ChessMove| x == mv) =~= p3);
                }
            } else {
                proof {
                    lemma_appends_none(s2, p3);
                }
            }
            proof {
                lemma_appends_then(s0, s2, moves@, a2, p3);
                assert((|m: ChessMove| a2(m) || p3(m)) =~= king_moves(*pos, *context));
                lemma_appends_order(s0, s1, s2, moves@, p1, p2, p3);
            }
        },
    }
}

/// `generate_pseudo_king_moves` into a `MoveList`.
pub fn generate_pseudo_king_moves_fast(pos: &Position, context: &MoveGenContext, moves: &mut MoveList)
    ensures
        appends(old(moves)@, final(moves)@, king_moves(*pos, *context)),
        keys_rise(old(moves)@, final(moves)@, |m: ChessMove| king_order_key(m)),
{
    let mut v = moves.to_vec();
    generate_pseudo_king_moves(pos, context, &mut v);
    *moves = MoveList::from_vec(v);
}

} // verus!
