//! Capture generation: the moves that take a piece, promotions from the last rank but
//! one, and en-passant captures.
use vstd::prelude::*;

use crate::attack::{lemma_lowest, lowest, pawn_sources};
use crate::bitboard::{king_attacks, pawn_attacks_from, pawn_attacks_to};
use crate::bits::{bits, lemma_lowest_bit};
use crate::bitboardmask::BitBoardMask;
use crate::geometry::{bishop_targets, lemma_bishop_rook_targets_disjoint, pawn_targets};
use crate::mov::{ChessMove, MoveType};
use crate::movegen::{
    appends, attack_moves, collects, from_to_key, pawn_from_to_key, pawn_to_key, is_promotion_choice, keys_below, keys_rise, lemma_appends_collects,
    lemma_appends_none, lemma_rise_step,
    lemma_appends_then, lemma_collects_then,
    lemma_loop_done, lemma_loop_start, lemma_loop_step, push_attack_moves, push_moves_from_valid_targets,
    push_one, push_promotions, their_kind, target_moves,
};
use crate::movelist::MoveList;
use crate::occupancy::OccupancyKind;
use crate::piece::{piece_of, Color, Piece, PieceKind};
use crate::movegen::api::{lemma_lowest_exists, pieces_disjoint};
use crate::position::{pidx, MoveGenContext, Position};
use crate::square::{lemma_square_range, rank_of, Square};

verus! {

broadcast use lemma_square_range;

/// The rank a pawn of `us` promotes from.
pub open spec fn promo_from_rank(us: Color) -> int {
    if us == Color::White {
        6
    } else {
        1
    }
}

/// Pawn captures of `us` from the squares of `pawns` onto the squares of `their`:
/// the four promotions from the promotion rank, a plain capture elsewhere.
pub open spec fn pawn_capture_moves(us: Color, pawns: Set<int>, their: Set<int>) -> spec_fn(ChessMove) -> bool {
    |m: ChessMove|
        pawns.contains(m.from@) && pawn_targets(us, m.from@).intersect(their).contains(m.to@) && (if rank_of(
            m.from@,
        ) == promo_from_rank(us) {
            is_promotion_choice(m.move_type)
        } else {
            m.move_type == MoveType::Capture
        })
}

/// En-passant captures onto the en-passant square by the pawns of `us` in `pawns`.
pub open spec fn ep_capture_moves(pos: Position, us: Color, pawns: Set<int>) -> spec_fn(ChessMove) -> bool {
    |m: ChessMove|
        pos.ep_square is Some && m.to == pos.ep_square->0 && m.move_type == MoveType::EnPassant
            && pawn_sources(us, m.to@).intersect(pawns).contains(m.from@)
}

/// King captures: from the lowest square of the king set, when there is one.
pub open spec fn king_capture_moves(pos: Position, us: Color) -> spec_fn(ChessMove) -> bool {
    |m: ChessMove| {
        let k = pos.bb(piece_of(us, PieceKind::King));
        k != Set::<int>::empty() && attack_moves(
            pos,
            us,
            set![lowest(k)],
            PieceKind::King,
            pos.occ(OccupancyKind::Both),
            pos.occ(their_kind(us)),
        )(m)
    }
}

/// Capture-like moves of the side to move: pawn captures (promoting from the last rank
/// but one), knight, bishop-or-queen diagonal, rook-or-queen straight and king
/// captures, and en-passant captures.
pub open spec fn capture_moves(pos: Position) -> spec_fn(ChessMove) -> bool {
    |m: ChessMove| {
        let us = pos.side_to_move;
        let their = pos.occ(their_kind(us));
        let occ = pos.occ(OccupancyKind::Both);
        let b = |k: PieceKind| pos.bb(piece_of(us, k));
        ||| pawn_capture_moves(us, b(PieceKind::Pawn), their)(m)
        ||| attack_moves(pos, us, b(PieceKind::Knight), PieceKind::Knight, occ, their)(m)
        ||| attack_moves(pos, us, b(PieceKind::Bishop).union(b(PieceKind::Queen)), PieceKind::Bishop, occ, their)(m)
        ||| attack_moves(pos, us, b(PieceKind::Rook).union(b(PieceKind::Queen)), PieceKind::Rook, occ, their)(m)
        ||| king_capture_moves(pos, us)(m)
        ||| ep_capture_moves(pos, us, b(PieceKind::Pawn))(m)
    }
}

/// `new` extends `old` by the pawn captures, then the knight, bishop-or-queen,
/// rook-or-queen, king and en-passant captures of the side to move, each group in a
/// block of its own that ends at the given lengths; within a group the moves come by
/// origin square, then destination square (pawn promotions in the order of
/// `promo_rank`).
pub open spec fn capture_splits(
    pos: Position,
    old: Seq<ChessMove>,
    new: Seq<ChessMove>,
    i1: int,
    i2: int,
    i3: int,
    i4: int,
    i5: int,
) -> bool {
    let us = pos.side_to_move;
    let their = pos.occ(their_kind(us));
    let occ = pos.occ(OccupancyKind::Both);
    let b = |k: PieceKind| pos.bb(piece_of(us, k));
    &&& old.len() <= i1 <= i2 <= i3 <= i4 <= i5 <= new.len()
    &&& collects(old, new.take(i1), pawn_capture_moves(us, b(PieceKind::Pawn), their))
    &&& collects(new.take(i1), new.take(i2), attack_moves(pos, us, b(PieceKind::Knight), PieceKind::Knight, occ, their))
    &&& collects(new.take(i2), new.take(i3), attack_moves(pos, us, b(PieceKind::Bishop).union(b(PieceKind::Queen)), PieceKind::Bishop, occ, their))
    &&& collects(new.take(i3), new.take(i4), attack_moves(pos, us, b(PieceKind::Rook).union(b(PieceKind::Queen)), PieceKind::Rook, occ, their))
    &&& collects(new.take(i4), new.take(i5), king_capture_moves(pos, us))
    &&& collects(new.take(i5), new, ep_capture_moves(pos, us, b(PieceKind::Pawn)))
    &&& keys_rise(old, new.take(i1), |m: ChessMove| pawn_from_to_key(m))
    &&& keys_rise(new.take(i1), new.take(i2), |m: ChessMove| from_to_key(m))
    &&& keys_rise(new.take(i2), new.take(i3), |m: ChessMove| from_to_key(m))
    &&& keys_rise(new.take(i3), new.take(i4), |m: ChessMove| from_to_key(m))
    &&& keys_rise(new.take(i4), new.take(i5), |m: ChessMove| m.to@)
    &&& keys_rise(new.take(i5), new, |m: ChessMove| from_to_key(m))
}

/// `new` extends `old` by the captures of the side to move in group order (see
/// `capture_splits`).
pub open spec fn capture_order(pos: Position, old: Seq<ChessMove>, new: Seq<ChessMove>) -> bool {
    exists|i1: int, i2: int, i3: int, i4: int, i5: int| #[trigger] capture_splits(pos, old, new, i1, i2, i3, i4, i5)
}

/// Appends the captures of one pawn on `from` onto each square of `targets`.
fn push_pawn_captures_from(moves: &mut Vec<ChessMove>, from: Square, targets: BitBoardMask, promo: bool)
    ensures
        appends(
            old(moves)@,
            final(moves)@,
            |m: ChessMove|
                m.from == from && targets@.contains(m.to@) && (if promo {
                    is_promotion_choice(m.move_type)
                } else {
                    m.move_type == MoveType::Capture
                }),
        ),
        keys_rise(old(moves)@, final(moves)@, |m: ChessMove| pawn_to_key(m)),
{
    let ghost start = moves@;
    let ghost p = |m: ChessMove|
        m.from == from && targets@.contains(m.to@) && (if promo {
            is_promotion_choice(m.move_type)
        } else {
            m.move_type == MoveType::Capture
        });
    let ghost key = |m: ChessMove| m.to@;
    let ghost okey = |m: ChessMove| pawn_to_key(m);
    let mut bb = targets.0;
    proof {
        lemma_loop_start(start, p, key, bits(bb));
    }
    while bb != 0
        invariant
            key == (|m: ChessMove| m.to@),
            p == (|m: ChessMove|
                m.from == from && targets@.contains(m.to@) && (if promo {
                    is_promotion_choice(m.move_type)
                } else {
                    m.move_type == MoveType::Capture
                })),
            bits(bb).subset_of(targets@),
            appends(start, moves@, |m: ChessMove| p(m) && !bits(bb).contains(key(m))),
            okey == (|m: ChessMove| pawn_to_key(m)),
            keys_rise(start, moves@, okey),
            keys_below(start, moves@, key, bits(bb)),
        decreases bb,
    {
        proof {
            lemma_lowest_bit(bb);
        }
        let t = bb.trailing_zeros();
        let to = Square::try_from_index(t as u8).unwrap();
        let ghost mid = moves@;
        let ghost old_bb = bb;
        if promo {
            push_promotions(moves, from, to);
        } else {
            push_one(moves, ChessMove::new(from, to, MoveType::Capture));
        }
        bb = bb & (bb - 1);
        proof {
            assert(bits(old_bb).contains(t as int));
            if promo {
                assert((|m: ChessMove| p(m) && key(m) == t as int) =~= (|m: ChessMove|
                    m.from == from && m.to == to && is_promotion_choice(m.move_type)));
            } else {
                assert((|m: ChessMove| p(m) && key(m) == t as int) =~= (|x: ChessMove|
                    x == (ChessMove { from, to, move_type: MoveType::Capture })));
            }
            lemma_loop_step(start, mid, moves@, p, key, bits(old_bb), t as int);
            assert forall|kk: int| mid.len() <= kk < moves@.len() implies key(#[trigger] moves@[kk]) == t as int by {
                assert(moves@.subrange(0, mid.len() as int) == mid);
            }
            assert forall|x: int| #[trigger] bits(old_bb).contains(x) implies t as int <= x by {
                if x < t as int {
                    assert(!crate::bits::bit(old_bb, x));
                }
            }
            assert forall|jj: int, kk: int| mid.len() <= jj < kk < moves@.len() implies okey(moves@[jj]) <= okey(moves@[kk]) by {
                assert(key(moves@[jj]) == t as int && key(moves@[kk]) == t as int);
            }
            assert forall|m1: ChessMove, m2: ChessMove| #[trigger] key(m1) < #[trigger] key(m2) implies okey(m1) < okey(m2) by {}
            lemma_rise_step(start, mid, moves@, key, okey, bits(old_bb), t as int);
        }
    }
    proof {
        crate::bits::lemma_bits_zero();
        lemma_loop_done(start, moves@, p, key);
    }
}

/// Appends the pawn captures of `us`, pawn by pawn in square order.
fn push_pawn_captures(moves: &mut Vec<ChessMove>, us: Color, pawns: BitBoardMask, their: BitBoardMask)
    ensures
        appends(old(moves)@, final(moves)@, pawn_capture_moves(us, pawns@, their@)),
        keys_rise(old(moves)@, final(moves)@, |m: ChessMove| pawn_from_to_key(m)),
{
    let ghost okey = |m: ChessMove| pawn_from_to_key(m);
    let ghost start = moves@;
    let ghost p = pawn_capture_moves(us, pawns@, their@);
    let ghost key = |m: ChessMove| m.from@;
    let promo_rank: u8 = if us == Color::White {
        6
    } else {
        1
    };
    let mut bb = pawns.0;
    proof {
        lemma_loop_start(start, p, key, bits(bb));
    }
    while bb != 0
        invariant
            p == pawn_capture_moves(us, pawns@, their@),
            key == (|m: ChessMove| m.from@),
            promo_rank == promo_from_rank(us),
            bits(bb).subset_of(pawns@),
            appends(start, moves@, |m: ChessMove| p(m) && !bits(bb).contains(key(m))),
            okey == (|m: ChessMove| pawn_from_to_key(m)),
            keys_rise(start, moves@, okey),
            keys_below(start, moves@, key, bits(bb)),
        decreases bb,
    {
        proof {
            lemma_lowest_bit(bb);
        }
        let t = bb.trailing_zeros();
        let from = Square::try_from_index(t as u8).unwrap();
        let attacks = pawn_attacks_from(from, us).and(their);
        let is_promo = from.rank() == promo_rank;
        let ghost mid = moves@;
        let ghost old_bb = bb;
        push_pawn_captures_from(moves, from, attacks, is_promo);
        bb = bb & (bb - 1);
        proof {
            assert(bits(old_bb).contains(t as int));
            assert((|m: ChessMove| p(m) && key(m) == t as int) =~= (|m: ChessMove|
                m.from == from && attacks@.contains(m.to@) && (if is_promo {
                    is_promotion_choice(m.move_type)
                } else {
                    m.move_type == MoveType::Capture
                })));
            lemma_loop_step(start, mid, moves@, p, key, bits(old_bb), t as int);
            assert forall|kk: int| mid.len() <= kk < moves@.len() implies key(#[trigger] moves@[kk]) == t as int by {
                assert(p(moves@[kk]) && key(moves@[kk]) == t as int);
            }
            assert forall|jj: int, kk: int| mid.len() <= jj < kk < moves@.len() implies okey(moves@[jj]) <= okey(moves@[kk]) by {
                assert(key(moves@[jj]) == t as int && key(moves@[kk]) == t as int);
            }
            assert forall|x: int| #[trigger] bits(old_bb).contains(x) implies t as int <= x by {
                if x < t as int {
                    assert(!crate::bits::bit(old_bb, x));
                }
            }
            assert forall|m1: ChessMove, m2: ChessMove| #[trigger] key(m1) < #[trigger] key(m2) implies okey(m1) < okey(m2) by {}
            lemma_rise_step(start, mid, moves@, key, okey, bits(old_bb), t as int);
        }
    }
    proof {
        crate::bits::lemma_bits_zero();
        lemma_loop_done(start, moves@, p, key);
    }
}

/// Appends an en-passant capture onto `ep` from each square of `attackers`.
fn push_ep_captures(moves: &mut Vec<ChessMove>, ep: Square, attackers: BitBoardMask)
    ensures
        appends(
            old(moves)@,
            final(moves)@,
            |m: ChessMove| m.to == ep && m.move_type == MoveType::EnPassant && attackers@.contains(m.from@),
        ),
        keys_rise(old(moves)@, final(moves)@, |m: ChessMove| from_to_key(m)),
{
    let ghost start = moves@;
    let ghost p = |m: ChessMove| m.to == ep && m.move_type == MoveType::EnPassant && attackers@.contains(m.from@);
    let ghost key = |m: ChessMove| m.from@;
    let ghost okey = |m: ChessMove| from_to_key(m);
    let mut bb = attackers.0;
    proof {
        lemma_loop_start(start, p, key, bits(bb));
    }
    while bb != 0
        invariant
            key == (|m: ChessMove| m.from@),
            p == (|m: ChessMove| m.to == ep && m.move_type == MoveType::EnPassant && attackers@.contains(m.from@)),
            bits(bb).subset_of(attackers@),
            appends(start, moves@, |m: ChessMove| p(m) && !bits(bb).contains(key(m))),
            okey == (|m: ChessMove| from_to_key(m)),
            keys_rise(start, moves@, okey),
            keys_below(start, moves@, key, bits(bb)),
        decreases bb,
    {
        proof {
            lemma_lowest_bit(bb);
        }
        let t = bb.trailing_zeros();
        let from = Square::try_from_index(t as u8).unwrap();
        let ghost mid = moves@;
        let ghost old_bb = bb;
        push_one(moves, ChessMove::new(from, ep, MoveType::EnPassant));
        bb = bb & (bb - 1);
        proof {
            assert(bits(old_bb).contains(t as int));
            assert((|m: ChessMove| p(m) && key(m) == t as int) =~= (|x: ChessMove|
                x == (ChessMove { from, to: ep, move_type: MoveType::EnPassant })));
            lemma_loop_step(start, mid, moves@, p, key, bits(old_bb), t as int);
            assert forall|kk: int| mid.len() <= kk < moves@.len() implies key(#[trigger] moves@[kk]) == t as int by {}
            assert forall|x: int| #[trigger] bits(old_bb).contains(x) implies t as int <= x by {
                if x < t as int {
                    assert(!crate::bits::bit(old_bb, x));
                }
            }
            assert forall|m1: ChessMove, m2: ChessMove| #[trigger] key(m1) < #[trigger] key(m2) implies okey(m1) < okey(m2) by {}
            lemma_rise_step(start, mid, moves@, key, okey, bits(old_bb), t as int);
        }
    }
    proof {
        crate::bits::lemma_bits_zero();
        lemma_loop_done(start, moves@, p, key);
    }
}

/// Capture groups appended one after another, each in its own order, make a list in
/// capture order.
proof fn lemma_capture_order(
    pos: Position,
    s0: Seq<ChessMove>,
    s1: Seq<ChessMove>,
    s2: Seq<ChessMove>,
    s3: Seq<ChessMove>,
    s4: Seq<ChessMove>,
    s5: Seq<ChessMove>,
    fin: Seq<ChessMove>,
)
    requires
        ({
            let us = pos.side_to_move;
            let their = pos.occ(their_kind(us));
            let occ = pos.occ(OccupancyKind::Both);
            let b = |k: PieceKind| pos.bb(piece_of(us, k));
            &&& collects(s0, s1, pawn_capture_moves(us, b(PieceKind::Pawn), their))
            &&& collects(s1, s2, attack_moves(pos, us, b(PieceKind::Knight), PieceKind::Knight, occ, their))
            &&& collects(s2, s3, attack_moves(pos, us, b(PieceKind::Bishop).union(b(PieceKind::Queen)), PieceKind::Bishop, occ, their))
            &&& collects(s3, s4, attack_moves(pos, us, b(PieceKind::Rook).union(b(PieceKind::Queen)), PieceKind::Rook, occ, their))
            &&& collects(s4, s5, king_capture_moves(pos, us))
            &&& collects(s5, fin, ep_capture_moves(pos, us, b(PieceKind::Pawn)))
        }),
        keys_rise(s0, s1, |m: ChessMove| pawn_from_to_key(m)),
        keys_rise(s1, s2, |m: ChessMove| from_to_key(m)),
        keys_rise(s2, s3, |m: ChessMove| from_to_key(m)),
        keys_rise(s3, s4, |m: ChessMove| from_to_key(m)),
        keys_rise(s4, s5, |m: ChessMove| m.to@),
        keys_rise(s5, fin, |m: ChessMove| from_to_key(m)),
    ensures
        capture_order(pos, s0, fin),
{
    assert(fin.take(s5.len() as int) =~= s5);
    assert(fin.take(s4.len() as int) =~= s4) by {
        assert(s5.take(s4.len() as int) =~= s4);
    }
    assert(fin.take(s3.len() as int) =~= s3) by {
        assert(s5.take(s4.len() as int) =~= s4);
        assert(s4.take(s3.len() as int) =~= s3);
    }
    assert(fin.take(s2.len() as int) =~= s2) by {
        assert(s5.take(s4.len() as int) =~= s4);
        assert(s4.take(s3.len() as int) =~= s3);
        assert(s3.take(s2.len() as int) =~= s2);
    }
    assert(fin.take(s1.len() as int) =~= s1) by {
        assert(s5.take(s4.len() as int) =~= s4);
        assert(s4.take(s3.len() as int) =~= s3);
        assert(s3.take(s2.len() as int) =~= s2);
        assert(s2.take(s1.len() as int) =~= s1);
    }
    assert(capture_splits(pos, s0, fin, s1.len() as int, s2.len() as int, s3.len() as int, s4.len() as int, s5.len() as int));
}

/// The capture groups appended one after another make every capture-like move, in
/// capture order, each once when no square holds two pieces.
#[verifier::spinoff_prover]
#[verifier::rlimit(60)]
proof fn lemma_capture_groups(
    ps: Position,
    s0: Seq<ChessMove>,
    s1: Seq<ChessMove>,
    s2: Seq<ChessMove>,
    s3: Seq<ChessMove>,
    s4: Seq<ChessMove>,
    s5: Seq<ChessMove>,
    fin: Seq<ChessMove>,
)
    requires
        ({
            let us = ps.side_to_move;
            let their = ps.occ(their_kind(us));
            let occs = ps.occ(OccupancyKind::Both);
            let b = |k: PieceKind| ps.bb(piece_of(us, k));
            &&& appends(s0, s1, pawn_capture_moves(us, b(PieceKind::Pawn), their))
            &&& appends(s1, s2, attack_moves(ps, us, b(PieceKind::Knight), PieceKind::Knight, occs, their))
            &&& appends(s2, s3, attack_moves(ps, us, b(PieceKind::Bishop).union(b(PieceKind::Queen)), PieceKind::Bishop, occs, their))
            &&& appends(s3, s4, attack_moves(ps, us, b(PieceKind::Rook).union(b(PieceKind::Queen)), PieceKind::Rook, occs, their))
            &&& appends(s4, s5, king_capture_moves(ps, us))
            &&& appends(s5, fin, ep_capture_moves(ps, us, b(PieceKind::Pawn)))
        }),
        keys_rise(s0, s1, |m: ChessMove| pawn_from_to_key(m)),
        keys_rise(s1, s2, |m: ChessMove| from_to_key(m)),
        keys_rise(s2, s3, |m: ChessMove| from_to_key(m)),
        keys_rise(s3, s4, |m: ChessMove| from_to_key(m)),
        keys_rise(s4, s5, |m: ChessMove| m.to@),
        keys_rise(s5, fin, |m: ChessMove| from_to_key(m)),
    ensures
        collects(s0, fin, capture_moves(ps)),
        capture_order(ps, s0, fin),
        pieces_disjoint(ps) ==> appends(s0, fin, capture_moves(ps)),
{
    let us = ps.side_to_move;
    let their = ps.occ(their_kind(us));
    let occs = ps.occ(OccupancyKind::Both);
    let b = |k: PieceKind| ps.bb(piece_of(us, k));
    let c1 = pawn_capture_moves(us, b(PieceKind::Pawn), their);
    let c2 = attack_moves(ps, us, b(PieceKind::Knight), PieceKind::Knight, occs, their);
    let c3 = attack_moves(ps, us, b(PieceKind::Bishop).union(b(PieceKind::Queen)), PieceKind::Bishop, occs, their);
    let c4 = attack_moves(ps, us, b(PieceKind::Rook).union(b(PieceKind::Queen)), PieceKind::Rook, occs, their);
    let c5 = king_capture_moves(ps, us);
    let c6 = ep_capture_moves(ps, us, b(PieceKind::Pawn));
    let a2 = |m: ChessMove| c1(m) || c2(m);
    let a3 = |m: ChessMove| a2(m) || c3(m);
    let a4 = |m: ChessMove| a3(m) || c4(m);
    let a5 = |m: ChessMove| a4(m) || c5(m);
    lemma_appends_collects(s0, s1, c1);
    lemma_appends_collects(s1, s2, c2);
    lemma_appends_collects(s2, s3, c3);
    lemma_appends_collects(s3, s4, c4);
    lemma_appends_collects(s4, s5, c5);
    lemma_appends_collects(s5, fin, c6);
    assert(capture_order(ps, s0, fin)) by {
        lemma_capture_order(ps, s0, s1, s2, s3, s4, s5, fin);
    }
    lemma_collects_then(s0, s1, s2, c1, c2);
    lemma_collects_then(s0, s2, s3, a2, c3);
    lemma_collects_then(s0, s3, s4, a3, c4);
    lemma_collects_then(s0, s4, s5, a4, c5);
    lemma_collects_then(s0, s5, fin, a5, c6);
    assert((|m: ChessMove| a5(m) || c6(m)) =~= capture_moves(ps));
    if pieces_disjoint(ps) {
        let pw = piece_of(us, PieceKind::Pawn);
        let kn = piece_of(us, PieceKind::Knight);
        let bi = piece_of(us, PieceKind::Bishop);
        let ro = piece_of(us, PieceKind::Rook);
        let qu = piece_of(us, PieceKind::Queen);
        let ki = piece_of(us, PieceKind::King);
        assert(ps.bb(pw).disjoint(ps.bb(kn)));
        assert(ps.bb(pw).disjoint(ps.bb(bi)) && ps.bb(kn).disjoint(ps.bb(bi)));
        assert(ps.bb(pw).disjoint(ps.bb(ro)) && ps.bb(kn).disjoint(ps.bb(ro)) && ps.bb(bi).disjoint(ps.bb(ro)));
        assert(ps.bb(pw).disjoint(ps.bb(qu)) && ps.bb(kn).disjoint(ps.bb(qu)) && ps.bb(bi).disjoint(ps.bb(qu)) && ps.bb(ro).disjoint(ps.bb(qu)));
        assert(ps.bb(pw).disjoint(ps.bb(ki)) && ps.bb(kn).disjoint(ps.bb(ki)) && ps.bb(bi).disjoint(ps.bb(ki)) && ps.bb(ro).disjoint(ps.bb(ki)) && ps.bb(qu).disjoint(ps.bb(ki)));
        assert forall|m: ChessMove| #[trigger] c5(m) implies ps.bb(ki).contains(m.from@) by {
            let k = ps.bb(ki);
            crate::bits::lemma_bits_subset(ps.pieces@[pidx(ki)].0);
            lemma_lowest_exists(k);
        }
        assert forall|m: ChessMove| !(#[trigger] c3(m) && c4(m)) by {
            if c3(m) && c4(m) {
                lemma_bishop_rook_targets_disjoint(m.from@, occs);
                assert(bishop_targets(m.from@, occs).contains(m.to@));
            }
        }
        lemma_appends_then(s0, s1, s2, c1, c2);
        lemma_appends_then(s0, s2, s3, a2, c3);
        lemma_appends_then(s0, s3, s4, a3, c4);
        lemma_appends_then(s0, s4, s5, a4, c5);
        lemma_appends_then(s0, s5, fin, a5, c6);
    }
}

/// Every capture-like move of the side to move (see `capture_moves`): pawn captures
/// pawn by pawn, then knight, bishop-or-queen, rook-or-queen and king captures origin by
/// origin, then en-passant captures; each group in square order.
#[verifier::spinoff_prover]
#[verifier::rlimit(100)]
fn collect_captures(pos: &Position, moves: &mut Vec<ChessMove>)
    ensures
        collects(old(moves)@, final(moves)@, capture_moves(*pos)),
        capture_order(*pos, old(moves)@, final(moves)@),
        pieces_disjoint(*pos) ==> appends(old(moves)@, final(moves)@, capture_moves(*pos)),
{
    proof {
        pos.pieces.lemma_len();
    }
    let us = pos.side_to_move;
    let their_occ = pos.their_pieces(us);
    let occ = pos.all_pieces();
    let context = MoveGenContext { us, not_ours: their_occ, occupancy: occ };
    let ghost ps = *pos;
    let ghost their = ps.occ(their_kind(us));
    let ghost occs = ps.occ(OccupancyKind::Both);
    let pawn_bb = pos.pieces.get(Piece::from_parts(us, Some(PieceKind::Pawn)));
    let knight_bb = pos.pieces.get(Piece::from_parts(us, Some(PieceKind::Knight)));
    let bishop_bb = pos.pieces.get(Piece::from_parts(us, Some(PieceKind::Bishop)));
    let rook_bb = pos.pieces.get(Piece::from_parts(us, Some(PieceKind::Rook)));
    let queen_bb = pos.pieces.get(Piece::from_parts(us, Some(PieceKind::Queen)));
    let king_bb = pos.pieces.get(Piece::from_parts(us, Some(PieceKind::King)));
    let bishop_like = bishop_bb.or(queen_bb);
    let rook_like = rook_bb.or(queen_bb);
    proof {
        assert(their_occ@ == their);
    }
    let ghost s0 = moves@;
    push_pawn_captures(moves, us, pawn_bb, their_occ);
    let ghost s1 = moves@;
    push_attack_moves(pos, &context, knight_bb, PieceKind::Knight, occ, their_occ, moves);
    let ghost s2 = moves@;
    push_attack_moves(pos, &context, bishop_like, PieceKind::Bishop, occ, their_occ, moves);
    let ghost s3 = moves@;
    push_attack_moves(pos, &context, rook_like, PieceKind::Rook, occ, their_occ, moves);
    let ghost s4 = moves@;
    match king_bb.first_square() {
        Some(from) => {
            let attacks = king_attacks(from).and(their_occ);
            push_moves_from_valid_targets(pos, &context, from, attacks, moves);
            proof {
                lemma_lowest(king_bb@, from@);
                assert(target_moves(ps, us, from, attacks@) =~= king_capture_moves(ps, us));
            }
        },
        None => {
            proof {
                lemma_appends_none(s4, king_capture_moves(ps, us));
                assert(keys_rise(s4, moves@, |m: ChessMove| m.to@));
            }
        },
    }
    let ghost s5 = moves@;
    match pos.ep_square {
        Some(ep_sq) => {
            let ep_attackers = pawn_attacks_to(ep_sq, us).and(pawn_bb);
            push_ep_captures(moves, ep_sq, ep_attackers);
            proof {
                assert((|m: ChessMove| m.to == ep_sq && m.move_type == MoveType::EnPassant && ep_attackers@.contains(m.from@))
                    =~= ep_capture_moves(ps, us, pawn_bb@));
            }
        },
        None => {
            proof {
                lemma_appends_none(s5, ep_capture_moves(ps, us, pawn_bb@));
            }
        },
    }
    proof {
        let b = |k: PieceKind| ps.bb(piece_of(us, k));
        assert(pawn_capture_moves(us, b(PieceKind::Pawn), their) == pawn_capture_moves(us, pawn_bb@, their_occ@));
        assert(attack_moves(ps, us, b(PieceKind::Bishop).union(b(PieceKind::Queen)), PieceKind::Bishop, occs, their)
            == attack_moves(ps, us, bishop_like@, PieceKind::Bishop, occ@, their_occ@));
        assert(attack_moves(ps, us, b(PieceKind::Rook).union(b(PieceKind::Queen)), PieceKind::Rook, occs, their)
            == attack_moves(ps, us, rook_like@, PieceKind::Rook, occ@, their_occ@));
        lemma_capture_groups(ps, s0, s1, s2, s3, s4, s5, moves@);
    }
}

/// Every capture-like move of the side to move (see `capture_moves`), in the order of
/// `collect_captures`; each exactly once when no square holds two pieces.
pub fn generate_pseudo_captures_fast(pos: &Position) -> (r: MoveList)
    ensures
        collects(Seq::empty(), r@, capture_moves(*pos)),
        capture_order(*pos, Seq::empty(), r@),
        pieces_disjoint(*pos) ==> appends(Seq::empty(), r@, capture_moves(*pos)),
{
    let mut v: Vec<ChessMove> = Vec::new();
    collect_captures(pos, &mut v);
    MoveList::from_vec(v)
}

/// `generate_pseudo_captures_fast` as a vector.
pub fn generate_pseudo_captures(pos: &Position) -> (r: Vec<ChessMove>)
    ensures
        collects(Seq::empty(), r@, capture_moves(*pos)),
        capture_order(*pos, Seq::empty(), r@),
        pieces_disjoint(*pos) ==> appends(Seq::empty(), r@, capture_moves(*pos)),
{
    generate_pseudo_captures_fast(pos).to_vec()
}

} // verus!
