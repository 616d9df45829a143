//! Check detection and move legality.
use vstd::prelude::*;

use crate::attack::{lemma_lowest, lowest, pawn_sources};
use crate::bitboard::{bishop_attacks_from, king_attacks, knight_attacks, pawn_attacks_to, rook_attacks_from};
use crate::bitboardmask::BitBoardMask;
use crate::geometry::{bishop_targets, king_targets, knight_targets, rook_targets};
use crate::mov::{ChessMove, MoveType};
use crate::occupancy::OccupancyKind;
use crate::piece::{piece_of, Color, Piece, PieceKind};
use crate::position::{after_move, colour_union, ep_victim, pidx, Position};
use crate::square::{lemma_square_range, Square};

verus! {

broadcast use lemma_square_range;

/// Squares of the piece of colour `c` and kind `k`.
pub open spec fn of(sets: Seq<Set<int>>, c: Color, k: PieceKind) -> Set<int> {
    sets[pidx(piece_of(c, k))]
}

/// `sets` without the squares of `r`.
pub open spec fn without(sets: Seq<Set<int>>, r: Set<int>) -> Seq<Set<int>> {
    Seq::new(sets.len(), |i: int| sets[i].difference(r))
}

/// Some piece of colour `c` attacks `s`, given the piece sets and the occupied squares.
pub open spec fn attacked_by_sets(sets: Seq<Set<int>>, occ: Set<int>, s: int, c: Color) -> bool {
    ||| pawn_sources(c, s).intersect(of(sets, c, PieceKind::Pawn)) != Set::<int>::empty()
    ||| knight_targets(s).intersect(of(sets, c, PieceKind::Knight)) != Set::<int>::empty()
    ||| bishop_targets(s, occ).intersect(of(sets, c, PieceKind::Bishop).union(of(sets, c, PieceKind::Queen)))
        != Set::<int>::empty()
    ||| rook_targets(s, occ).intersect(of(sets, c, PieceKind::Rook).union(of(sets, c, PieceKind::Queen)))
        != Set::<int>::empty()
    ||| king_targets(s).intersect(of(sets, c, PieceKind::King)) != Set::<int>::empty()
}

/// The king of `c` (its lowest square, if there are several) is attacked by the
/// other side; without a king, `c` is not in check.
pub open spec fn in_check_sets(sets: Seq<Set<int>>, occ: Set<int>, c: Color) -> bool {
    let k = of(sets, c, PieceKind::King);
    k != Set::<int>::empty() && attacked_by_sets(sets, occ, lowest(k), c.other())
}

/// Piece sets once `m` is made in `pos`.
pub open spec fn sets_after(pos: Position, m: ChessMove) -> Seq<Set<int>> {
    after_move(pos.board(), pos.sets(), m, pos.side_to_move).1
}

/// Occupied squares once `m` is made in `pos`.
pub open spec fn occ_after(pos: Position, m: ChessMove) -> Set<int> {
    colour_union(sets_after(pos, m), Color::White).union(colour_union(sets_after(pos, m), Color::Black))
}

/// After `m`, the mover still has a king and it is not attacked.
pub open spec fn legal_after(pos: Position, m: ChessMove) -> bool {
    let us = pos.side_to_move;
    of(sets_after(pos, m), us, PieceKind::King) != Set::<int>::empty() && !in_check_sets(
        sets_after(pos, m),
        occ_after(pos, m),
        us,
    )
}

/// `m` can be made in `pos` without breaking `apply_move_into`'s requirements.
pub open spec fn playable(pos: Position, m: ChessMove) -> bool {
    &&& pos.board()[m.from@].is_piece()
    &&& m.move_type == MoveType::EnPassant ==> 0 <= ep_victim(m.to@, pos.side_to_move) < 64
}

/// Some piece of colour `c` attacks `s` in `pos`.
pub open spec fn attacked_by(pos: Position, s: int, c: Color) -> bool {
    attacked_by_sets(pos.sets(), pos.occ(OccupancyKind::Both), s, c)
}

/// The king of `c` is attacked in `pos`.
pub open spec fn in_check(pos: Position, c: Color) -> bool {
    in_check_sets(pos.sets(), pos.occ(OccupancyKind::Both), c)
}

/// Squares of the piece of colour `c` and kind `k` in `pos`.
fn piece_bb(pos: &Position, c: Color, k: PieceKind) -> (r: BitBoardMask)
    ensures
        r@ == of(pos.sets(), c, k),
{
    proof {
        pos.pieces.lemma_len();
    }
    pos.pieces.get(Piece::from_parts(c, Some(k)))
}

/// Whether a piece of `attacker_color` attacks `sq` in `pos`.
fn is_square_attacked_by(pos: &Position, sq: Square, attacker_color: Color) -> (r: bool)
    ensures
        r == attacked_by(*pos, sq@, attacker_color),
{
    let occ = pos.occupancy.get(OccupancyKind::Both);
    is_square_attacked_with_occupancy(pos, sq, attacker_color, occ)
}

/// Whether a piece of `attacker_color` in `pos` attacks `sq` when `occ` is occupied.
fn is_square_attacked_with_occupancy(pos: &Position, sq: Square, attacker_color: Color, occ: BitBoardMask) -> (r: bool)
    ensures
        r == attacked_by_sets(pos.sets(), occ@, sq@, attacker_color),
{
    let pawns = piece_bb(pos, attacker_color, PieceKind::Pawn);
    let knights = piece_bb(pos, attacker_color, PieceKind::Knight);
    let bishops = piece_bb(pos, attacker_color, PieceKind::Bishop);
    let rooks = piece_bb(pos, attacker_color, PieceKind::Rook);
    let queens = piece_bb(pos, attacker_color, PieceKind::Queen);
    let king = piece_bb(pos, attacker_color, PieceKind::King);
    let p = pawn_attacks_to(sq, attacker_color);
    proof {
        assert(p@ =~= pawn_sources(attacker_color, sq@));
    }
    if p.and(pawns).is_nonempty() {
        return true;
    }
    if knight_attacks(sq).and(knights).is_nonempty() {
        return true;
    }
    if bishop_attacks_from(sq, occ).and(bishops.or(queens)).is_nonempty() {
        return true;
    }
    if rook_attacks_from(sq, occ).and(rooks.or(queens)).is_nonempty() {
        return true;
    }
    king_attacks(sq).and(king).is_nonempty()
}

/// Whether a piece of `attacker_color` in `pos`, other than one standing on a square of
/// `removed`, attacks `sq` when `occ` is occupied.
fn is_square_attacked_without(
    pos: &Position,
    sq: Square,
    attacker_color: Color,
    occ: BitBoardMask,
    removed: BitBoardMask,
) -> (r: bool)
    ensures
        r == attacked_by_sets(without(pos.sets(), removed@), occ@, sq@, attacker_color),
{
    proof {
        pos.pieces.lemma_len();
    }
    let keep = removed.not();
    let ghost w = without(pos.sets(), removed@);
    proof {
        assert forall|k: PieceKind| #[trigger] of(pos.sets(), attacker_color, k).subset_of(crate::bits::all_squares()) by {
            crate::bits::lemma_bits_subset(pos.pieces@[pidx(piece_of(attacker_color, k))].0);
        }
    }
    let pawns = piece_bb(pos, attacker_color, PieceKind::Pawn).and(keep);
    let knights = piece_bb(pos, attacker_color, PieceKind::Knight).and(keep);
    let bishops = piece_bb(pos, attacker_color, PieceKind::Bishop).and(keep);
    let rooks = piece_bb(pos, attacker_color, PieceKind::Rook).and(keep);
    let queens = piece_bb(pos, attacker_color, PieceKind::Queen).and(keep);
    let king = piece_bb(pos, attacker_color, PieceKind::King).and(keep);
    proof {
        assert(pawns@ =~= of(w, attacker_color, PieceKind::Pawn));
        assert(knights@ =~= of(w, attacker_color, PieceKind::Knight));
        assert(bishops@ =~= of(w, attacker_color, PieceKind::Bishop));
        assert(rooks@ =~= of(w, attacker_color, PieceKind::Rook));
        assert(queens@ =~= of(w, attacker_color, PieceKind::Queen));
        assert(king@ =~= of(w, attacker_color, PieceKind::King));
    }
    let p = pawn_attacks_to(sq, attacker_color);
    proof {
        assert(p@ =~= pawn_sources(attacker_color, sq@));
    }
    if p.and(pawns).is_nonempty() {
        return true;
    }
    if knight_attacks(sq).and(knights).is_nonempty() {
        return true;
    }
    if bishop_attacks_from(sq, occ).and(bishops.or(queens)).is_nonempty() {
        return true;
    }
    if rook_attacks_from(sq, occ).and(rooks.or(queens)).is_nonempty() {
        return true;
    }
    king_attacks(sq).and(king).is_nonempty()
}

/// Whether the king of `color` is attacked in `pos`; a missing king is not in check.
pub fn is_in_check(pos: &Position, color: Color) -> (r: bool)
    ensures
        r == in_check(*pos, color),
{
    let king_bb = piece_bb(pos, color, PieceKind::King);
    let king_sq = match king_bb.first_square() {
        Some(sq) => sq,
        None => return false,
    };
    proof {
        lemma_lowest(king_bb@, king_sq@);
    }
    is_square_attacked_by(pos, king_sq, color.opposite())
}

/// Whether making `m` in `pos` leaves the side to move in `pos` in check: its king
/// (the lowest, if it has several) is attacked once the move is made. A side left
/// without a king is not in check.
pub fn is_legal(pos: &Position, m: &ChessMove) -> (r: bool)
    requires
        playable(*pos, *m),
    ensures
        r == in_check_sets(sets_after(*pos, *m), occ_after(*pos, *m), pos.side_to_move),
{
    let mut new_pos = *pos;
    pos.apply_move_into(m, &mut new_pos);
    proof {
        assert(new_pos.sets() == sets_after(*pos, *m));
        assert(new_pos.occ(OccupancyKind::Both) == occ_after(*pos, *m));
    }
    is_in_check(&new_pos, pos.side_to_move)
}

/// Legality of a move whose resulting position `pos_after_move` is already known:
/// the mover (the side to move in `original_pos`) still has a king, not attacked.
pub fn is_legal_fast(original_pos: &Position, pos_after_move: &Position) -> (r: bool)
    ensures
        r == (of(pos_after_move.sets(), original_pos.side_to_move, PieceKind::King) != Set::<int>::empty()
            && !in_check(*pos_after_move, original_pos.side_to_move)),
{
    let king = piece_bb(pos_after_move, original_pos.side_to_move, PieceKind::King);
    if king.first_square().is_none() {
        return false;
    }
    !is_in_check(pos_after_move, original_pos.side_to_move)
}

/// Squares holding a piece of `attacker_color` that attacks `sq`.
pub fn get_attackers(pos: &Position, sq: Square, attacker_color: Color) -> (r: BitBoardMask)
    ensures
        r@ == pawn_sources(attacker_color, sq@).intersect(of(pos.sets(), attacker_color, PieceKind::Pawn)).union(
            knight_targets(sq@).intersect(of(pos.sets(), attacker_color, PieceKind::Knight)),
        ).union(
            bishop_targets(sq@, pos.occ(OccupancyKind::Both)).intersect(
                of(pos.sets(), attacker_color, PieceKind::Bishop).union(of(pos.sets(), attacker_color, PieceKind::Queen)),
            ),
        ).union(
            rook_targets(sq@, pos.occ(OccupancyKind::Both)).intersect(
                of(pos.sets(), attacker_color, PieceKind::Rook).union(of(pos.sets(), attacker_color, PieceKind::Queen)),
            ),
        ).union(king_targets(sq@).intersect(of(pos.sets(), attacker_color, PieceKind::King))),
{
    let occ = pos.occupancy.get(OccupancyKind::Both);
    let p = pawn_attacks_to(sq, attacker_color);
    proof {
        assert(p@ =~= pawn_sources(attacker_color, sq@));
    }
    let mut attackers = BitBoardMask::empty();
    attackers = attackers.or(p.and(piece_bb(pos, attacker_color, PieceKind::Pawn)));
    attackers = attackers.or(knight_attacks(sq).and(piece_bb(pos, attacker_color, PieceKind::Knight)));
    attackers = attackers.or(bishop_attacks_from(sq, occ).and(
        piece_bb(pos, attacker_color, PieceKind::Bishop).or(piece_bb(pos, attacker_color, PieceKind::Queen)),
    ));
    attackers = attackers.or(rook_attacks_from(sq, occ).and(
        piece_bb(pos, attacker_color, PieceKind::Rook).or(piece_bb(pos, attacker_color, PieceKind::Queen)),
    ));
    attackers = attackers.or(king_attacks(sq).and(piece_bb(pos, attacker_color, PieceKind::King)));
    proof {
        assert(Set::<int>::empty().union(pawn_sources(attacker_color, sq@).intersect(of(pos.sets(), attacker_color, PieceKind::Pawn))) =~= pawn_sources(attacker_color, sq@).intersect(of(pos.sets(), attacker_color, PieceKind::Pawn)));
    }
    attackers
}

/// The squares a castling king passes over and lands on.
pub open spec fn castle_path(mt: MoveType, us: Color) -> (int, int) {
    match (mt, us) {
        (MoveType::CastleKingside, Color::White) => (5, 6),
        (MoveType::CastleKingside, Color::Black) => (61, 62),
        (_, Color::White) => (3, 2),
        (_, Color::Black) => (59, 58),
    }
}

/// Legality of `mv` judged without making it: the mover must have a king. A castling
/// move is legal when neither the king's square nor the two squares it crosses and
/// lands on are attacked. A king move is legal when its destination is not attacked
/// once the king has left its square, by the pieces other than one it captures there.
/// Any other move is legal when the king is not attacked once the mover has left its
/// square, the captured piece (the en-passant victim for en passant) has left the board
/// and the mover stands on the destination.
pub open spec fn legal_without_making(pos: Position, mv: ChessMove) -> bool {
    let us = pos.side_to_move;
    let them = us.other();
    let k = of(pos.sets(), us, PieceKind::King);
    let occ = pos.occ(OccupancyKind::Both);
    if k == Set::<int>::empty() {
        false
    } else {
        let ks = lowest(k);
        if mv.move_type == MoveType::CastleKingside || mv.move_type == MoveType::CastleQueenside {
            let (mid, dest) = castle_path(mv.move_type, us);
            !attacked_by(pos, ks, them) && !attacked_by(pos, mid, them) && !attacked_by(pos, dest, them)
        } else if mv.from@ == ks {
            !attacked_by_sets(without(pos.sets(), set![mv.to@]), occ.remove(ks).insert(mv.to@), mv.to@, them)
        } else {
            let cap = if mv.move_type == MoveType::EnPassant {
                ep_victim(mv.to@, us)
            } else {
                mv.to@
            };
            !attacked_by_sets(without(pos.sets(), set![cap]), occ.remove(mv.from@).remove(cap).insert(mv.to@), ks, them)
        }
    }
}

/// The inputs on which `is_move_legal_without_making` looks up an en-passant victim:
/// a non-castling en-passant move by a non-king piece when the mover has a king.
pub open spec fn needs_ep_victim(pos: Position, mv: ChessMove) -> bool {
    let k = of(pos.sets(), pos.side_to_move, PieceKind::King);
    &&& k != Set::<int>::empty()
    &&& mv.move_type == MoveType::EnPassant
    &&& mv.from@ != lowest(k)
}

/// Whether `mv` is legal, judged from the attacks on the king's squares with the
/// occupancy the move would leave (see `legal_without_making`), without making it.
pub fn is_move_legal_without_making(pos: &Position, mv: &ChessMove) -> (r: bool)
    requires
        needs_ep_victim(*pos, *mv) ==> 0 <= ep_victim(mv.to@, pos.side_to_move) < 64,
    ensures
        r == legal_without_making(*pos, *mv),
{
    let us = pos.side_to_move;
    let them = us.opposite();
    let king_bb = piece_bb(pos, us, PieceKind::King);
    let king_sq = match king_bb.first_square() {
        Some(sq) => sq,
        None => return false,
    };
    proof {
        lemma_lowest(king_bb@, king_sq@);
    }
    match mv.move_type {
        MoveType::CastleKingside | MoveType::CastleQueenside => check_castling_legality(pos, mv, us, them, king_sq),
        _ => {
            if mv.from == king_sq {
                !is_square_attacked_after_king_move(pos, mv.to, king_sq, them)
            } else {
                check_legality_with_simulated_occupancy(pos, mv, king_sq, us, them)
            }
        },
    }
}

/// Whether `king_to` is attacked by `them` once the king has moved there from
/// `king_from`, capturing what stood there.
fn is_square_attacked_after_king_move(pos: &Position, king_to: Square, king_from: Square, them: Color) -> (r: bool)
    ensures
        r == attacked_by_sets(
            without(pos.sets(), set![king_to@]),
            pos.occ(OccupancyKind::Both).remove(king_from@).insert(king_to@),
            king_to@,
            them,
        ),
{
    let from_mask = BitBoardMask::from_square(king_from);
    let to_mask = BitBoardMask::from_square(king_to);
    let occ = pos.occupancy.get(OccupancyKind::Both);
    let new_occ = occ.and(from_mask.not()).or(to_mask);
    proof {
        assert(new_occ@ =~= pos.occ(OccupancyKind::Both).remove(king_from@).insert(king_to@));
    }
    is_square_attacked_without(pos, king_to, them, new_occ, to_mask)
}

/// Whether the king on `king_sq` is safe once the non-king move `mv` has changed the
/// occupancy.
fn check_legality_with_simulated_occupancy(pos: &Position, mv: &ChessMove, king_sq: Square, us: Color, them: Color) -> (r: bool)
    requires
        us == pos.side_to_move,
        them == us.other(),
        mv.move_type == MoveType::EnPassant ==> 0 <= ep_victim(mv.to@, us) < 64,
    ensures
        r == !attacked_by_sets(
            without(
                pos.sets(),
                set![
                    if mv.move_type == MoveType::EnPassant {
                        ep_victim(mv.to@, us)
                    } else {
                        mv.to@
                    },
                ],
            ),
            pos.occ(OccupancyKind::Both).remove(mv.from@).remove(
                if mv.move_type == MoveType::EnPassant {
                    ep_victim(mv.to@, us)
                } else {
                    mv.to@
                },
            ).insert(mv.to@),
            king_sq@,
            them,
        ),
{
    let from_mask = BitBoardMask::from_square(mv.from);
    let to_mask = BitBoardMask::from_square(mv.to);
    let captured_sq_mask = match mv.move_type {
        MoveType::EnPassant => {
            let ep_capture_sq = match us {
                Color::White => mv.to.backward(1).unwrap(),
                Color::Black => mv.to.forward(1).unwrap(),
            };
            BitBoardMask::from_square(ep_capture_sq)
        },
        _ => to_mask,
    };
    let occ = pos.occupancy.get(OccupancyKind::Both);
    let new_occ = occ.and(from_mask.not()).and(captured_sq_mask.not()).or(to_mask);
    proof {
        let cap = if mv.move_type == MoveType::EnPassant {
            ep_victim(mv.to@, us)
        } else {
            mv.to@
        };
        assert(captured_sq_mask@ == set![cap]);
        assert(new_occ@ =~= pos.occ(OccupancyKind::Both).remove(mv.from@).remove(cap).insert(mv.to@));
    }
    !is_square_attacked_without(pos, king_sq, them, new_occ, captured_sq_mask)
}

/// Whether castling with `mv` is allowed: the king on `king_sq` is not attacked and
/// neither is the square it crosses nor the one it lands on.
fn check_castling_legality(pos: &Position, mv: &ChessMove, us: Color, them: Color, king_sq: Square) -> (r: bool)
    requires
        mv.move_type == MoveType::CastleKingside || mv.move_type == MoveType::CastleQueenside,
    ensures
        r == ({
            let (mid, dest) = castle_path(mv.move_type, us);
            !attacked_by(*pos, king_sq@, them) && !attacked_by(*pos, mid, them) && !attacked_by(*pos, dest, them)
        }),
{
    if is_square_attacked_by(pos, king_sq, them) {
        return false;
    }
    let (middle_sq, target_sq) = match (mv.move_type, us) {
        (MoveType::CastleKingside, Color::White) => (Square::F1, Square::G1),
        (MoveType::CastleKingside, Color::Black) => (Square::F8, Square::G8),
        (MoveType::CastleQueenside, Color::White) => (Square::D1, Square::C1),
        (MoveType::CastleQueenside, Color::Black) => (Square::D8, Square::C8),
        _ => return false,
    };
    !is_square_attacked_by(pos, middle_sq, them) && !is_square_attacked_by(pos, target_sq, them)
}

} // verus!
