//! How the legality judgement made without making a move relates to the one made on
//! the position after it.
use vstd::prelude::*;

use crate::attack::{
    attacked_on_board, colour_class, lemma_knight_changes_colour, lemma_lowest, lowest, pawn_sources, rank_or_file,
};
use crate::geometry::{
    antidiagonal_line, bishop_targets, diagonal_line, king_targets, knight_targets, lemma_ray_walk_on_line,
    lemma_square_coords, ray, ray_walk, rook_targets,
};
use crate::mov::{ChessMove, MoveType};
use crate::movegen::api::{context_of, pseudo_moves};
use crate::movegen::legality::{
    attacked_by, attacked_by_sets, castle_path, legal_after, legal_without_making, occ_after, of, sets_after, without,
};
use crate::movegen::sound::{
    consistent, lemma_after_board, lemma_after_move_consistent, lemma_pseudo_fits_walkable, lemma_wf_consistent, walkable,
};
use crate::occupancy::OccupancyKind;
use crate::piece::{piece_of, Color, Piece, PieceKind};
use crate::position::{
    after_move, board_state_of, capture_square, castle_ok, castle_rook_squares, colour_union, ep_victim, is_castle, lemma_attacked_on_state,
    occupied_squares, pidx, takes, Position,
};
use crate::square::{file_of, lemma_square_range, on_board, rank_of, square_at};

verus! {

broadcast use lemma_square_range;

/// Occupied squares of `pos` once `m` is made, as the judgement without making it
/// computes them: the origin and the captured square emptied, the destination filled.
pub open spec fn occ_moved(pos: Position, m: ChessMove) -> Set<int> {
    pos.occ(OccupancyKind::Both).remove(m.from@).remove(capture_square(m, pos.side_to_move)).insert(m.to@)
}

/// The square of the mover's king (on `ks`) once `m` is made.
pub open spec fn king_square_after(m: ChessMove, ks: int) -> int {
    if m.from@ == ks {
        m.to@
    } else {
        ks
    }
}

/// With board and sets in agreement, the squares of the two colours are the occupied
/// squares of the board.
proof fn lemma_union_occupied(b: Seq<Piece>, sets: Seq<Set<int>>)
    requires
        consistent(b, sets),
    ensures
        colour_union(sets, Color::White).union(colour_union(sets, Color::Black)) == occupied_squares(b),
{
    let u = colour_union(sets, Color::White).union(colour_union(sets, Color::Black));
    assert forall|s: int| u.contains(s) <==> occupied_squares(b).contains(s) by {
        if occupied_squares(b).contains(s) {
            let p = b[s];
            assert(p == piece_of(p.colour(), p.kind_of()));
            assert(sets[pidx(p)].contains(s));
        }
        if u.contains(s) {
            let c = if colour_union(sets, Color::White).contains(s) {
                Color::White
            } else {
                Color::Black
            };
            let k = if sets[pidx(piece_of(c, PieceKind::Pawn))].contains(s) {
                PieceKind::Pawn
            } else if sets[pidx(piece_of(c, PieceKind::Knight))].contains(s) {
                PieceKind::Knight
            } else if sets[pidx(piece_of(c, PieceKind::Bishop))].contains(s) {
                PieceKind::Bishop
            } else if sets[pidx(piece_of(c, PieceKind::Rook))].contains(s) {
                PieceKind::Rook
            } else if sets[pidx(piece_of(c, PieceKind::Queen))].contains(s) {
                PieceKind::Queen
            } else {
                PieceKind::King
            };
            assert(sets[pidx(piece_of(c, k))].contains(s));
            assert(b[s] == piece_of(c, k));
        }
    }
    assert(u =~= occupied_squares(b));
}

/// `lemma_legal_without_making` for a move other than castling.
#[verifier::spinoff_prover]
#[verifier::rlimit(40)]
proof fn lemma_non_castle_legal(pos: Position, m: ChessMove, ks: int)
    requires
        walkable(pos),
        pseudo_moves(pos)(m),
        !is_castle(m.move_type),
        of(pos.sets(), pos.side_to_move, PieceKind::King) == set![ks],
        m.move_type == MoveType::EnPassant ==> ep_victim(m.to@, pos.side_to_move) != ks,
    ensures
        legal_without_making(pos, m) == legal_after(pos, m),
{
    let us = pos.side_to_move;
    let them = us.other();
    let b = pos.board();
    let sets = pos.sets();
    let from = m.from@;
    let to = m.to@;
    let cs = capture_square(m, us);
    pos.pieces.lemma_len();
    lemma_wf_consistent(pos);
    lemma_pseudo_fits_walkable(pos, m);
    lemma_after_move_consistent(b, sets, m, us);
    let (ba, sa) = after_move(b, sets, m, us);
    assert(sa == sets_after(pos, m));
    assert(set![ks].contains(ks));
    lemma_lowest(set![ks], ks);
    let ksa = king_square_after(m, ks);
    assert(b[ks] == piece_of(us, PieceKind::King)) by {
        assert(sets[pidx(piece_of(us, PieceKind::King))].contains(ks));
    }
    assert forall|x: int| 0 <= x < 64 implies #[trigger] ba[x] == ({
        if x == to {
            crate::position::arriving_piece(b, m, us)
        } else if x == from {
            Piece::NoPiece
        } else if takes(b, m, us) && x == cs {
            Piece::NoPiece
        } else {
            b[x]
        }
    }) by {
        lemma_after_board(b, sets, m, us, x);
    }
    // The pieces of the other side after the move are those before, but for the captured one.
    let r = set![cs];
    let w = without(sets, r);
    assert forall|k: PieceKind| #[trigger] of(sa, them, k) == of(w, them, k) by {
        let i = pidx(piece_of(them, k));
        assert forall|x: int| sa[i].contains(x) <==> w[i].contains(x) by {
            if 0 <= x < 64 {
                assert(sa[i].contains(x) <==> ba[x] == piece_of(them, k));
                assert(sets[i].contains(x) <==> b[x] == piece_of(them, k));
            }
        }
        assert(sa[i] =~= w[i]);
    }
    // The occupied squares after the move are the ones judged without making it.
    lemma_union_occupied(ba, sa);
    assert(occ_after(pos, m) =~= occ_moved(pos, m)) by {
        assert(pos.occ(OccupancyKind::Both) == occupied_squares(b));
        assert forall|x: int| occupied_squares(ba).contains(x) <==> occ_moved(pos, m).contains(x) by {
            if 0 <= x < 64 && x == to {
                assert(crate::position::arriving_piece(b, m, us).is_piece());
            }
        }
    }
    // The king after the move stands alone on `ksa`.
    let kings_after = of(sa, us, PieceKind::King);
    assert(kings_after =~= set![ksa]) by {
        let ki = pidx(piece_of(us, PieceKind::King));
        assert forall|x: int| kings_after.contains(x) <==> x == ksa by {
            if 0 <= x < 64 {
                assert(kings_after.contains(x) <==> ba[x] == piece_of(us, PieceKind::King));
                assert(sets[ki].contains(x) <==> b[x] == piece_of(us, PieceKind::King));
            }
            if x == ksa {
                assert(0 <= x < 64);
            }
        }
    }
    assert(kings_after.contains(ksa));
    lemma_lowest(kings_after, ksa);
    if from == ks {
        assert(m.move_type != MoveType::EnPassant);
        assert(pos.occ(OccupancyKind::Both).remove(ks).insert(to) =~= occ_moved(pos, m));
    }
    assert(of(sets, us, PieceKind::King) != Set::<int>::empty());
}


/// Judging a move without making it (`is_move_legal_without_making`) gives the verdict
/// of making it: for a pseudo-legal move of a walkable position, castling and en
/// passant included, by a side with one king, where an en-passant capture does not
/// take that king and castling starts from the king's home square, the move is judged
/// legal exactly when the mover's king is not attacked once it is made.
pub proof fn lemma_legal_without_making(pos: Position, m: ChessMove, ks: int)
    requires
        walkable(pos),
        pseudo_moves(pos)(m),
        of(pos.sets(), pos.side_to_move, PieceKind::King) == set![ks],
        m.move_type == MoveType::EnPassant ==> ep_victim(m.to@, pos.side_to_move) != ks,
        is_castle(m.move_type) ==> ks == crate::movegen::sound::home_square(pos.side_to_move),
    ensures
        legal_without_making(pos, m) == legal_after(pos, m),
{
    if is_castle(m.move_type) {
        lemma_castle_legal(pos, m, ks);
    } else {
        lemma_non_castle_legal(pos, m, ks);
    }
}

/// A square `a2` meets `x` only if the larger `a` does.
proof fn lemma_meet_subset(a2: Set<int>, a: Set<int>, x: Set<int>)
    requires
        a2.subset_of(a),
        a2.intersect(x) != Set::<int>::empty(),
    ensures
        a.intersect(x) != Set::<int>::empty(),
{
    let t = choose|t: int| a2.intersect(x).contains(t);
    assert(a2.intersect(x).contains(t)) by {
        if !a2.intersect(x).contains(t) {
            assert(a2.intersect(x) =~= Set::<int>::empty());
        }
    }
    assert(a.intersect(x).contains(t));
}

/// Castling that pseudo-legal generation offers in a walkable position, by a side with
/// one king on its home square, is judged legal without making it, and is legal once
/// made: the king lands on a square no piece of the other side attacks.
#[verifier::spinoff_prover]
#[verifier::rlimit(40)]
proof fn lemma_castle_legal(pos: Position, m: ChessMove, ks: int)
    requires
        walkable(pos),
        pseudo_moves(pos)(m),
        is_castle(m.move_type),
        of(pos.sets(), pos.side_to_move, PieceKind::King) == set![ks],
        ks == crate::movegen::sound::home_square(pos.side_to_move),
    ensures
        legal_without_making(pos, m),
        legal_after(pos, m),
{
    let us = pos.side_to_move;
    let them = us.other();
    let b = pos.board();
    let sets = pos.sets();
    let ctx = context_of(pos);
    let kingside = m.move_type == MoveType::CastleKingside;
    let base = if us == Color::White { 0int } else { 56int };
    let home = base + 4;
    let (rf, rt) = castle_rook_squares(m.move_type, us);
    let (mid, dest) = castle_path(m.move_type, us);
    let occ = pos.occ(OccupancyKind::Both);
    pos.pieces.lemma_len();
    pos.occupancy.lemma_len();
    lemma_wf_consistent(pos);
    lemma_pseudo_fits_walkable(pos, m);
    assert(crate::movegen::king::king_moves(pos, ctx)(m));
    assert(castle_ok(pos, us, kingside));
    assert(pos.castling_rights.has(us, kingside));
    assert(set![ks].contains(ks));
    let corner = crate::movegen::sound::corner_square(us, kingside);
    assert(corner == rf);
    assert(b[rf] == piece_of(us, PieceKind::Rook) || b[rf] == Piece::NoPiece);
    lemma_lowest(set![ks], ks);
    assert(m.from@ == home && m.to@ == dest && mid == rt);
    lemma_attack_tests_agree(pos, home, them);
    lemma_attack_tests_agree(pos, mid, them);
    lemma_attack_tests_agree(pos, dest, them);
    assert(legal_without_making(pos, m));
    // The position once castling is made.
    lemma_after_move_consistent(b, sets, m, us);
    let (ba, sa) = after_move(b, sets, m, us);
    assert(sa == sets_after(pos, m));
    assert(b[home] == piece_of(us, PieceKind::King)) by {
        assert(sets[pidx(piece_of(us, PieceKind::King))].contains(home));
    }
    assert forall|x: int| 0 <= x < 64 implies #[trigger] ba[x] == ({
        if x == dest {
            piece_of(us, PieceKind::King)
        } else if x == rt {
            piece_of(us, PieceKind::Rook)
        } else if x == rf || x == home {
            Piece::NoPiece
        } else {
            b[x]
        }
    }) by {
        lemma_after_board(b, sets, m, us, x);
    }
    assert forall|k: PieceKind| #[trigger] of(sa, them, k) == of(sets, them, k) by {
        let i = pidx(piece_of(them, k));
        assert forall|x: int| sa[i].contains(x) <==> sets[i].contains(x) by {
            if 0 <= x < 64 {
                assert(sa[i].contains(x) <==> ba[x] == piece_of(them, k));
                assert(sets[i].contains(x) <==> b[x] == piece_of(them, k));
            }
        }
        assert(sa[i] =~= sets[i]);
    }
    let kings_after = of(sa, us, PieceKind::King);
    assert(kings_after =~= set![dest]) by {
        let ki = pidx(piece_of(us, PieceKind::King));
        assert forall|x: int| kings_after.contains(x) <==> x == dest by {
            if 0 <= x < 64 {
                assert(kings_after.contains(x) <==> ba[x] == piece_of(us, PieceKind::King));
                assert(sets[ki].contains(x) <==> b[x] == piece_of(us, PieceKind::King));
            }
            if x == dest {
                assert(0 <= x < 64);
            }
        }
    }
    assert(kings_after.contains(dest));
    lemma_lowest(kings_after, dest);
    lemma_union_occupied(ba, sa);
    let occ2 = occ.remove(home).remove(rf).insert(rt).insert(dest);
    assert(occ_after(pos, m) =~= occ2) by {
        assert(occ == occupied_squares(b));
        assert forall|x: int| occupied_squares(ba).contains(x) <==> occ2.contains(x) by {}
    }
    lemma_castle_slider_reach(m.move_type, us, occ, occ2);
    let bq = of(sets, them, PieceKind::Bishop).union(of(sets, them, PieceKind::Queen));
    let rq = of(sets, them, PieceKind::Rook).union(of(sets, them, PieceKind::Queen));
    if rook_targets(dest, occ2).intersect(rq) != Set::<int>::empty() {
        lemma_meet_subset(rook_targets(dest, occ2), rook_targets(dest, occ), rq);
    }
    assert(!attacked_by_sets(sa, occ2, dest, them));
}

/// A ray leaving the back rank `r0` meets only squares off that rank, so occupancies
/// that agree off the rank give the same ray.
proof fn lemma_off_rank_ray(r0: int, f: int, dr: int, df: int, occ: Set<int>, occ2: Set<int>)
    requires
        0 <= f < 8,
        0 <= r0 < 8,
        dr == 1 || dr == -1,
        forall|t: int| 0 <= t < 64 && rank_of(t) != r0 ==> (occ.contains(t) <==> occ2.contains(t)),
    ensures
        ray_walk(r0, f, dr, df, occ, 8) == ray_walk(r0, f, dr, df, occ2, 8),
{
    let m = Set::new(|t: int| 0 <= t < 64 && rank_of(t) != r0);
    assert forall|k: int| 1 <= k <= 8 && on_board(r0 + k * dr, f + k * df) implies m.contains(
        #[trigger] square_at(r0 + k * dr, f + k * df),
    ) by {
        lemma_square_coords(r0 + k * dr, f + k * df);
        assert(k * dr != 0) by (nonlinear_arith)
            requires
                k >= 1,
                dr == 1 || dr == -1,
        ;
    }
    crate::geometry::lemma_ray_walk_restrict(r0, f, dr, df, occ, m, 8);
    crate::geometry::lemma_ray_walk_restrict(r0, f, dr, df, occ2, m, 8);
    assert(occ.intersect(m) =~= occ2.intersect(m));
}

/// Once castling is made, a rook or bishop on the square the king lands on reaches no
/// square it did not reach before: the king's and rook's home squares empty, the rook
/// stands beside the king, and the squares between were empty.
proof fn lemma_castle_slider_reach(mt: MoveType, us: Color, occ: Set<int>, occ2: Set<int>)
    requires
        is_castle(mt),
        ({
            let base = if us == Color::White { 0int } else { 56int };
            let (rf, rt) = castle_rook_squares(mt, us);
            let dest = castle_path(mt, us).1;
            &&& occ2 == occ.remove(base + 4).remove(rf).insert(rt).insert(dest)
            &&& !occ.contains(rt)
            &&& !occ.contains(dest)
            &&& mt == MoveType::CastleQueenside ==> !occ.contains(base + 1)
        }),
    ensures
        bishop_targets(castle_path(mt, us).1, occ2) == bishop_targets(castle_path(mt, us).1, occ),
        rook_targets(castle_path(mt, us).1, occ2).subset_of(rook_targets(castle_path(mt, us).1, occ)),
{
    let base = if us == Color::White { 0int } else { 56int };
    let r0 = if us == Color::White { 0int } else { 7int };
    let dir = if us == Color::White { 1int } else { -1int };
    let (rf, rt) = castle_rook_squares(mt, us);
    let dest = castle_path(mt, us).1;
    let kingside = mt == MoveType::CastleKingside;
    let fd = if kingside { 6int } else { 2int };
    assert(rank_of(dest) == r0 && file_of(dest) == fd);
    assert forall|t: int| 0 <= t < 64 && rank_of(t) != r0 implies (occ.contains(t) <==> occ2.contains(t)) by {
        assert(t != base + 4 && t != rf && t != rt && t != dest);
    }
    lemma_off_rank_ray(r0, fd, dir, 0, occ, occ2);
    lemma_off_rank_ray(r0, fd, dir, 1, occ, occ2);
    lemma_off_rank_ray(r0, fd, dir, -1, occ, occ2);
    assert forall|x: Set<int>, df: int| #[trigger] ray_walk(r0, fd, -dir, df, x, 8) == Set::<int>::empty() by {}
    assert(bishop_targets(dest, occ2) =~= bishop_targets(dest, occ));
    // Along the back rank.
    let east_2 = ray_walk(r0, fd, 0, 1, occ2, 8);
    let east_1 = ray_walk(r0, fd, 0, 1, occ, 8);
    let west_2 = ray_walk(r0, fd, 0, -1, occ2, 8);
    let west_1 = ray_walk(r0, fd, 0, -1, occ, 8);
    if kingside {
        assert(east_2 == east_1) by {
            reveal_with_fuel(ray_walk, 3);
            assert(east_2 =~= set![square_at(r0, 7)]);
            assert(east_1 =~= set![square_at(r0, 7)]);
        }
        assert(west_2.subset_of(west_1)) by {
            assert(square_at(r0, 5) == rt);
            assert(west_2 == set![rt]);
        }
    } else {
        assert(west_2 == west_1) by {
            reveal_with_fuel(ray_walk, 4);
            assert(square_at(r0, 1) == base + 1);
            assert(!occ2.contains(base + 1));
            assert(west_2 =~= set![square_at(r0, 0), square_at(r0, 1)]);
            assert(west_1 =~= set![square_at(r0, 0), square_at(r0, 1)]);
        }
        assert(east_2.subset_of(east_1)) by {
            assert(square_at(r0, 3) == rt);
            assert(east_2 == set![rt]);
        }
    }
    assert(rook_targets(dest, occ2).subset_of(rook_targets(dest, occ)));
}

/// Every square a ray from `s` in direction (`dr`, `df`) reaches lies `k` steps along
/// it, for some `k` from 1 to 8, on the board; its rank and file are those steps.
proof fn lemma_ray_square(s: int, dr: int, df: int, occ: Set<int>, t: int) -> (k: int)
    requires
        0 <= s < 64,
        ray(s, dr, df, occ).contains(t),
    ensures
        1 <= k <= 8,
        rank_of(t) == rank_of(s) + k * dr,
        file_of(t) == file_of(s) + k * df,
        0 <= t < 64,
{
    let (r, f) = (rank_of(s), file_of(s));
    lemma_ray_walk_on_line(r, f, dr, df, occ, 8, t);
    let k = choose|k: int| 1 <= k <= 8 && #[trigger] square_at(r + k * dr, f + k * df) == t && on_board(r + k * dr, f + k * df);
    lemma_square_coords(r + k * dr, f + k * df);
    k
}

/// A rook on `s` only reaches squares on the rank or file of `s`.
proof fn lemma_rook_targets_on_lines(s: int, occ: Set<int>)
    requires
        0 <= s < 64,
    ensures
        rook_targets(s, occ).subset_of(rank_or_file(s)),
{
    assert forall|t: int| rook_targets(s, occ).contains(t) implies rank_or_file(s).contains(t) by {
        let (dr, df) = if ray(s, 1, 0, occ).contains(t) {
            (1int, 0int)
        } else if ray(s, -1, 0, occ).contains(t) {
            (-1int, 0int)
        } else if ray(s, 0, 1, occ).contains(t) {
            (0int, 1int)
        } else {
            (0int, -1int)
        };
        let k = lemma_ray_square(s, dr, df, occ, t);
        assert(k * dr == 0 || k * df == 0) by (nonlinear_arith)
            requires
                dr == 0 || df == 0,
        ;
    }
}

/// A bishop on `s` only reaches squares of the colour of `s` on its diagonals.
proof fn lemma_bishop_targets_on_diagonals(s: int, occ: Set<int>)
    requires
        0 <= s < 64,
    ensures
        bishop_targets(s, occ).subset_of(colour_class(s).intersect(diagonal_line(s).union(antidiagonal_line(s)))),
{
    assert forall|t: int| bishop_targets(s, occ).contains(t) implies colour_class(s).intersect(
        diagonal_line(s).union(antidiagonal_line(s)),
    ).contains(t) by {
        let (dr, df) = if ray(s, 1, 1, occ).contains(t) {
            (1int, 1int)
        } else if ray(s, -1, -1, occ).contains(t) {
            (-1int, -1int)
        } else if ray(s, 1, -1, occ).contains(t) {
            (1int, -1int)
        } else {
            (-1int, 1int)
        };
        let k = lemma_ray_square(s, dr, df, occ, t);
        assert(k * dr == k || k * dr == -k) by (nonlinear_arith)
            requires
                dr == 1 || dr == -1,
        ;
        assert(k * df == k || k * df == -k) by (nonlinear_arith)
            requires
                df == 1 || df == -1,
        ;
        assert(t != s);
    }
}

/// The attack test `is_square_attacked` makes on a position's board state and the one
/// legality is judged by agree.
pub proof fn lemma_attack_tests_agree(pos: Position, s: int, c: Color)
    requires
        0 <= s < 64,
    ensures
        attacked_by(pos, s, c) == attacked_on_board(board_state_of(pos), s, c),
{
    pos.pieces.lemma_len();
    lemma_attacked_on_state(pos, s, c);
    let sets = pos.sets();
    let occ = pos.occ(OccupancyKind::Both);
    let same = colour_class(s);
    let e = Set::<int>::empty();
    let knights = of(sets, c, PieceKind::Knight);
    let pawns = of(sets, c, PieceKind::Pawn);
    let king = of(sets, c, PieceKind::King);
    let rq = of(sets, c, PieceKind::Rook).union(of(sets, c, PieceKind::Queen));
    let bq = of(sets, c, PieceKind::Bishop).union(of(sets, c, PieceKind::Queen));
    lemma_knight_changes_colour(s);
    assert(knight_targets(s).intersect(knights).difference(same) =~= knight_targets(s).intersect(knights)) by {
        assert forall|t: int| knight_targets(s).intersect(knights).contains(t) implies !same.contains(t) by {
            assert(!knight_targets(s).intersect(same).contains(t));
        }
    }
    assert(pawn_sources(c, s).intersect(pawns.intersect(same)) =~= pawn_sources(c, s).intersect(pawns));
    lemma_rook_targets_on_lines(s, occ);
    assert(rook_targets(s, occ).intersect(rq.intersect(rank_or_file(s))) =~= rook_targets(s, occ).intersect(rq));
    lemma_bishop_targets_on_diagonals(s, occ);
    assert(bishop_targets(s, occ).intersect(bq.intersect(same).intersect(diagonal_line(s).union(antidiagonal_line(s))))
        =~= bishop_targets(s, occ).intersect(bq));
}

} // verus!
