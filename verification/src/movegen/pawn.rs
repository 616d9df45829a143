//! Pawn moves: pushes, double pushes, captures, promotions and en passant.
use vstd::prelude::*;

use crate::bits::{all_squares, bits, lemma_bits_shl, lemma_bits_shr, lemma_lowest_bit};
use crate::bitboardmask::BitBoardMask;
use crate::constants::{
    DOUBLE_NORTH, DOUBLE_SOUTH, NORTH, NORTH_EAST, NORTH_WEST, SOUTH, SOUTH_EAST, SOUTH_WEST,
};
use crate::mov::{ChessMove, MoveType};
use crate::movegen::{
    appends, is_promotion_choice, keys_below, keys_rise, lemma_appends_none, lemma_appends_then, lemma_loop_done,
    lemma_loop_start, lemma_loop_step, lemma_rise_step, pawn_to_key, push_one, push_promotions, their_kind,
};
use crate::movelist::MoveList;
use crate::piece::{piece_of, Color, PieceKind};
use crate::position::{MoveGenContext, Position};
use crate::square::{file_of, lemma_square_range, rank_of, Square};
use crate::tables::{FILE_A, FILE_H, RANK_4, RANK_5};

verus! {

broadcast use lemma_square_range;

/// The squares of `s` moved `d` index steps (dropping those leaving 0..64).
pub open spec fn shifted(s: Set<int>, d: int) -> Set<int> {
    Set::new(|t: int| 0 <= t < 64 && s.contains(t - d))
}

/// Squares of rank `r`.
pub open spec fn rank_squares(r: int) -> Set<int> {
    Set::new(|t: int| 0 <= t < 64 && rank_of(t) == r)
}

/// Squares off file `f`.
pub open spec fn off_file(f: int) -> Set<int> {
    Set::new(|t: int| 0 <= t < 64 && file_of(t) != f)
}

/// Index step of a pawn push of `us`.
pub open spec fn push_step(us: Color) -> int {
    if us == Color::White { 8 } else { -8 }
}

/// Index step of the capture whose wrap-around lands on the h-file.
pub open spec fn left_step(us: Color) -> int {
    if us == Color::White { 7 } else { -9 }
}

/// Index step of the capture whose wrap-around lands on the a-file.
pub open spec fn right_step(us: Color) -> int {
    if us == Color::White { 9 } else { -7 }
}

/// Rank on which a pawn of `us` promotes.
pub open spec fn promotion_rank(us: Color) -> int {
    if us == Color::White { 7 } else { 0 }
}

/// Rank a double push of `us` lands on.
pub open spec fn double_push_rank(us: Color) -> int {
    if us == Color::White { 3 } else { 4 }
}

/// Moves to each square of `targets` from the square `d` steps behind it: of type
/// `base`, or, when `promotes` and the target is on the promotion rank, the four
/// promotions.
pub open spec fn pawn_target_moves(targets: Set<int>, d: int, base: MoveType, promotes: bool, us: Color) -> spec_fn(ChessMove) -> bool {
    |m: ChessMove|
        targets.contains(m.to@) && m.from@ == m.to@ - d && (if promotes && rank_of(m.to@) == promotion_rank(us) {
            is_promotion_choice(m.move_type)
        } else {
            m.move_type == base
        })
}

pub open spec fn pawns_of(pos: Position, ctx: MoveGenContext) -> Set<int> {
    pos.bb(piece_of(ctx.us, PieceKind::Pawn))
}

pub open spec fn single_targets(pos: Position, ctx: MoveGenContext) -> Set<int> {
    shifted(pawns_of(pos, ctx), push_step(ctx.us)).intersect(all_squares().difference(ctx.occupancy@))
}

pub open spec fn double_targets(pos: Position, ctx: MoveGenContext) -> Set<int> {
    shifted(single_targets(pos, ctx), push_step(ctx.us)).intersect(all_squares().difference(ctx.occupancy@)).intersect(
        rank_squares(double_push_rank(ctx.us)),
    )
}

pub open spec fn left_targets(pos: Position, ctx: MoveGenContext) -> Set<int> {
    shifted(pawns_of(pos, ctx), left_step(ctx.us)).intersect(pos.occ(their_kind(ctx.us))).intersect(off_file(7))
}

pub open spec fn right_targets(pos: Position, ctx: MoveGenContext) -> Set<int> {
    shifted(pawns_of(pos, ctx), right_step(ctx.us)).intersect(pos.occ(their_kind(ctx.us))).intersect(off_file(0))
}

pub open spec fn ep_set(pos: Position) -> Set<int> {
    match pos.ep_square {
        Some(e) => set![e@],
        None => Set::empty(),
    }
}

pub open spec fn left_ep_targets(pos: Position, ctx: MoveGenContext) -> Set<int> {
    shifted(pawns_of(pos, ctx), left_step(ctx.us)).intersect(ep_set(pos)).intersect(off_file(7))
}

pub open spec fn right_ep_targets(pos: Position, ctx: MoveGenContext) -> Set<int> {
    shifted(pawns_of(pos, ctx), right_step(ctx.us)).intersect(ep_set(pos)).intersect(off_file(0))
}

/// Every pseudo-legal pawn move of the side in `ctx`: single pushes onto empty
/// squares, double pushes through two empty squares onto the fourth (fifth for
/// Black) rank, diagonal captures of the other side's pieces, promotions to queen,
/// rook, bishop or knight on the last rank, and diagonal en-passant captures onto the
/// en-passant square.
pub open spec fn pawn_moves(pos: Position, ctx: MoveGenContext) -> spec_fn(ChessMove) -> bool {
    |m: ChessMove|
        pawn_target_moves(single_targets(pos, ctx), push_step(ctx.us), MoveType::Quiet, true, ctx.us)(m)
        || pawn_target_moves(double_targets(pos, ctx), 2 * push_step(ctx.us), MoveType::Quiet, false, ctx.us)(m)
        || pawn_target_moves(left_targets(pos, ctx), left_step(ctx.us), MoveType::Capture, true, ctx.us)(m)
        || pawn_target_moves(right_targets(pos, ctx), right_step(ctx.us), MoveType::Capture, true, ctx.us)(m)
        || pawn_target_moves(left_ep_targets(pos, ctx), left_step(ctx.us), MoveType::EnPassant, false, ctx.us)(m)
        || pawn_target_moves(right_ep_targets(pos, ctx), right_step(ctx.us), MoveType::EnPassant, false, ctx.us)(m)
}

/// `new` extends `old` by the single pushes, double pushes, captures to either side
/// and en-passant captures to either side of the side in `ctx`, in that order, each
/// group by destination square (promotions in the order of `promo_rank`), in blocks
/// that end at the given lengths.
pub open spec fn pawn_splits(
    pos: Position,
    ctx: MoveGenContext,
    old: Seq<ChessMove>,
    new: Seq<ChessMove>,
    j1: int,
    j2: int,
    j3: int,
    j4: int,
    j5: int,
) -> bool {
    let us = ctx.us;
    let to_key = |m: ChessMove| pawn_to_key(m);
    &&& old.len() <= j1 <= j2 <= j3 <= j4 <= j5 <= new.len()
    &&& appends(old, new.take(j1), pawn_target_moves(single_targets(pos, ctx), push_step(us), MoveType::Quiet, true, us))
    &&& appends(new.take(j1), new.take(j2), pawn_target_moves(double_targets(pos, ctx), 2 * push_step(us), MoveType::Quiet, false, us))
    &&& appends(new.take(j2), new.take(j3), pawn_target_moves(left_targets(pos, ctx), left_step(us), MoveType::Capture, true, us))
    &&& appends(new.take(j3), new.take(j4), pawn_target_moves(right_targets(pos, ctx), right_step(us), MoveType::Capture, true, us))
    &&& appends(new.take(j4), new.take(j5), pawn_target_moves(left_ep_targets(pos, ctx), left_step(us), MoveType::EnPassant, false, us))
    &&& appends(new.take(j5), new, pawn_target_moves(right_ep_targets(pos, ctx), right_step(us), MoveType::EnPassant, false, us))
    &&& keys_rise(old, new.take(j1), to_key)
    &&& keys_rise(new.take(j1), new.take(j2), to_key)
    &&& keys_rise(new.take(j2), new.take(j3), to_key)
    &&& keys_rise(new.take(j3), new.take(j4), to_key)
    &&& keys_rise(new.take(j4), new.take(j5), to_key)
    &&& keys_rise(new.take(j5), new, to_key)
}

/// `new` extends `old` by the pawn moves of the side in `ctx` in group order (see
/// `pawn_splits`).
pub open spec fn pawn_order(pos: Position, ctx: MoveGenContext, old: Seq<ChessMove>, new: Seq<ChessMove>) -> bool {
    exists|j1: int, j2: int, j3: int, j4: int, j5: int| #[trigger] pawn_splits(pos, ctx, old, new, j1, j2, j3, j4, j5)
}

/// The squares of `m` moved `d` index steps.
fn shift_mask(m: BitBoardMask, d: i8) -> (r: BitBoardMask)
    requires
        -63 <= d <= 63,
    ensures
        r@ == shifted(m@, d as int),
{
    if d >= 0 {
        let k = d as u64;
        proof {
            lemma_bits_shl(m.0, k);
        }
        let r = BitBoardMask(m.0 << k);
        proof {
            assert(r@ =~= shifted(m@, d as int));
        }
        r
    } else {
        let k = (-d) as u64;
        proof {
            lemma_bits_shr(m.0, k);
        }
        let r = BitBoardMask(m.0 >> k);
        proof {
            assert(r@ =~= shifted(m@, d as int));
        }
        r
    }
}

/// The last rank for `color`.
fn is_promotion_rank(square: Square, color: Color) -> (r: bool)
    ensures
        r == (rank_of(square@) == promotion_rank(color)),
{
    match color {
        Color::White => square.rank() == 7,
        Color::Black => square.rank() == 0,
    }
}

/// Appends, for each square of `targets` in square order, the moves onto it from the
/// square `d` steps behind it (see `pawn_target_moves`).
fn push_pawn_targets(targets: BitBoardMask, d: i8, us: Color, base: MoveType, promotes: bool, moves: &mut Vec<ChessMove>)
    requires
        -63 <= d <= 63,
    ensures
        appends(old(moves)@, final(moves)@, pawn_target_moves(targets@, d as int, base, promotes, us)),
        keys_rise(old(moves)@, final(moves)@, |m: ChessMove| pawn_to_key(m)),
{
    let ghost okey = |m: ChessMove| pawn_to_key(m);
    let ghost start = moves@;
    let ghost p = pawn_target_moves(targets@, d as int, base, promotes, us);
    let ghost key = |m: ChessMove| m.to@;
    let mut bb = targets.0;
    proof {
        lemma_loop_start(start, p, key, bits(bb));
    }
    while bb != 0
        invariant
            -63 <= d <= 63,
            p == pawn_target_moves(targets@, d as int, base, promotes, us),
            key == (|m: ChessMove| m.to@),
            bits(bb).subset_of(targets@),
            appends(start, moves@, |m: ChessMove| p(m) && !bits(bb).contains(key(m))),
            okey == (|m: ChessMove| pawn_to_key(m)),
            keys_rise(start, moves@, okey),
            keys_below(start, moves@, key, bits(bb)),
        decreases bb,
    {
        proof {
            lemma_lowest_bit(bb);
        }
        let t = bb.trailing_zeros();
        let to = Square::try_from_index(t as u8).unwrap();
        let ghost mid = moves@;
        let ghost old_bb = bb;
        let ghost step = |m: ChessMove| p(m) && key(m) == t as int;
        match to.advance(-d) {
            Some(from) => {
                if promotes && is_promotion_rank(to, us) {
                    push_promotions(moves, from, to);
                    proof {
                        assert((|m: ChessMove| m.from == from && m.to == to && is_promotion_choice(m.move_type)) =~= step);
                    }
                } else {
                    let mv = ChessMove::new(from, to, base);
                    push_one(moves, mv);
                    proof {
                        assert((|x: ChessMove| x == mv) =~= step);
                    }
                }
            },
            None => {
                proof {
                    assert forall|m: ChessMove| !#[trigger] step(m) by {}
                    lemma_appends_none(mid, step);
                }
            },
        }
        bb = bb & (bb - 1);
        proof {
            assert(bits(old_bb).contains(t as int));
            lemma_loop_step(start, mid, moves@, p, key, bits(old_bb), t as int);
            assert forall|kk: int| mid.len() <= kk < moves@.len() implies key(#[trigger] moves@[kk]) == t as int by {
                assert(step(moves@[kk]));
            }
            assert forall|x: int| #[trigger] bits(old_bb).contains(x) implies t as int <= x by {
                if x < t as int {
                    assert(!crate::bits::bit(old_bb, x));
                }
            }
            assert forall|jj: int, kk: int| mid.len() <= jj < kk < moves@.len() implies okey(moves@[jj]) <= okey(moves@[kk]) by {
                assert(key(moves@[jj]) == t as int && key(moves@[kk]) == t as int);
            }
            assert forall|m1: ChessMove, m2: ChessMove| #[trigger] key(m1) < #[trigger] key(m2) implies okey(m1) < okey(m2) by {}
            lemma_rise_step(start, mid, moves@, key, okey, bits(old_bb), t as int);
        }
    }
    proof {
        crate::bits::lemma_bits_zero();
        lemma_loop_done(start, moves@, p, key);
    }
}

/// Appends every pseudo-legal pawn move of the side in `context` (see `pawn_moves`),
/// category by category: pushes, double pushes, captures of either diagonal, then
/// en-passant captures.
pub fn generate_pseudo_pawn_moves(pos: &Position, context: &MoveGenContext, moves: &mut Vec<ChessMove>)
    ensures
        appends(old(moves)@, final(moves)@, pawn_moves(*pos, *context)),
        pawn_order(*pos, *context, old(moves)@, final(moves)@),
{
    proof {
        pos.pieces.lemma_len();
    }
    let ghost s0 = moves@;
    let ghost ctx = *context;
    let ghost ps = *pos;
    let us = context.us;
    let pawns = pos.pieces.get(crate::piece::Piece::from_parts(us, Some(PieceKind::Pawn)));
    if pawns.is_empty() {
        proof {
            assert forall|m: ChessMove| !#[trigger] pawn_moves(*pos, *context)(m) by {}
            lemma_appends_none(s0, pawn_moves(*pos, *context));
            let e = s0.len() as int;
            assert(s0.take(e) =~= s0);
            lemma_appends_none(s0, pawn_target_moves(single_targets(ps, ctx), push_step(us), MoveType::Quiet, true, us));
            lemma_appends_none(s0, pawn_target_moves(double_targets(ps, ctx), 2 * push_step(us), MoveType::Quiet, false, us));
            lemma_appends_none(s0, pawn_target_moves(left_targets(ps, ctx), left_step(us), MoveType::Capture, true, us));
            lemma_appends_none(s0, pawn_target_moves(right_targets(ps, ctx), right_step(us), MoveType::Capture, true, us));
            lemma_appends_none(s0, pawn_target_moves(left_ep_targets(ps, ctx), left_step(us), MoveType::EnPassant, false, us));
            lemma_appends_none(s0, pawn_target_moves(right_ep_targets(ps, ctx), right_step(us), MoveType::EnPassant, false, us));
            assert(pawn_splits(ps, ctx, s0, s0, e, e, e, e, e));
        }
        return;
    }
    let empty = context.occupancy.not();
    let their_pieces = pos.their_pieces(us);

    let (single_push_dir, double_push_dir, left_cap_dir, right_cap_dir, double_rank_mask) = match us {
        Color::White => (NORTH, DOUBLE_NORTH, NORTH_WEST, NORTH_EAST, RANK_4),
        Color::Black => (SOUTH, DOUBLE_SOUTH, SOUTH_EAST, SOUTH_WEST, RANK_5),
    };
    proof {
        assert(bits(double_rank_mask) =~= rank_squares(double_push_rank(us))) by {
            assert(forall|i: u64| i < 64 ==> ((0xFF00_0000u64 >> i) & 1 == 1 <==> i / 8 == 3)) by (bit_vector);
            assert(forall|i: u64| i < 64 ==> ((0xFF_0000_0000u64 >> i) & 1 == 1 <==> i / 8 == 4)) by (bit_vector);
            assert forall|t: int| bits(double_rank_mask).contains(t) <==> rank_squares(double_push_rank(us)).contains(t) by {
                if 0 <= t < 64 {
                    let tu = t as u64;
                    assert(tu / 8 == rank_of(t));
                }
            }
        }
        assert(bits(!FILE_H) =~= off_file(7)) by {
            assert(forall|i: u64| i < 64 ==> (((!0x8080_8080_8080_8080u64) >> i) & 1 == 1 <==> i % 8 != 7)) by (bit_vector);
            assert forall|t: int| bits(!FILE_H).contains(t) <==> off_file(7).contains(t) by {
                if 0 <= t < 64 {
                    let tu = t as u64;
                    assert(tu % 8 == file_of(t));
                }
            }
        }
        assert(bits(!FILE_A) =~= off_file(0)) by {
            assert(forall|i: u64| i < 64 ==> (((!0x0101_0101_0101_0101u64) >> i) & 1 == 1 <==> i % 8 != 0)) by (bit_vector);
            assert forall|t: int| bits(!FILE_A).contains(t) <==> off_file(0).contains(t) by {
                if 0 <= t < 64 {
                    let tu = t as u64;
                    assert(tu % 8 == file_of(t));
                }
            }
        }
    }

    // Single pushes.
    let single_push = shift_mask(pawns, single_push_dir).and(empty);
    push_pawn_targets(single_push, single_push_dir, us, MoveType::Quiet, true, moves);
    let ghost s1 = moves@;
    let ghost c1 = pawn_target_moves(single_targets(ps, ctx), push_step(us), MoveType::Quiet, true, us);
    proof {
        assert(single_push@ == single_targets(ps, ctx));
    }

    // Double pushes (never a promotion).
    let double_push = shift_mask(single_push, single_push_dir).and(empty).and(BitBoardMask(double_rank_mask));
    push_pawn_targets(double_push, double_push_dir, us, MoveType::Quiet, false, moves);
    let ghost s2 = moves@;
    let ghost c2 = pawn_target_moves(double_targets(ps, ctx), 2 * push_step(us), MoveType::Quiet, false, us);
    let ghost a2 = |m: ChessMove| c1(m) || c2(m);
    proof {
        assert(double_push@ == double_targets(ps, ctx));
        lemma_appends_then(s0, s1, s2, c1, c2);
    }

    // Captures toward the a-file side for White (wrap lands on the h-file).
    let left_caps = shift_mask(pawns, left_cap_dir).and(their_pieces).and(BitBoardMask(!FILE_H));
    push_pawn_targets(left_caps, left_cap_dir, us, MoveType::Capture, true, moves);
    let ghost s3 = moves@;
    let ghost c3 = pawn_target_moves(left_targets(ps, ctx), left_step(us), MoveType::Capture, true, us);
    let ghost a3 = |m: ChessMove| a2(m) || c3(m);
    proof {
        assert(left_caps@ == left_targets(ps, ctx));
        lemma_appends_then(s0, s2, s3, a2, c3);
    }

    // Captures toward the h-file side for White (wrap lands on the a-file).
    let right_caps = shift_mask(pawns, right_cap_dir).and(their_pieces).and(BitBoardMask(!FILE_A));
    push_pawn_targets(right_caps, right_cap_dir, us, MoveType::Capture, true, moves);
    let ghost s4 = moves@;
    let ghost c4 = pawn_target_moves(right_targets(ps, ctx), right_step(us), MoveType::Capture, true, us);
    let ghost a4 = |m: ChessMove| a3(m) || c4(m);
    proof {
        assert(right_caps@ == right_targets(ps, ctx));
        lemma_appends_then(s0, s3, s4, a3, c4);
    }

    // En passant.
    let ep_mask = match pos.ep_square {
        Some(ep_square) => ep_square.bitboard(),
        None => BitBoardMask::empty(),
    };
    proof {
        assert(ep_mask@ == ep_set(ps));
    }
    let left_ep = shift_mask(pawns, left_cap_dir).and(ep_mask).and(BitBoardMask(!FILE_H));
    push_pawn_targets(left_ep, left_cap_dir, us, MoveType::EnPassant, false, moves);
    let ghost s5 = moves@;
    let ghost c5 = pawn_target_moves(left_ep_targets(ps, ctx), left_step(us), MoveType::EnPassant, false, us);
    let ghost a5 = |m: ChessMove| a4(m) || c5(m);
    proof {
        assert(left_ep@ == left_ep_targets(ps, ctx));
        lemma_appends_then(s0, s4, s5, a4, c5);
    }
    let right_ep = shift_mask(pawns, right_cap_dir).and(ep_mask).and(BitBoardMask(!FILE_A));
    push_pawn_targets(right_ep, right_cap_dir, us, MoveType::EnPassant, false, moves);
    let ghost c6 = pawn_target_moves(right_ep_targets(ps, ctx), right_step(us), MoveType::EnPassant, false, us);
    proof {
        assert(right_ep@ == right_ep_targets(ps, ctx));
        lemma_appends_then(s0, s5, moves@, a5, c6);
        assert((|m: ChessMove| a5(m) || c6(m)) =~= pawn_moves(ps, ctx));
        let fin = moves@;
        assert(pawn_order(ps, ctx, s0, fin)) by {
            assert(fin.take(s1.len() as int) =~= s1);
            assert(fin.take(s2.len() as int) =~= s2);
            assert(fin.take(s3.len() as int) =~= s3);
            assert(fin.take(s4.len() as int) =~= s4);
            assert(fin.take(s5.len() as int) =~= s5);
            assert(pawn_splits(ps, ctx, s0, fin, s1.len() as int, s2.len() as int, s3.len() as int, s4.len() as int, s5.len() as int));
        }
    }
}

/// `generate_pseudo_pawn_moves` into a `MoveList`.
pub fn generate_pseudo_pawn_moves_fast(pos: &Position, context: &MoveGenContext, moves: &mut MoveList)
    ensures
        appends(old(moves)@, final(moves)@, pawn_moves(*pos, *context)),
        pawn_order(*pos, *context, old(moves)@, final(moves)@),
{
    let mut v = moves.to_vec();
    generate_pseudo_pawn_moves(pos, context, &mut v);
    *moves = MoveList::from_vec(v);
}

} // verus!
