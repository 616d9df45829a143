//! Move generation: pseudo-legal moves per piece kind, captures, and legality.
use vstd::prelude::*;

use crate::bitboard::{bishop_attacks_from, king_attacks, knight_attacks, rook_attacks_from};
use crate::bits::{bit, bits, lemma_lowest_bit};
use crate::bitboardmask::BitBoardMask;
use crate::geometry::{bishop_targets, king_targets, knight_targets, rook_targets};
use crate::mov::{ChessMove, MoveType};
use crate::occupancy::OccupancyKind;
use crate::piece::{piece_of, Color, PieceKind};
use crate::position::{MoveGenContext, Position};
use crate::square::{lemma_square_range, Square};

pub mod api;
pub mod captures;
pub mod fast_check;
pub mod king;
pub mod knight;
pub mod legality;
pub mod pawn;
pub mod sliders;
pub mod sound;

pub use api::generate_legal_moves;
pub use api::generate_legal_moves_fast;
pub use api::generate_pseudo_moves;
pub use api::generate_pseudo_moves_fast;
pub use api::MoveGenerator;
pub use api::SimpleMoveGen;
pub use captures::generate_pseudo_captures;
pub use captures::generate_pseudo_captures_fast;
pub use king::generate_pseudo_king_moves;
pub use king::generate_pseudo_king_moves_fast;
pub use knight::generate_pseudo_knight_moves;
pub use knight::generate_pseudo_knight_moves_fast;
pub use legality::is_in_check;
pub use legality::is_legal;
pub use legality::is_legal_fast;
pub use legality::is_move_legal_without_making;
pub use pawn::generate_pseudo_pawn_moves;
pub use pawn::generate_pseudo_pawn_moves_fast;
pub use sliders::generate_pseudo_bishop_moves;
pub use sliders::generate_pseudo_bishop_moves_fast;
pub use sliders::generate_pseudo_queen_moves;
pub use sliders::generate_pseudo_queen_moves_fast;
pub use sliders::generate_pseudo_rook_moves;
pub use sliders::generate_pseudo_rook_moves_fast;

verus! {

broadcast use lemma_square_range;

/// `new` is `old` followed by each move satisfying `p`, each exactly once.
pub open spec fn appends(old: Seq<ChessMove>, new: Seq<ChessMove>, p: spec_fn(ChessMove) -> bool) -> bool {
    &&& old.len() <= new.len()
    &&& new.subrange(0, old.len() as int) == old
    &&& forall|k: int| old.len() <= k < new.len() ==> p(#[trigger] new[k])
    &&& forall|m: ChessMove| #[trigger] p(m) ==> exists|k: int| old.len() <= k < new.len() && new[k] == m
    &&& forall|j: int, k: int| old.len() <= j < k < new.len() ==> new[j] != new[k]
}

/// Rank of a promotion choice in the order they are generated: queen, rook, bishop,
/// knight; 0 for a move that does not promote.
pub open spec fn promo_rank(m: ChessMove) -> int {
    match m.move_type {
        MoveType::Promotion(PieceKind::Rook) => 1,
        MoveType::Promotion(PieceKind::Bishop) => 2,
        MoveType::Promotion(PieceKind::Knight) => 3,
        _ => 0,
    }
}

/// Position of a pawn move in destination order, promotions in the order of
/// `promo_rank`.
pub open spec fn pawn_to_key(m: ChessMove) -> int {
    m.to@ * 4 + promo_rank(m)
}

/// Position of a pawn capture in origin-then-destination order, promotions in the order
/// of `promo_rank`.
pub open spec fn pawn_from_to_key(m: ChessMove) -> int {
    (m.from@ * 64 + m.to@) * 4 + promo_rank(m)
}

/// Position of a move in origin-then-destination square order.
pub open spec fn from_to_key(m: ChessMove) -> int {
    m.from@ * 64 + m.to@
}

/// The moves `new` adds after `old` come in order of `key`, never decreasing.
pub open spec fn keys_rise(old: Seq<ChessMove>, new: Seq<ChessMove>, key: spec_fn(ChessMove) -> int) -> bool {
    forall|j: int, k: int| old.len() <= j < k < new.len() ==> key(new[j]) <= key(new[k])
}

/// Every move `new` adds after `old` has a `key` below each element of `left`.
pub open spec fn keys_below(old: Seq<ChessMove>, new: Seq<ChessMove>, key: spec_fn(ChessMove) -> int, left: Set<int>) -> bool {
    forall|k: int, x: int| old.len() <= k < new.len() && #[trigger] left.contains(x) ==> key(#[trigger] new[k]) < x
}

/// Appending nothing adds exactly the moves of an unsatisfiable predicate.
pub proof fn lemma_appends_none(s: Seq<ChessMove>, p: spec_fn(ChessMove) -> bool)
    requires
        forall|m: ChessMove| !#[trigger] p(m),
    ensures
        appends(s, s, p),
{
    assert(s.subrange(0, s.len() as int) =~= s);
}

/// Two appends in a row, of moves no predicate shares, append the moves of either.
pub proof fn lemma_appends_then(
    a: Seq<ChessMove>,
    b: Seq<ChessMove>,
    c: Seq<ChessMove>,
    p: spec_fn(ChessMove) -> bool,
    q: spec_fn(ChessMove) -> bool,
)
    requires
        appends(a, b, p),
        appends(b, c, q),
        forall|m: ChessMove| !(#[trigger] p(m) && q(m)),
    ensures
        appends(a, c, |m: ChessMove| p(m) || q(m)),
{
    let r = |m: ChessMove| p(m) || q(m);
    assert(c.subrange(0, b.len() as int) == b);
    assert forall|k: int| 0 <= k < b.len() implies c[k] == #[trigger] b[k] by {
        assert(c.subrange(0, b.len() as int)[k] == c[k]);
    }
    assert(c.subrange(0, a.len() as int) =~= a) by {
        assert forall|k: int| 0 <= k < a.len() implies c.subrange(0, a.len() as int)[k] == a[k] by {
            assert(b.subrange(0, a.len() as int)[k] == b[k]);
        }
    }
    assert forall|k: int| a.len() <= k < c.len() implies r(#[trigger] c[k]) by {
        if k < b.len() {
            assert(p(b[k]));
        } else {
            assert(q(c[k]));
        }
    }
    assert forall|m: ChessMove| #[trigger] r(m) implies exists|k: int| a.len() <= k < c.len() && c[k] == m by {
        if p(m) {
            let k = choose|k: int| a.len() <= k < b.len() && b[k] == m;
            assert(c[k] == m);
        } else {
            assert(q(m));
            let k = choose|k: int| b.len() <= k < c.len() && c[k] == m;
        }
    }
    assert forall|j: int, k: int| a.len() <= j < k < c.len() implies c[j] != c[k] by {
        if k < b.len() {
            assert(b[j] != b[k]);
        } else if j >= b.len() {
        } else {
            assert(p(b[j]));
            assert(q(c[k]));
            assert(c[j] == b[j]);
        }
    }
}

/// The occupancy set of the side other than `us`.
pub open spec fn their_kind(us: Color) -> OccupancyKind {
    if us == Color::White {
        OccupancyKind::Black
    } else {
        OccupancyKind::White
    }
}

/// Quiet onto an empty square, capture onto an enemy one.
pub open spec fn step_type(pos: Position, us: Color, to: int) -> MoveType {
    if pos.occ(their_kind(us)).contains(to) {
        MoveType::Capture
    } else {
        MoveType::Quiet
    }
}

/// Moves from `from` to each square of `targets`, typed by `step_type`.
pub open spec fn target_moves(pos: Position, us: Color, from: Square, targets: Set<int>) -> spec_fn(ChessMove) -> bool {
    |m: ChessMove| m.from == from && targets.contains(m.to@) && m.move_type == step_type(pos, us, m.to@)
}

/// Appends a move from `from` to each square of `valid_targets`, in square order:
/// a capture where the other side stands, a quiet move elsewhere.
pub fn push_moves_from_valid_targets(
    pos: &Position,
    context: &MoveGenContext,
    from: Square,
    valid_targets: BitBoardMask,
    moves: &mut Vec<ChessMove>,
)
    ensures
        appends(old(moves)@, final(moves)@, target_moves(*pos, context.us, from, valid_targets@)),
        keys_rise(old(moves)@, final(moves)@, |m: ChessMove| m.to@),
{
    let ghost start = moves@;
    let ghost tk = |m: ChessMove| m.to@;
    let ghost p = target_moves(*pos, context.us, from, valid_targets@);
    let theirs = pos.our_pieces(context.us.opposite());
    let mut bb = valid_targets.0;
    proof {
        assert(moves@.subrange(0, start.len() as int) =~= start);
    }
    while bb != 0
        invariant
            bits(bb).subset_of(valid_targets@),
            theirs@ == pos.occ(their_kind(context.us)),
            p == target_moves(*pos, context.us, from, valid_targets@),
            appends(start, moves@, |m: ChessMove| p(m) && !bits(bb).contains(m.to@)),
            tk == (|m: ChessMove| m.to@),
            keys_rise(start, moves@, tk),
            keys_below(start, moves@, tk, bits(bb)),
        decreases bb,
    {
        proof {
            lemma_lowest_bit(bb);
        }
        let t = bb.trailing_zeros();
        let to = Square::try_from_index(t as u8).unwrap();
        let move_type = if theirs.contains(to) {
            MoveType::Capture
        } else {
            MoveType::Quiet
        };
        let mv = ChessMove::new(from, to, move_type);
        let ghost prev = moves@;
        let ghost old_bb = bb;
        moves.push(mv);
        bb = bb & (bb - 1);
        proof {
            let q_old = |m: ChessMove| p(m) && !bits(old_bb).contains(m.to@);
            let q_new = |m: ChessMove| p(m) && !bits(bb).contains(m.to@);
            assert(p(mv));
            assert(moves@.subrange(0, start.len() as int) =~= start) by {
                assert(prev.subrange(0, start.len() as int) == start);
                assert forall|k: int| 0 <= k < start.len() implies moves@.subrange(0, start.len() as int)[k] == start[k] by {
                    assert(prev.subrange(0, start.len() as int)[k] == prev[k]);
                }
            }
            assert forall|k: int| start.len() <= k < moves@.len() implies q_new(#[trigger] moves@[k]) by {
                if k < prev.len() {
                    assert(moves@[k] == prev[k]);
                    assert(q_old(prev[k]));
                }
            }
            assert forall|m: ChessMove| #[trigger] q_new(m) implies exists|k: int| start.len() <= k < moves@.len() && moves@[k] == m by {
                if m.to@ == t as int {
                    assert(moves@[prev.len() as int] == m);
                } else {
                    assert(q_old(m));
                    let k = choose|k: int| start.len() <= k < prev.len() && prev[k] == m;
                    assert(moves@[k] == m);
                }
            }
            assert forall|j: int, k: int| start.len() <= j < k < moves@.len() implies moves@[j] != moves@[k] by {
                if k < prev.len() {
                    assert(prev[j] != prev[k]);
                } else {
                    assert(q_old(prev[j]));
                    assert(moves@[j] == prev[j]);
                }
            }
            assert(bits(old_bb).contains(t as int));
            assert forall|j: int, k: int| start.len() <= j < k < moves@.len() implies tk(moves@[j]) <= tk(moves@[k]) by {
                assert(moves@[j] == prev[j]);
                if k < prev.len() {
                    assert(moves@[k] == prev[k]);
                } else {
                    assert(tk(prev[j]) < t as int);
                }
            }
            assert forall|k: int, x: int| start.len() <= k < moves@.len() && #[trigger] bits(bb).contains(x) implies tk(#[trigger] moves@[k]) < x by {
                assert(bits(old_bb).contains(x));
                assert(x != t as int);
                assert(bit(old_bb, x));
                if k < prev.len() {
                    assert(moves@[k] == prev[k]);
                } else {
                    assert(!(x < t as int)) by {
                        if x < t as int {
                            assert(!bit(old_bb, x));
                        }
                    }
                }
            }
        }
    }
    proof {
        crate::bits::lemma_bits_zero();
        assert forall|m: ChessMove| #[trigger] p(m) == (p(m) && !bits(bb).contains(m.to@)) by {}
        assert((|m: ChessMove| p(m) && !bits(bb).contains(m.to@)) =~= p);
    }
}

/// One step of a loop that handles the elements of a set one at a time: the moves
/// for element `t` join the moves for the elements already handled.
pub proof fn lemma_loop_step(
    a: Seq<ChessMove>,
    b: Seq<ChessMove>,
    c: Seq<ChessMove>,
    p: spec_fn(ChessMove) -> bool,
    key: spec_fn(ChessMove) -> int,
    left: Set<int>,
    t: int,
)
    requires
        appends(a, b, |m: ChessMove| p(m) && !left.contains(key(m))),
        appends(b, c, |m: ChessMove| p(m) && key(m) == t),
        left.contains(t),
    ensures
        appends(a, c, |m: ChessMove| p(m) && !left.remove(t).contains(key(m))),
{
    let p1 = |m: ChessMove| p(m) && !left.contains(key(m));
    let q1 = |m: ChessMove| p(m) && key(m) == t;
    lemma_appends_then(a, b, c, p1, q1);
    assert((|m: ChessMove| p1(m) || q1(m)) =~= (|m: ChessMove| p(m) && !left.remove(t).contains(key(m))));
}

/// One step of a loop over the elements of a set, lowest first, that appends the
/// moves for element `t`: if the moves appended so far rise in `okey` and have `key`
/// below every element left, and the new ones rise in `okey` and have `key` equal to
/// `t`, then all of them rise in `okey` and have `key` below the elements still left.
pub proof fn lemma_rise_step(
    a: Seq<ChessMove>,
    b: Seq<ChessMove>,
    c: Seq<ChessMove>,
    key: spec_fn(ChessMove) -> int,
    okey: spec_fn(ChessMove) -> int,
    left: Set<int>,
    t: int,
)
    requires
        a.len() <= b.len() <= c.len(),
        c.subrange(0, b.len() as int) == b,
        keys_rise(a, b, okey),
        keys_below(a, b, key, left),
        keys_rise(b, c, okey),
        forall|k: int| b.len() <= k < c.len() ==> key(#[trigger] c[k]) == t,
        left.contains(t),
        forall|x: int| #[trigger] left.contains(x) ==> t <= x,
        forall|m1: ChessMove, m2: ChessMove| #[trigger] key(m1) < #[trigger] key(m2) ==> okey(m1) < okey(m2),
    ensures
        keys_rise(a, c, okey),
        keys_below(a, c, key, left.remove(t)),
{
    assert forall|k: int| 0 <= k < b.len() implies c[k] == #[trigger] b[k] by {
        assert(c.subrange(0, b.len() as int)[k] == c[k]);
    }
    assert forall|j: int, k: int| a.len() <= j < k < c.len() implies okey(c[j]) <= okey(c[k]) by {
        if k < b.len() {
            assert(c[j] == b[j] && c[k] == b[k]);
        } else if j >= b.len() {
        } else {
            assert(c[j] == b[j]);
            assert(left.contains(t));
            assert(key(b[j]) < t);
            assert(key(c[k]) == t);
        }
    }
    assert forall|k: int, x: int| a.len() <= k < c.len() && #[trigger] left.remove(t).contains(x) implies key(
        #[trigger] c[k],
    ) < x by {
        assert(left.contains(x));
        if k < b.len() {
            assert(c[k] == b[k]);
        } else {
            assert(t <= x && x != t);
        }
    }
}

/// Once every element is handled, the loop has appended exactly the moves of `p`.
pub proof fn lemma_loop_done(a: Seq<ChessMove>, b: Seq<ChessMove>, p: spec_fn(ChessMove) -> bool, key: spec_fn(ChessMove) -> int)
    requires
        appends(a, b, |m: ChessMove| p(m) && !Set::<int>::empty().contains(key(m))),
    ensures
        appends(a, b, p),
{
    assert((|m: ChessMove| p(m) && !Set::<int>::empty().contains(key(m))) =~= p);
}

/// Before a loop starts, nothing is handled.
pub proof fn lemma_loop_start(a: Seq<ChessMove>, p: spec_fn(ChessMove) -> bool, key: spec_fn(ChessMove) -> int, all: Set<int>)
    requires
        forall|m: ChessMove| #[trigger] p(m) ==> all.contains(key(m)),
    ensures
        appends(a, a, |m: ChessMove| p(m) && !all.contains(key(m))),
{
    lemma_appends_none(a, |m: ChessMove| p(m) && !all.contains(key(m)));
}

/// Appends `m`.
fn push_one(moves: &mut Vec<ChessMove>, m: ChessMove)
    ensures
        appends(old(moves)@, final(moves)@, |x: ChessMove| x == m),
        final(moves)@ == old(moves)@.push(m),
{
    let ghost prev = moves@;
    moves.push(m);
    proof {
        assert(moves@.subrange(0, prev.len() as int) =~= prev);
        assert(moves@[prev.len() as int] == m);
    }
}

/// A promotion to a queen, rook, bishop or knight.
pub open spec fn is_promotion_choice(mt: MoveType) -> bool {
    mt == MoveType::Promotion(PieceKind::Queen) || mt == MoveType::Promotion(PieceKind::Rook)
        || mt == MoveType::Promotion(PieceKind::Bishop) || mt == MoveType::Promotion(PieceKind::Knight)
}

/// Appends the four promotions from `from` to `to`: queen, rook, bishop, knight.
fn push_promotions(moves: &mut Vec<ChessMove>, from: Square, to: Square)
    ensures
        appends(old(moves)@, final(moves)@, |m: ChessMove| m.from == from && m.to == to && is_promotion_choice(m.move_type)),
        final(moves)@ == old(moves)@ + seq![
            ChessMove { from, to, move_type: MoveType::Promotion(PieceKind::Queen) },
            ChessMove { from, to, move_type: MoveType::Promotion(PieceKind::Rook) },
            ChessMove { from, to, move_type: MoveType::Promotion(PieceKind::Bishop) },
            ChessMove { from, to, move_type: MoveType::Promotion(PieceKind::Knight) },
        ],
{
    let ghost s0 = moves@;
    let q = ChessMove::new(from, to, MoveType::Promotion(PieceKind::Queen));
    let r = ChessMove::new(from, to, MoveType::Promotion(PieceKind::Rook));
    let b = ChessMove::new(from, to, MoveType::Promotion(PieceKind::Bishop));
    let n = ChessMove::new(from, to, MoveType::Promotion(PieceKind::Knight));
    let ghost p1 = |x: ChessMove| x == q;
    let ghost p2 = |x: ChessMove| x == r;
    let ghost p3 = |x: ChessMove| x == b;
    let ghost p4 = |x: ChessMove| x == n;
    let ghost p12 = |x: ChessMove| p1(x) || p2(x);
    let ghost p123 = |x: ChessMove| p12(x) || p3(x);
    push_one(moves, q);
    let ghost s1 = moves@;
    proof {
        assert((|x: ChessMove| x == q) =~= p1);
    }
    push_one(moves, r);
    let ghost s2 = moves@;
    proof {
        assert((|x: ChessMove| x == r) =~= p2);
        lemma_appends_then(s0, s1, s2, p1, p2);
    }
    push_one(moves, b);
    let ghost s3 = moves@;
    proof {
        assert((|x: ChessMove| x == b) =~= p3);
        lemma_appends_then(s0, s2, s3, p12, p3);
    }
    push_one(moves, n);
    proof {
        assert((|x: ChessMove| x == n) =~= p4);
        lemma_appends_then(s0, s3, moves@, p123, p4);
        assert((|x: ChessMove| p123(x) || p4(x)) =~= (|m: ChessMove| m.from == from && m.to == to && is_promotion_choice(m.move_type)));
        assert(moves@ =~= s0 + seq![q, r, b, n]);
    }
}

/// Squares a piece of kind `k` on `from` attacks when `occ` is occupied (kings for
/// any kind other than knight, bishop, rook or queen).
pub open spec fn piece_targets(k: PieceKind, from: int, occ: Set<int>) -> Set<int> {
    match k {
        PieceKind::Knight => knight_targets(from),
        PieceKind::Bishop => bishop_targets(from, occ),
        PieceKind::Rook => rook_targets(from, occ),
        PieceKind::Queen => rook_targets(from, occ).union(bishop_targets(from, occ)),
        _ => king_targets(from),
    }
}

fn attacks_of(k: PieceKind, from: Square, occ: BitBoardMask) -> (r: BitBoardMask)
    ensures
        r@ == piece_targets(k, from@, occ@),
{
    match k {
        PieceKind::Knight => knight_attacks(from),
        PieceKind::Bishop => bishop_attacks_from(from, occ),
        PieceKind::Rook => rook_attacks_from(from, occ),
        PieceKind::Queen => rook_attacks_from(from, occ).or(bishop_attacks_from(from, occ)),
        _ => king_attacks(from),
    }
}

/// Moves of every piece of kind `k` of the side in `ctx`: to each attacked square not
/// holding a piece of that side.
pub open spec fn piece_moves(pos: Position, ctx: MoveGenContext, k: PieceKind) -> spec_fn(ChessMove) -> bool {
    |m: ChessMove|
        pos.bb(piece_of(ctx.us, k)).contains(m.from@) && target_moves(
            pos,
            ctx.us,
            m.from,
            piece_targets(k, m.from@, ctx.occupancy@).intersect(ctx.not_ours@),
        )(m)
}

/// Moves from each square of `origins` as a piece of kind `k` to each square it
/// attacks (with `occ` occupied) that lies in `mask`, typed by `step_type`.
pub open spec fn attack_moves(
    pos: Position,
    us: Color,
    origins: Set<int>,
    k: PieceKind,
    occ: Set<int>,
    mask: Set<int>,
) -> spec_fn(ChessMove) -> bool {
    |m: ChessMove|
        origins.contains(m.from@) && target_moves(pos, us, m.from, piece_targets(k, m.from@, occ).intersect(mask))(m)
}

/// Appends the moves of `attack_moves`, origin by origin in square order.
fn push_attack_moves(
    pos: &Position,
    context: &MoveGenContext,
    origins: BitBoardMask,
    k: PieceKind,
    occ: BitBoardMask,
    mask: BitBoardMask,
    moves: &mut Vec<ChessMove>,
)
    ensures
        appends(old(moves)@, final(moves)@, attack_moves(*pos, context.us, origins@, k, occ@, mask@)),
        keys_rise(old(moves)@, final(moves)@, |m: ChessMove| from_to_key(m)),
{
    let ghost start = moves@;
    let ghost p = attack_moves(*pos, context.us, origins@, k, occ@, mask@);
    let ghost key = |m: ChessMove| m.from@;
    let ghost okey = |m: ChessMove| from_to_key(m);
    let mut bb = origins.0;
    proof {
        lemma_loop_start(start, p, key, bits(bb));
    }
    while bb != 0
        invariant
            p == attack_moves(*pos, context.us, origins@, k, occ@, mask@),
            key == (|m: ChessMove| m.from@),
            okey == (|m: ChessMove| from_to_key(m)),
            bits(bb).subset_of(origins@),
            appends(start, moves@, |m: ChessMove| p(m) && !bits(bb).contains(key(m))),
            keys_rise(start, moves@, okey),
            keys_below(start, moves@, key, bits(bb)),
        decreases bb,
    {
        proof {
            lemma_lowest_bit(bb);
        }
        let t = bb.trailing_zeros();
        let from = Square::try_from_index(t as u8).unwrap();
        let targets = attacks_of(k, from, occ).and(mask);
        let ghost mid = moves@;
        let ghost old_bb = bb;
        push_moves_from_valid_targets(pos, context, from, targets, moves);
        bb = bb & (bb - 1);
        proof {
            assert(bits(old_bb).contains(t as int));
            assert((|m: ChessMove| p(m) && key(m) == t as int) =~= target_moves(*pos, context.us, from, targets@));
            lemma_loop_step(start, mid, moves@, p, key, bits(old_bb), t as int);
            assert forall|kk: int| mid.len() <= kk < moves@.len() implies key(#[trigger] moves@[kk]) == t as int by {
                assert(target_moves(*pos, context.us, from, targets@)(moves@[kk]));
            }
            assert forall|j: int, kk: int| mid.len() <= j < kk < moves@.len() implies okey(moves@[j]) <= okey(moves@[kk]) by {
                assert(key(moves@[j]) == t as int && key(moves@[kk]) == t as int);
            }
            assert forall|x: int| #[trigger] bits(old_bb).contains(x) implies t as int <= x by {
                if x < t as int {
                    assert(!crate::bits::bit(old_bb, x));
                }
            }
            assert forall|m1: ChessMove, m2: ChessMove| #[trigger] key(m1) < #[trigger] key(m2) implies okey(m1) < okey(m2) by {}
            lemma_rise_step(start, mid, moves@, key, okey, bits(old_bb), t as int);
        }
    }
    proof {
        crate::bits::lemma_bits_zero();
        lemma_loop_done(start, moves@, p, key);
    }
}

/// Appends the moves of every piece of kind `k` of the side to move, origin by origin
/// in square order.
fn push_piece_moves(pos: &Position, context: &MoveGenContext, k: PieceKind, moves: &mut Vec<ChessMove>)
    ensures
        appends(old(moves)@, final(moves)@, piece_moves(*pos, *context, k)),
        keys_rise(old(moves)@, final(moves)@, |m: ChessMove| from_to_key(m)),
{
    proof {
        pos.pieces.lemma_len();
    }
    let pieces = pos.pieces.get(crate::piece::Piece::from_parts(context.us, Some(k)));
    push_attack_moves(pos, context, pieces, k, context.occupancy, context.not_ours, moves);
    proof {
        assert(attack_moves(*pos, context.us, pieces@, k, context.occupancy@, context.not_ours@) =~= piece_moves(*pos, *context, k));
    }
}

/// `new` is `old` followed by moves that satisfy `p`, every such move at least once.
pub open spec fn collects(old: Seq<ChessMove>, new: Seq<ChessMove>, p: spec_fn(ChessMove) -> bool) -> bool {
    &&& old.len() <= new.len()
    &&& new.subrange(0, old.len() as int) == old
    &&& forall|k: int| old.len() <= k < new.len() ==> p(#[trigger] new[k])
    &&& forall|m: ChessMove| #[trigger] p(m) ==> exists|k: int| old.len() <= k < new.len() && new[k] == m
}

/// Two collections in a row collect the moves of either predicate.
pub proof fn lemma_collects_then(
    a: Seq<ChessMove>,
    b: Seq<ChessMove>,
    c: Seq<ChessMove>,
    p: spec_fn(ChessMove) -> bool,
    q: spec_fn(ChessMove) -> bool,
)
    requires
        collects(a, b, p),
        collects(b, c, q),
    ensures
        collects(a, c, |m: ChessMove| p(m) || q(m)),
{
    let r = |m: ChessMove| p(m) || q(m);
    assert(c.subrange(0, b.len() as int) == b);
    assert forall|k: int| 0 <= k < b.len() implies c[k] == #[trigger] b[k] by {
        assert(c.subrange(0, b.len() as int)[k] == c[k]);
    }
    assert(c.subrange(0, a.len() as int) =~= a) by {
        assert forall|k: int| 0 <= k < a.len() implies c.subrange(0, a.len() as int)[k] == a[k] by {
            assert(b.subrange(0, a.len() as int)[k] == b[k]);
        }
    }
    assert forall|k: int| a.len() <= k < c.len() implies r(#[trigger] c[k]) by {
        if k < b.len() {
            assert(p(b[k]));
        } else {
            assert(q(c[k]));
        }
    }
    assert forall|m: ChessMove| #[trigger] r(m) implies exists|k: int| a.len() <= k < c.len() && c[k] == m by {
        if p(m) {
            let k = choose|k: int| a.len() <= k < b.len() && b[k] == m;
            assert(c[k] == m);
        } else {
            assert(q(m));
            let k = choose|k: int| b.len() <= k < c.len() && c[k] == m;
        }
    }
}

/// Appending is collecting.
pub proof fn lemma_appends_collects(a: Seq<ChessMove>, b: Seq<ChessMove>, p: spec_fn(ChessMove) -> bool)
    requires
        appends(a, b, p),
    ensures
        collects(a, b, p),
{
}

} // verus!
