//! Whole-position move generation: pseudo-legal and legal move lists.
use vstd::prelude::*;

use crate::mov::{ChessMove, MoveType};
use crate::movegen::king::{generate_pseudo_king_moves, king_moves, king_order_key};
use crate::movegen::legality::{is_in_check, in_check, is_legal_fast, legal_after, occ_after, playable, sets_after};
use crate::movegen::pawn::{generate_pseudo_pawn_moves, pawn_moves, pawn_order};
use crate::movegen::{
    appends, collects, from_to_key, keys_rise, lemma_appends_collects, lemma_appends_then, lemma_collects_then,
    piece_moves, push_piece_moves,
};
use crate::movelist::MoveList;
use crate::occupancy::OccupancyKind;
use crate::piece::{piece_of, Color, Piece, PieceKind};
use crate::position::{ep_victim, pidx, MoveGenContext, Position};
use crate::square::lemma_square_range;

verus! {

broadcast use lemma_square_range;

/// The move generator that the functions of this module make up.
#[derive(Clone, Copy)]
pub struct SimpleMoveGen;

/// A source of check detection for the side to move.
pub trait MoveGenerator {
    /// Whether the side to move in `pos` is in check.
    fn in_check(&self, pos: &Position) -> bool;
}

impl MoveGenerator for SimpleMoveGen {
    /// The king of the side to move is attacked (a missing king is not in check).
    fn in_check(&self, pos: &Position) -> (r: bool)
        ensures
            r == in_check(*pos, pos.side_to_move),
    {
        is_in_check(pos, pos.side_to_move)
    }
}

/// The generation context of the side to move.
pub open spec fn context_of(pos: Position) -> MoveGenContext {
    MoveGenContext {
        us: pos.side_to_move,
        occupancy: pos.occupancy@[2],
        not_ours: crate::bitboardmask::BitBoardMask(!pos.occupancy@[pos.side_to_move as u8 as int].0),
    }
}

/// Pseudo-legal moves of the side to move: every pawn, knight, bishop, rook, queen
/// and king move, without regard to the mover's king being left attacked.
pub open spec fn pseudo_moves(pos: Position) -> spec_fn(ChessMove) -> bool {
    |m: ChessMove| {
        let ctx = context_of(pos);
        ||| pawn_moves(pos, ctx)(m)
        ||| piece_moves(pos, ctx, PieceKind::Knight)(m)
        ||| piece_moves(pos, ctx, PieceKind::Bishop)(m)
        ||| piece_moves(pos, ctx, PieceKind::Rook)(m)
        ||| piece_moves(pos, ctx, PieceKind::Queen)(m)
        ||| king_moves(pos, ctx)(m)
    }
}

/// Legal moves: pseudo-legal moves after which the mover still has a king and it is
/// not attacked.
pub open spec fn legal_moves(pos: Position) -> spec_fn(ChessMove) -> bool {
    |m: ChessMove| pseudo_moves(pos)(m) && legal_after(pos, m)
}

/// No square holds two different pieces in the piece sets.
pub open spec fn pieces_disjoint(pos: Position) -> bool {
    forall|p: Piece, q: Piece|
        p.is_piece() && q.is_piece() && p != q ==> #[trigger] pos.bb(p).disjoint(#[trigger] pos.bb(q))
}

/// The en-passant square lies where the pawn it captures can stand behind it.
pub open spec fn ep_consistent(pos: Position) -> bool {
    pos.ep_square is Some ==> 0 <= ep_victim(pos.ep_square->0@, pos.side_to_move) < 64
}

/// A well-formed position has disjoint piece sets.
pub proof fn lemma_wf_disjoint(pos: Position)
    requires
        pos.wf(),
    ensures
        pieces_disjoint(pos),
{
    assert forall|p: Piece, q: Piece| p.is_piece() && q.is_piece() && p != q implies #[trigger] pos.bb(p).disjoint(#[trigger] pos.bb(q)) by {
        assert forall|s: int| pos.bb(p).contains(s) implies !pos.bb(q).contains(s) by {
            crate::bits::lemma_bits_subset(pos.pieces@[pidx(p)].0);
        }
    }
}

fn context_for(pos: &Position) -> (r: MoveGenContext)
    ensures
        r == context_of(*pos),
{
    let us = pos.side_to_move;
    let occupancy = pos.occupancy.get_both();
    let ours = pos.occupancy.get_by_color(us);
    MoveGenContext { us, occupancy, not_ours: ours.not() }
}

/// `new` extends `old` by the pawn moves (in the order of `pawn_order`), then the
/// knight, bishop, rook and queen moves (each by origin square, then destination
/// square), then the king moves (see `king_order_key`), each kind's moves in a block of
/// their own that ends at the given lengths.
pub open spec fn piece_splits(
    pos: Position,
    old: Seq<ChessMove>,
    new: Seq<ChessMove>,
    i1: int,
    i2: int,
    i3: int,
    i4: int,
    i5: int,
) -> bool {
    let ctx = context_of(pos);
    &&& old.len() <= i1 <= i2 <= i3 <= i4 <= i5 <= new.len()
    &&& collects(old, new.take(i1), pawn_moves(pos, ctx))
    &&& collects(new.take(i1), new.take(i2), piece_moves(pos, ctx, PieceKind::Knight))
    &&& collects(new.take(i2), new.take(i3), piece_moves(pos, ctx, PieceKind::Bishop))
    &&& collects(new.take(i3), new.take(i4), piece_moves(pos, ctx, PieceKind::Rook))
    &&& collects(new.take(i4), new.take(i5), piece_moves(pos, ctx, PieceKind::Queen))
    &&& collects(new.take(i5), new, king_moves(pos, ctx))
    &&& pawn_order(pos, ctx, old, new.take(i1))
    &&& keys_rise(new.take(i1), new.take(i2), |m: ChessMove| from_to_key(m))
    &&& keys_rise(new.take(i2), new.take(i3), |m: ChessMove| from_to_key(m))
    &&& keys_rise(new.take(i3), new.take(i4), |m: ChessMove| from_to_key(m))
    &&& keys_rise(new.take(i4), new.take(i5), |m: ChessMove| from_to_key(m))
    &&& keys_rise(new.take(i5), new, |m: ChessMove| king_order_key(m))
}

/// `new` extends `old` by the moves of the side to move in the order of the piece
/// kinds: pawns, knights, bishops, rooks, queens, king (see `piece_splits`).
pub open spec fn piece_order(pos: Position, old: Seq<ChessMove>, new: Seq<ChessMove>) -> bool {
    exists|i1: int, i2: int, i3: int, i4: int, i5: int| #[trigger] piece_splits(pos, old, new, i1, i2, i3, i4, i5)
}

/// The moves of `s` after which the mover keeps a king that is not attacked, in the
/// order of `s`.
pub open spec fn legal_in_order(pos: Position, s: Seq<ChessMove>) -> Seq<ChessMove> {
    s.filter(|m: ChessMove| legal_after(pos, m))
}

/// Blocks appended one after another in piece-kind order, each in its own order, make
/// a list in piece order.
proof fn lemma_piece_order(
    pos: Position,
    s0: Seq<ChessMove>,
    s1: Seq<ChessMove>,
    s2: Seq<ChessMove>,
    s3: Seq<ChessMove>,
    s4: Seq<ChessMove>,
    s5: Seq<ChessMove>,
    fin: Seq<ChessMove>,
)
    requires
        collects(s0, s1, pawn_moves(pos, context_of(pos))),
        collects(s1, s2, piece_moves(pos, context_of(pos), PieceKind::Knight)),
        collects(s2, s3, piece_moves(pos, context_of(pos), PieceKind::Bishop)),
        collects(s3, s4, piece_moves(pos, context_of(pos), PieceKind::Rook)),
        collects(s4, s5, piece_moves(pos, context_of(pos), PieceKind::Queen)),
        collects(s5, fin, king_moves(pos, context_of(pos))),
        pawn_order(pos, context_of(pos), s0, s1),
        keys_rise(s1, s2, |m: ChessMove| from_to_key(m)),
        keys_rise(s2, s3, |m: ChessMove| from_to_key(m)),
        keys_rise(s3, s4, |m: ChessMove| from_to_key(m)),
        keys_rise(s4, s5, |m: ChessMove| from_to_key(m)),
        keys_rise(s5, fin, |m: ChessMove| king_order_key(m)),
    ensures
        piece_order(pos, s0, fin),
{
    assert(fin.take(s5.len() as int) =~= s5);
    assert(fin.take(s4.len() as int) =~= s4) by {
        assert(s5.take(s4.len() as int) =~= s4);
    }
    assert(fin.take(s3.len() as int) =~= s3) by {
        assert(s5.take(s4.len() as int) =~= s4);
        assert(s4.take(s3.len() as int) =~= s3);
    }
    assert(fin.take(s2.len() as int) =~= s2) by {
        assert(s5.take(s4.len() as int) =~= s4);
        assert(s4.take(s3.len() as int) =~= s3);
        assert(s3.take(s2.len() as int) =~= s2);
    }
    assert(fin.take(s1.len() as int) =~= s1) by {
        assert(s5.take(s4.len() as int) =~= s4);
        assert(s4.take(s3.len() as int) =~= s3);
        assert(s3.take(s2.len() as int) =~= s2);
        assert(s2.take(s1.len() as int) =~= s1);
    }
    assert(piece_splits(pos, s0, fin, s1.len() as int, s2.len() as int, s3.len() as int, s4.len() as int, s5.len() as int));
}

/// Every pseudo-legal move, generated into `moves` piece kind by piece kind.
#[verifier::spinoff_prover]
#[verifier::rlimit(60)]
fn collect_pseudo_moves(pos: &Position, moves: &mut Vec<ChessMove>)
    ensures
        collects(old(moves)@, final(moves)@, pseudo_moves(*pos)),
        piece_order(*pos, old(moves)@, final(moves)@),
        pieces_disjoint(*pos) ==> appends(old(moves)@, final(moves)@, pseudo_moves(*pos)),
{
    let context = context_for(pos);
    let ghost ctx = context;
    let ghost ps = *pos;
    let ghost s0 = moves@;
    generate_pseudo_pawn_moves(pos, &context, moves);
    let ghost s1 = moves@;
    push_piece_moves(pos, &context, PieceKind::Knight, moves);
    let ghost s2 = moves@;
    push_piece_moves(pos, &context, PieceKind::Bishop, moves);
    let ghost s3 = moves@;
    push_piece_moves(pos, &context, PieceKind::Rook, moves);
    let ghost s4 = moves@;
    push_piece_moves(pos, &context, PieceKind::Queen, moves);
    let ghost s5 = moves@;
    generate_pseudo_king_moves(pos, &context, moves);
    proof {
        let c1 = pawn_moves(ps, ctx);
        let c2 = piece_moves(ps, ctx, PieceKind::Knight);
        let c3 = piece_moves(ps, ctx, PieceKind::Bishop);
        let c4 = piece_moves(ps, ctx, PieceKind::Rook);
        let c5 = piece_moves(ps, ctx, PieceKind::Queen);
        let c6 = king_moves(ps, ctx);
        let a2 = |m: ChessMove| c1(m) || c2(m);
        let a3 = |m: ChessMove| a2(m) || c3(m);
        let a4 = |m: ChessMove| a3(m) || c4(m);
        let a5 = |m: ChessMove| a4(m) || c5(m);
        lemma_appends_collects(s0, s1, c1);
        lemma_appends_collects(s1, s2, c2);
        lemma_appends_collects(s2, s3, c3);
        lemma_appends_collects(s3, s4, c4);
        lemma_appends_collects(s4, s5, c5);
        lemma_appends_collects(s5, moves@, c6);
        lemma_piece_order(ps, s0, s1, s2, s3, s4, s5, moves@);
        lemma_collects_then(s0, s1, s2, c1, c2);
        lemma_collects_then(s0, s2, s3, a2, c3);
        lemma_collects_then(s0, s3, s4, a3, c4);
        lemma_collects_then(s0, s4, s5, a4, c5);
        lemma_collects_then(s0, s5, moves@, a5, c6);
        assert((|m: ChessMove| a5(m) || c6(m)) =~= pseudo_moves(ps));
        if pieces_disjoint(ps) {
            let us = ctx.us;
            let pw = piece_of(us, PieceKind::Pawn);
            let kn = piece_of(us, PieceKind::Knight);
            let bi = piece_of(us, PieceKind::Bishop);
            let ro = piece_of(us, PieceKind::Rook);
            let qu = piece_of(us, PieceKind::Queen);
            let ki = piece_of(us, PieceKind::King);
            assert(ps.bb(pw).disjoint(ps.bb(kn)));
            assert(ps.bb(pw).disjoint(ps.bb(bi)) && ps.bb(kn).disjoint(ps.bb(bi)));
            assert(ps.bb(pw).disjoint(ps.bb(ro)) && ps.bb(kn).disjoint(ps.bb(ro)) && ps.bb(bi).disjoint(ps.bb(ro)));
            assert(ps.bb(pw).disjoint(ps.bb(qu)) && ps.bb(kn).disjoint(ps.bb(qu)) && ps.bb(bi).disjoint(ps.bb(qu)) && ps.bb(ro).disjoint(ps.bb(qu)));
            assert(ps.bb(pw).disjoint(ps.bb(ki)) && ps.bb(kn).disjoint(ps.bb(ki)) && ps.bb(bi).disjoint(ps.bb(ki)) && ps.bb(ro).disjoint(ps.bb(ki)) && ps.bb(qu).disjoint(ps.bb(ki)));
            assert forall|m: ChessMove| #[trigger] c1(m) implies ps.bb(pw).contains(m.from@) by {}
            assert forall|m: ChessMove| #[trigger] c6(m) implies ps.bb(ki).contains(m.from@) by {
                let k = ps.bb(ki);
                let l = crate::attack::lowest(k);
                assert(k.contains(l)) by {
                    let t = choose|t: int| k.contains(t);
                    crate::bits::lemma_bits_subset(ps.pieces@[pidx(ki)].0);
                    lemma_lowest_exists(k);
                }
            }
            lemma_appends_then(s0, s1, s2, c1, c2);
            lemma_appends_then(s0, s2, s3, a2, c3);
            lemma_appends_then(s0, s3, s4, a3, c4);
            lemma_appends_then(s0, s4, s5, a4, c5);
            lemma_appends_then(s0, s5, moves@, a5, c6);
        }
    }
}

/// A nonempty set of board squares has a lowest element.
pub proof fn lemma_lowest_exists(s: Set<int>)
    requires
        s != Set::<int>::empty(),
        forall|t: int| s.contains(t) ==> 0 <= t < 64,
    ensures
        s.contains(crate::attack::lowest(s)),
        forall|u: int| s.contains(u) ==> crate::attack::lowest(s) <= u,
{
    let t0 = choose|t: int| s.contains(t);
    assert(s.contains(t0)) by {
        if !s.contains(t0) {
            assert(s =~= Set::<int>::empty());
        }
    }
    lemma_min_below(s, t0, 64);
}

proof fn lemma_min_below(s: Set<int>, t0: int, n: int)
    requires
        s.contains(t0),
        forall|t: int| s.contains(t) ==> 0 <= t < 64,
        0 <= n <= 64,
        forall|t: int| s.contains(t) && t < 64 - n ==> false,
    ensures
        exists|l: int| s.contains(l) && forall|u: int| s.contains(u) ==> l <= u,
    decreases n,
{
    let b = 64 - n;
    if s.contains(b) {
        assert forall|u: int| s.contains(u) implies b <= u by {
            if u < b {
                assert(false);
            }
        }
    } else {
        assert(n > 0) by {
            if n == 0 {
                assert(s.contains(t0) && t0 < 64);
            }
        }
        lemma_min_below(s, t0, n - 1);
    }
}

/// Every pseudo-legal move of the side to move (see `pseudo_moves`), pawns first,
/// then knights, bishops, rooks, queens and the king.
pub fn generate_pseudo_moves_fast(pos: &Position) -> (r: MoveList)
    ensures
        collects(Seq::empty(), r@, pseudo_moves(*pos)),
        piece_order(*pos, Seq::empty(), r@),
        pieces_disjoint(*pos) ==> appends(Seq::empty(), r@, pseudo_moves(*pos)),
{
    let mut v: Vec<ChessMove> = Vec::new();
    collect_pseudo_moves(pos, &mut v);
    MoveList::from_vec(v)
}

/// `generate_pseudo_moves_fast` as a vector.
pub fn generate_pseudo_moves(pos: &Position) -> (r: Vec<ChessMove>)
    ensures
        collects(Seq::empty(), r@, pseudo_moves(*pos)),
        piece_order(*pos, Seq::empty(), r@),
        pieces_disjoint(*pos) ==> appends(Seq::empty(), r@, pseudo_moves(*pos)),
{
    let mut v: Vec<ChessMove> = Vec::new();
    collect_pseudo_moves(pos, &mut v);
    v
}

/// Every legal move of the side to move (see `legal_moves`), each once, in the order
/// of `generate_pseudo_moves_fast`: the pseudo-legal moves in piece-kind order (see
/// `piece_order`), keeping those after which the mover's king is safe.
pub fn generate_legal_moves_fast(pos: &Position) -> (r: MoveList)
    requires
        pos.wf(),
    ensures
        appends(Seq::empty(), r@, legal_moves(*pos)),
        exists|p: Seq<ChessMove>| #[trigger] piece_order(*pos, Seq::empty(), p) && collects(Seq::empty(), p, pseudo_moves(*pos))
            && r@ == legal_in_order(*pos, p),
{
    proof {
        lemma_wf_disjoint(*pos);
    }
    let pseudo = generate_pseudo_moves_fast(pos);
    let mut legal: Vec<ChessMove> = Vec::new();
    let mut new_pos = *pos;
    let ps = pseudo.as_slice();
    let mut i: usize = 0;
    while i < ps.len()
        invariant
            pos.wf(),
            ps@ == pseudo@,
            appends(Seq::empty(), pseudo@, pseudo_moves(*pos)),
            i <= ps@.len(),
            forall|k: int| 0 <= k < legal@.len() ==> legal_moves(*pos)(#[trigger] legal@[k]),
            forall|k: int| 0 <= k < legal@.len() ==> exists|j: int| 0 <= j < i && ps@[j] == #[trigger] legal@[k],
            forall|j: int| 0 <= j < i && legal_after(*pos, #[trigger] ps@[j]) ==> legal@.contains(ps@[j]),
            forall|j: int, k: int| 0 <= j < k < legal@.len() ==> legal@[j] != legal@[k],
            legal@ == legal_in_order(*pos, ps@.take(i as int)),
        decreases ps@.len() - i,
    {
        let m = ps[i];
        proof {
            reveal(Seq::filter);
            assert(ps@.take(i + 1).drop_last() =~= ps@.take(i as int));
            assert(ps@.take(i + 1).last() == m);
        }
        proof {
            assert(pseudo_moves(*pos)(m));
            lemma_pseudo_playable(*pos, m);
        }
        pos.apply_move_into(&m, &mut new_pos);
        proof {
            assert(new_pos.sets() == sets_after(*pos, m));
            assert(new_pos.occ(OccupancyKind::Both) == occ_after(*pos, m));
        }
        if is_legal_fast(pos, &new_pos) {
            let ghost prev = legal@;
            legal.push(m);
            proof {
                assert(legal_after(*pos, m));
                assert forall|k: int| 0 <= k < legal@.len() implies exists|j: int| 0 <= j < i + 1 && ps@[j] == #[trigger] legal@[k] by {
                    if k < prev.len() {
                        assert(legal@[k] == prev[k]);
                    } else {
                        assert(ps@[i as int] == legal@[k]);
                    }
                }
                assert forall|j: int| 0 <= j < i + 1 && legal_after(*pos, #[trigger] ps@[j]) implies legal@.contains(ps@[j]) by {
                    if j < i {
                        let k = choose|k: int| 0 <= k < prev.len() && prev[k] == ps@[j];
                        assert(legal@[k] == ps@[j]);
                    } else {
                        assert(legal@[prev.len() as int] == ps@[j]);
                    }
                }
                assert forall|j: int, k: int| 0 <= j < k < legal@.len() implies legal@[j] != legal@[k] by {
                    if k == prev.len() {
                        let jj = choose|jj: int| 0 <= jj < i && ps@[jj] == prev[j];
                        assert(ps@[jj] != ps@[i as int]);
                    }
                }
            }
        } else {
            proof {
                assert(!legal_after(*pos, m));
            }
        }
        i = i + 1;
    }
    proof {
        assert(ps@.take(ps@.len() as int) =~= pseudo@);
        assert(piece_order(*pos, Seq::empty(), pseudo@));
        assert(legal@.subrange(0, 0) =~= Seq::<ChessMove>::empty());
        assert forall|mv: ChessMove| #[trigger] legal_moves(*pos)(mv) implies exists|k: int| 0 <= k < legal@.len() && legal@[k] == mv by {
            let j = choose|j: int| 0 <= j < pseudo@.len() && pseudo@[j] == mv;
            assert(legal_after(*pos, ps@[j]));
            assert(legal@.contains(mv));
        }
    }
    MoveList::from_vec(legal)
}

/// `generate_legal_moves_fast` as a vector.
pub fn generate_legal_moves(pos: &Position) -> (r: Vec<ChessMove>)
    requires
        pos.wf(),
    ensures
        appends(Seq::empty(), r@, legal_moves(*pos)),
        exists|p: Seq<ChessMove>| #[trigger] piece_order(*pos, Seq::empty(), p) && collects(Seq::empty(), p, pseudo_moves(*pos))
            && r@ == legal_in_order(*pos, p),
{
    generate_legal_moves_fast(pos).to_vec()
}

/// What a check of the legal move generator has to report about `pos`: when the side
/// to move has no legal move although it has pseudo-legal ones (all of which then leave
/// its king attacked), those pseudo-legal moves and whether it is in check; otherwise
/// nothing (there are legal moves, or no move at all).
pub fn legal_move_generation_report(pos: &Position) -> (r: Option<(MoveList, bool)>)
    requires
        pos.wf(),
    ensures
        r is None <==> ((exists|m: ChessMove| #[trigger] legal_moves(*pos)(m)) || (forall|m: ChessMove| !#[trigger] pseudo_moves(*pos)(m))),
        r matches Some((ms, chk)) ==> appends(Seq::empty(), ms@, pseudo_moves(*pos)) && piece_order(*pos, Seq::empty(), ms@)
            && chk == in_check(*pos, pos.side_to_move),
{
    proof {
        lemma_wf_disjoint(*pos);
    }
    let legal = generate_legal_moves(pos);
    if legal.len() > 0 {
        proof {
            assert(legal_moves(*pos)(legal@[0]));
        }
        return None;
    }
    let pseudo = generate_pseudo_moves_fast(pos);
    let in_check = is_in_check(pos, pos.side_to_move);
    if pseudo.len() == 0 {
        proof {
            assert forall|m: ChessMove| !#[trigger] pseudo_moves(*pos)(m) by {
                if pseudo_moves(*pos)(m) {
                    let k = choose|k: int| 0 <= k < pseudo@.len() && pseudo@[k] == m;
                }
            }
        }
        return None;
    }
    proof {
        assert(pseudo_moves(*pos)(pseudo@[0]));
        assert forall|m: ChessMove| !#[trigger] legal_moves(*pos)(m) by {
            if legal_moves(*pos)(m) {
                let k = choose|k: int| 0 <= k < legal@.len() && legal@[k] == m;
            }
        }
    }
    Some((pseudo, in_check))
}

/// A pseudo-legal move of a well-formed position starts from an occupied square and,
/// for en passant, has its victim square on the board: an en-passant capture is a
/// diagonal pawn step that does not cross the board's edge.
pub proof fn lemma_pseudo_playable(pos: Position, m: ChessMove)
    requires
        pos.wf(),
        pseudo_moves(pos)(m),
    ensures
        playable(pos, m),
{
    let ctx = context_of(pos);
    let us = ctx.us;
    let from = m.from@;
    assert(exists|k: PieceKind| pos.bb(piece_of(us, k)).contains(from)) by {
        if pawn_moves(pos, ctx)(m) {
            assert(pos.bb(piece_of(us, PieceKind::Pawn)).contains(from));
        } else if piece_moves(pos, ctx, PieceKind::Knight)(m) {
        } else if piece_moves(pos, ctx, PieceKind::Bishop)(m) {
        } else if piece_moves(pos, ctx, PieceKind::Rook)(m) {
        } else if piece_moves(pos, ctx, PieceKind::Queen)(m) {
        } else {
            let k = pos.bb(piece_of(us, PieceKind::King));
            crate::bits::lemma_bits_subset(pos.pieces@[pidx(piece_of(us, PieceKind::King))].0);
            lemma_lowest_exists(k);
            assert(k.contains(from));
        }
    }
    let k = choose|k: PieceKind| pos.bb(piece_of(us, k)).contains(from);
    crate::bits::lemma_bits_subset(pos.pieces@[pidx(piece_of(us, k))].0);
    assert(pos.board()[from] == piece_of(us, k));
    if m.move_type == MoveType::EnPassant {
        assert(pawn_moves(pos, ctx)(m));
        crate::bits::lemma_bits_subset(pos.pieces@[pidx(piece_of(us, PieceKind::Pawn))].0);
        let to = m.to@;
        assert(0 <= from < 64);
        assert(0 <= ep_victim(to, us) < 64);
    }
}

} // verus!
