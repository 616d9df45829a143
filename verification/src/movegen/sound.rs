//! Sound positions, and the law that making a pseudo-legal move of a sound position
//! gives a sound position.
use vstd::prelude::*;

use crate::attack::lowest;
use crate::castling::CastlingRights;
use crate::mov::{ChessMove, MoveType};
use crate::movegen::api::{context_of, ep_consistent, pseudo_moves};
use crate::movegen::legality::of;
use crate::occupancy::OccupancyKind;
use crate::piece::{piece_of, Color, Piece, PieceKind};
use crate::position::{
    after_capture, after_castle, after_lift, after_move, arriving_piece, capture_square,
    castle_rook_squares, colour_squares, colour_union, double_push, drop_in, ep_victim, is_castle,
    lift, occupied_squares, pidx, rights_after, takes, Position,
};

verus! {

/// The piece sets agree with the board: each set holds exactly the squares where the
/// board names its piece, and only board squares.
pub open spec fn consistent(b: Seq<Piece>, sets: Seq<Set<int>>) -> bool {
    &&& b.len() == 64
    &&& sets.len() == 12
    &&& forall|p: Piece, s: int| p.is_piece() && 0 <= s < 64 ==> (#[trigger] sets[pidx(p)].contains(s) <==> b[s] == p)
    &&& forall|i: int, s: int| 0 <= i < 12 && #[trigger] sets[i].contains(s) ==> 0 <= s < 64
}

/// Taking the piece off an occupied square keeps board and sets in agreement.
pub proof fn lemma_lift_consistent(b: Seq<Piece>, sets: Seq<Set<int>>, x: int)
    requires
        consistent(b, sets),
        0 <= x < 64,
        b[x].is_piece(),
    ensures
        consistent(b.update(x, Piece::NoPiece), lift(sets, b[x], x)),
{
    let p = b[x];
    let s2 = lift(sets, p, x);
    let b2 = b.update(x, Piece::NoPiece);
    assert forall|q: Piece, s: int| q.is_piece() && 0 <= s < 64 implies (#[trigger] s2[pidx(q)].contains(s) <==> b2[s] == q) by {
        assert(sets[pidx(q)].contains(s) <==> b[s] == q);
    }
    assert forall|i: int, s: int| 0 <= i < 12 && #[trigger] s2[i].contains(s) implies 0 <= s < 64 by {
        assert(sets[i].contains(s));
    }
}

/// Putting a piece on an empty square keeps board and sets in agreement.
pub proof fn lemma_drop_consistent(b: Seq<Piece>, sets: Seq<Set<int>>, x: int, p: Piece)
    requires
        consistent(b, sets),
        0 <= x < 64,
        b[x] == Piece::NoPiece,
        p.is_piece(),
    ensures
        consistent(b.update(x, p), drop_in(sets, p, x)),
{
    let s2 = drop_in(sets, p, x);
    let b2 = b.update(x, p);
    assert forall|q: Piece, s: int| q.is_piece() && 0 <= s < 64 implies (#[trigger] s2[pidx(q)].contains(s) <==> b2[s] == q) by {
        assert(sets[pidx(q)].contains(s) <==> b[s] == q);
    }
    assert forall|i: int, s: int| 0 <= i < 12 && #[trigger] s2[i].contains(s) implies 0 <= s < 64 by {
        if !(i == pidx(p) && s == x) {
            assert(sets[i].contains(s));
        }
    }
}

/// A well-formed position's board and piece sets agree.
pub proof fn lemma_wf_consistent(pos: Position)
    requires
        pos.wf(),
    ensures
        consistent(pos.board(), pos.sets()),
{
    pos.pieces.lemma_len();
    assert forall|p: Piece, s: int| p.is_piece() && 0 <= s < 64 implies (#[trigger] pos.sets()[pidx(p)].contains(s) <==> pos.board()[s] == p) by {
        assert(pos.bb(p) == pos.sets()[pidx(p)]);
    }
    assert forall|i: int, s: int| 0 <= i < 12 && #[trigger] pos.sets()[i].contains(s) implies 0 <= s < 64 by {
        crate::bits::lemma_bits_subset(pos.pieces@[i].0);
    }
}

/// Board, sets and occupancy of a position whose occupancy is recomputed from piece sets
/// that agree with its board make a well-formed position.
pub proof fn lemma_consistent_wf(pos: Position)
    requires
        consistent(pos.board(), pos.sets()),
        pos.occ(OccupancyKind::White) == colour_union(pos.sets(), Color::White),
        pos.occ(OccupancyKind::Black) == colour_union(pos.sets(), Color::Black),
        pos.occ(OccupancyKind::Both) == colour_union(pos.sets(), Color::White).union(colour_union(pos.sets(), Color::Black)),
    ensures
        pos.wf(),
{
    pos.pieces.lemma_len();
    let b = pos.board();
    let sets = pos.sets();
    assert forall|p: Piece, s: int| p.is_piece() && 0 <= s < 64 implies (#[trigger] pos.bb(p).contains(s) <==> b[s] == p) by {
        assert(pos.bb(p) == sets[pidx(p)]);
    }
    assert forall|c: Color| #[trigger] colour_union(sets, c) =~= colour_squares(b, c) by {
        assert forall|s: int| colour_union(sets, c).contains(s) implies colour_squares(b, c).contains(s) by {
            let k = if sets[pidx(piece_of(c, PieceKind::Pawn))].contains(s) {
                PieceKind::Pawn
            } else if sets[pidx(piece_of(c, PieceKind::Knight))].contains(s) {
                PieceKind::Knight
            } else if sets[pidx(piece_of(c, PieceKind::Bishop))].contains(s) {
                PieceKind::Bishop
            } else if sets[pidx(piece_of(c, PieceKind::Rook))].contains(s) {
                PieceKind::Rook
            } else if sets[pidx(piece_of(c, PieceKind::Queen))].contains(s) {
                PieceKind::Queen
            } else {
                PieceKind::King
            };
            assert(sets[pidx(piece_of(c, k))].contains(s));
            assert(0 <= s < 64);
            assert(b[s] == piece_of(c, k));
        }
        assert forall|s: int| colour_squares(b, c).contains(s) implies colour_union(sets, c).contains(s) by {
            let p = b[s];
            assert(p == piece_of(c, p.kind_of()));
            assert(sets[pidx(p)].contains(s));
        }
    }
    assert(colour_union(sets, Color::White).union(colour_union(sets, Color::Black)) =~= occupied_squares(b)) by {
        assert forall|s: int| occupied_squares(b).contains(s) implies colour_union(sets, Color::White).union(colour_union(sets, Color::Black)).contains(s) by {
            assert(colour_squares(b, b[s].colour()).contains(s));
            assert(colour_union(sets, b[s].colour()) == colour_squares(b, b[s].colour()));
        }
        assert forall|s: int| colour_union(sets, Color::White).union(colour_union(sets, Color::Black)).contains(s) implies occupied_squares(b).contains(s) by {
            assert(colour_union(sets, Color::White) == colour_squares(b, Color::White));
            assert(colour_union(sets, Color::Black) == colour_squares(b, Color::Black));
        }
    }
}

/// What making `m` for `us` on board `b` relies on: `us` has a piece on the origin,
/// the destination differs from it, a quiet move goes to an empty square, a capture
/// takes a piece of the other side, a promotion goes to an empty square or takes one,
/// an en-passant capture goes to an empty square with its victim's square on the
/// board, and castling finds the king's and rook's destinations empty and, once the
/// king has left, the rook's corner holding that side's rook or nothing.
pub open spec fn loose_fits(b: Seq<Piece>, m: ChessMove, us: Color) -> bool {
    let from = m.from@;
    let to = m.to@;
    &&& b[from].is_piece()
    &&& b[from].colour() == us
    &&& from != to
    &&& match m.move_type {
        MoveType::Quiet => b[to] == Piece::NoPiece,
        MoveType::Capture => b[to].is_piece() && b[to].colour() == us.other(),
        MoveType::EnPassant => b[to] == Piece::NoPiece && 0 <= ep_victim(to, us) < 64,
        MoveType::Promotion(_) => b[to] == Piece::NoPiece || (b[to].is_piece() && b[to].colour() == us.other()),
        _ => {
            let (rf, rt) = castle_rook_squares(m.move_type, us);
            let base = if us == Color::White { 0int } else { 56int };
            let lifted = b.update(from, Piece::NoPiece);
            &&& to == (if m.move_type == MoveType::CastleKingside { base + 6 } else { base + 2 })
            &&& lifted[rf] == piece_of(us, PieceKind::Rook) || lifted[rf] == Piece::NoPiece
            &&& b[rt] == Piece::NoPiece
            &&& b[to] == Piece::NoPiece
        },
    }
}

/// `loose_fits`, where castling starts from the king's home square and finds the
/// rook on its corner.
pub open spec fn move_fits(b: Seq<Piece>, m: ChessMove, us: Color) -> bool {
    &&& loose_fits(b, m, us)
    &&& is_castle(m.move_type) ==> {
        let (rf, rt) = castle_rook_squares(m.move_type, us);
        let base = if us == Color::White { 0int } else { 56int };
        &&& m.from@ == base + 4
        &&& b[rf] == piece_of(us, PieceKind::Rook)
    }
}

/// Making a fitting move keeps board and piece sets in agreement.
pub proof fn lemma_after_move_consistent(b: Seq<Piece>, sets: Seq<Set<int>>, m: ChessMove, us: Color)
    requires
        consistent(b, sets),
        loose_fits(b, m, us),
    ensures
        consistent(after_move(b, sets, m, us).0, after_move(b, sets, m, us).1),
{
    let from = m.from@;
    let to = m.to@;
    let (b1, s1) = after_lift(b, sets, m);
    lemma_lift_consistent(b, sets, from);
    let cs = capture_square(m, us);
    let (b2, s2) = after_capture(b, sets, m, us);
    if takes(b, m, us) && b1[cs].is_piece() {
        lemma_lift_consistent(b1, s1, cs);
    }
    assert(consistent(b2, s2));
    assert(!is_castle(m.move_type) ==> b2[to] == Piece::NoPiece);
    let (b3, s3) = after_castle(b, sets, m, us);
    if is_castle(m.move_type) {
        let (rf, rt) = castle_rook_squares(m.move_type, us);
        let rook = piece_of(us, PieceKind::Rook);
        assert(b2 == b1);
        if b2[rf] == rook {
            lemma_lift_consistent(b2, s2, rf);
        } else {
            assert(b2[rf] == Piece::NoPiece);
            assert(lift(s2, rook, rf) =~= s2) by {
                assert(s2[pidx(rook)].remove(rf) =~= s2[pidx(rook)]);
            }
            assert(b2.update(rf, Piece::NoPiece) =~= b2);
        }
        lemma_drop_consistent(b2.update(rf, Piece::NoPiece), lift(s2, rook, rf), rt, rook);
    }
    assert(consistent(b3, s3));
    assert(b3[to] == Piece::NoPiece);
    lemma_drop_consistent(b3, s3, to, arriving_piece(b, m, us));
}

/// Each castling right still held has the king alone on its home square and the rook
/// on its corner.
pub open spec fn rights_consistent(pos: Position) -> bool {
    let r = pos.castling_rights;
    let b = pos.board();
    &&& r.white_kingside ==> of(pos.sets(), Color::White, PieceKind::King) == set![4int] && b[7] == Piece::WhiteRook
    &&& r.white_queenside ==> of(pos.sets(), Color::White, PieceKind::King) == set![4int] && b[0] == Piece::WhiteRook
    &&& r.black_kingside ==> of(pos.sets(), Color::Black, PieceKind::King) == set![60int] && b[63] == Piece::BlackRook
    &&& r.black_queenside ==> of(pos.sets(), Color::Black, PieceKind::King) == set![60int] && b[56] == Piece::BlackRook
}

/// For each castling right still held, the corner of its rook holds that side's rook
/// or nothing.
pub open spec fn corners_clear(pos: Position) -> bool {
    forall|c: Color, kingside: bool| #[trigger] pos.castling_rights.has(c, kingside) ==> {
        let x = pos.board()[corner_square(c, kingside)];
        x == piece_of(c, PieceKind::Rook) || x == Piece::NoPiece
    }
}

/// A position whose move tree can be walked: well formed, with an en-passant square,
/// if any, empty, and castling corners clear (see `corners_clear`). Making a
/// pseudo-legal move keeps these. Outside them, making some pseudo-legal move leaves
/// board and piece sets disagreeing: an en-passant capture onto an occupied square
/// keeps the piece there in its set, and castling with another piece on the rook's
/// corner empties that square on the board but not in the piece's set.
pub open spec fn walkable(pos: Position) -> bool {
    &&& pos.wf()
    &&& pos.ep_square is Some ==> pos.board()[pos.ep_square->0@] == Piece::NoPiece
    &&& corners_clear(pos)
}

/// A sound position is walkable.
pub proof fn lemma_sound_walkable(pos: Position)
    requires
        sound(pos),
    ensures
        walkable(pos),
{
    assert forall|c: Color, kingside: bool| #[trigger] pos.castling_rights.has(c, kingside) implies ({
        let x = pos.board()[corner_square(c, kingside)];
        x == piece_of(c, PieceKind::Rook) || x == Piece::NoPiece
    }) by {}
}

/// A sound position: well formed, with an empty en-passant square on the rank a pawn of
/// the side not to move has just crossed, and castling rights that agree with the
/// kings and rooks.
pub open spec fn sound(pos: Position) -> bool {
    &&& pos.wf()
    &&& pos.ep_square is Some ==> {
        let e = pos.ep_square->0@;
        &&& crate::square::rank_of(e) == (if pos.side_to_move == Color::White { 5int } else { 2int })
        &&& pos.board()[e] == Piece::NoPiece
    }
    &&& rights_consistent(pos)
}

/// The king of `c` stands alone on the square `home`.
fn king_alone_on(pos: &Position, c: Color, home: u64) -> (r: bool)
    requires
        home < 64,
    ensures
        r == (of(pos.sets(), c, PieceKind::King) == set![home as int]),
{
    proof {
        pos.pieces.lemma_len();
    }
    let k = pos.pieces.get(Piece::from_parts(c, Some(PieceKind::King)));
    proof {
        crate::bits::lemma_bits_single(home);
        if k@ == set![home as int] {
            crate::bits::lemma_bits_injective(k.0, 1u64 << home);
        }
    }
    k.0 == 1u64 << home
}

impl Position {
    /// Whether the position is sound (see `sound`): well formed, any en-passant square
    /// empty and on the rank just crossed by a pawn of the side not to move, and each
    /// castling right backed by the king on its home square and the rook on its corner.
    pub fn is_sound(&self) -> (r: bool)
        ensures
            r == sound(*self),
    {
        if !self.is_consistent() {
            return false;
        }
        if let Some(e) = self.ep_square {
            let want: u8 = match self.side_to_move {
                Color::White => 5,
                Color::Black => 2,
            };
            if e.rank() != want || self.piece_on[e.index()] != Piece::NoPiece {
                return false;
            }
        }
        let r = self.castling_rights;
        if r.white_kingside && !(king_alone_on(self, Color::White, 4) && self.piece_on[7] == Piece::WhiteRook) {
            return false;
        }
        if r.white_queenside && !(king_alone_on(self, Color::White, 4) && self.piece_on[0] == Piece::WhiteRook) {
            return false;
        }
        if r.black_kingside && !(king_alone_on(self, Color::Black, 60) && self.piece_on[63] == Piece::BlackRook) {
            return false;
        }
        if r.black_queenside && !(king_alone_on(self, Color::Black, 60) && self.piece_on[56] == Piece::BlackRook) {
            return false;
        }
        true
    }

    /// Whether the position is walkable (see `walkable`): well formed, any en-passant
    /// square empty, and each castling right's corner holding that side's rook or nothing.
    pub fn is_walkable(&self) -> (r: bool)
        ensures
            r == walkable(*self),
    {
        if !self.is_well_formed() {
            return false;
        }
        if let Some(e) = self.ep_square {
            if self.piece_on[e.index()] != Piece::NoPiece {
                return false;
            }
        }
        let r = self.castling_rights;
        let clear = |p: Piece, rook: Piece| -> (b: bool)
            ensures
                b == (p == rook || p == Piece::NoPiece),
            { p == rook || p == Piece::NoPiece };
        if r.white_kingside && !clear(self.piece_on[7], Piece::WhiteRook) {
            proof {
                assert(self.castling_rights.has(Color::White, true));
            }
            return false;
        }
        if r.white_queenside && !clear(self.piece_on[0], Piece::WhiteRook) {
            proof {
                assert(self.castling_rights.has(Color::White, false));
            }
            return false;
        }
        if r.black_kingside && !clear(self.piece_on[63], Piece::BlackRook) {
            proof {
                assert(self.castling_rights.has(Color::Black, true));
            }
            return false;
        }
        if r.black_queenside && !clear(self.piece_on[56], Piece::BlackRook) {
            proof {
                assert(self.castling_rights.has(Color::Black, false));
            }
            return false;
        }
        proof {
            assert forall|c: Color, kingside: bool| #[trigger] self.castling_rights.has(c, kingside) implies ({
                let x = self.board()[corner_square(c, kingside)];
                x == piece_of(c, PieceKind::Rook) || x == Piece::NoPiece
            }) by {}
        }
        true
    }
}

/// A sound position has its en-passant victims on the board.
pub proof fn lemma_sound_ep(pos: Position)
    requires
        sound(pos),
    ensures
        ep_consistent(pos),
{
}

/// The index step of a pawn push by `us`.
pub open spec fn push_dir(us: Color) -> int {
    if us == Color::White {
        8
    } else {
        -8
    }
}

/// A pseudo-legal move of a sound position fits its board (see `move_fits`), and a
/// double pawn push crosses an empty square.
pub proof fn lemma_pseudo_fits(pos: Position, m: ChessMove)
    requires
        sound(pos),
        pseudo_moves(pos)(m),
    ensures
        move_fits(pos.board(), m, pos.side_to_move),
        double_push(pos.board()[m.from@], m.from@, m.to@, pos.side_to_move) ==> pos.board()[m.from@ + push_dir(pos.side_to_move)] == Piece::NoPiece,
        m.move_type is Promotion ==> crate::movegen::is_promotion_choice(m.move_type),
        m.move_type == MoveType::EnPassant ==> pos.board()[m.from@] == piece_of(pos.side_to_move, PieceKind::Pawn),
        m.move_type == MoveType::EnPassant ==> (m.to@ - m.from@ == crate::movegen::pawn::left_step(pos.side_to_move)
            || m.to@ - m.from@ == crate::movegen::pawn::right_step(pos.side_to_move)),
        m.move_type == MoveType::Quiet && pos.board()[m.from@] == piece_of(pos.side_to_move, PieceKind::Pawn) ==> (m.to@
            - m.from@ == crate::movegen::pawn::push_step(pos.side_to_move) || m.to@ - m.from@ == 2
            * crate::movegen::pawn::push_step(pos.side_to_move)),
        m.move_type == MoveType::Quiet && pos.board()[m.from@] == piece_of(pos.side_to_move, PieceKind::King)
            ==> crate::geometry::king_targets(m.from@).contains(m.to@),
        (m.move_type == MoveType::CastleKingside || m.move_type == MoveType::CastleQueenside) ==> pos.board()[m.from@]
            == piece_of(pos.side_to_move, PieceKind::King),
{
    lemma_sound_walkable(pos);
    lemma_pseudo_fits_walkable(pos, m);
}

/// A pseudo-legal move of a walkable position fits its board (see `loose_fits`), and,
/// in a sound position, castling starts from home with the rook on its corner; a double
/// pawn push crosses an empty square.
pub proof fn lemma_pseudo_fits_walkable(pos: Position, m: ChessMove)
    requires
        walkable(pos),
        pseudo_moves(pos)(m),
    ensures
        loose_fits(pos.board(), m, pos.side_to_move),
        sound(pos) ==> move_fits(pos.board(), m, pos.side_to_move),
        double_push(pos.board()[m.from@], m.from@, m.to@, pos.side_to_move) ==> pos.board()[m.from@ + push_dir(pos.side_to_move)] == Piece::NoPiece,
        m.move_type is Promotion ==> crate::movegen::is_promotion_choice(m.move_type),
        m.move_type == MoveType::EnPassant ==> pos.board()[m.from@] == piece_of(pos.side_to_move, PieceKind::Pawn),
        m.move_type == MoveType::EnPassant ==> (m.to@ - m.from@ == crate::movegen::pawn::left_step(pos.side_to_move)
            || m.to@ - m.from@ == crate::movegen::pawn::right_step(pos.side_to_move)),
        m.move_type == MoveType::Quiet && pos.board()[m.from@] == piece_of(pos.side_to_move, PieceKind::Pawn) ==> (m.to@
            - m.from@ == crate::movegen::pawn::push_step(pos.side_to_move) || m.to@ - m.from@ == 2
            * crate::movegen::pawn::push_step(pos.side_to_move)),
        m.move_type == MoveType::Quiet && pos.board()[m.from@] == piece_of(pos.side_to_move, PieceKind::King)
            ==> crate::geometry::king_targets(m.from@).contains(m.to@),
        (m.move_type == MoveType::CastleKingside || m.move_type == MoveType::CastleQueenside) ==> pos.board()[m.from@]
            == piece_of(pos.side_to_move, PieceKind::King),
{
    let ctx = context_of(pos);
    let us = ctx.us;
    let b = pos.board();
    pos.occupancy.lemma_len();
    pos.pieces.lemma_len();
    let from = m.from@;
    let to = m.to@;
    assert(ctx.occupancy@ == occupied_squares(b));
    assert(ctx.not_ours@ == crate::bits::all_squares().difference(colour_squares(b, us))) by {
        crate::bits::lemma_bits_not(pos.occupancy@[us as u8 as int].0);
        assert(pos.occ(if us == Color::White { OccupancyKind::White } else { OccupancyKind::Black }) == colour_squares(b, us));
    }
    assert(pos.occ(crate::movegen::their_kind(us)) == colour_squares(b, us.other()));
    if crate::movegen::pawn::pawn_moves(pos, ctx)(m) {
        assert(b[from] == piece_of(us, PieceKind::Pawn));
        if m.move_type == MoveType::EnPassant {
            assert(pos.ep_square is Some);
        }
    } else if crate::movegen::piece_moves(pos, ctx, PieceKind::Knight)(m) {
        assert(b[from] == piece_of(us, PieceKind::Knight));
    } else if crate::movegen::piece_moves(pos, ctx, PieceKind::Bishop)(m) {
        assert(b[from] == piece_of(us, PieceKind::Bishop));
    } else if crate::movegen::piece_moves(pos, ctx, PieceKind::Rook)(m) {
        assert(b[from] == piece_of(us, PieceKind::Rook));
    } else if crate::movegen::piece_moves(pos, ctx, PieceKind::Queen)(m) {
        assert(b[from] == piece_of(us, PieceKind::Queen));
    } else {
        assert(crate::movegen::king::king_moves(pos, ctx)(m));
        let k = pos.bb(piece_of(us, PieceKind::King));
        crate::bits::lemma_bits_subset(pos.pieces@[pidx(piece_of(us, PieceKind::King))].0);
        crate::movegen::api::lemma_lowest_exists(k);
        assert(b[from] == piece_of(us, PieceKind::King));
        if m.move_type == MoveType::CastleKingside || m.move_type == MoveType::CastleQueenside {
            let kingside = m.move_type == MoveType::CastleKingside;
            assert(pos.castling_rights.has(us, kingside));
            let x = pos.board()[corner_square(us, kingside)];
            assert(x == piece_of(us, PieceKind::Rook) || x == Piece::NoPiece);
            if sound(pos) {
                let home = if us == Color::White { 4int } else { 60int };
                assert(k == of(pos.sets(), us, PieceKind::King));
                assert(k == set![home]);
                crate::attack::lemma_lowest(k, home);
            }
        }
    }
}

/// `after` is what `Position::apply_move_into` writes for `m` made in `pos`.
pub open spec fn applied(pos: Position, m: ChessMove, after: Position) -> bool {
    let us = pos.side_to_move;
    let (b, s) = after_move(pos.board(), pos.sets(), m, us);
    &&& after.board() == b
    &&& after.sets() == s
    &&& after.occ(OccupancyKind::White) == colour_union(after.sets(), Color::White)
    &&& after.occ(OccupancyKind::Black) == colour_union(after.sets(), Color::Black)
    &&& after.occ(OccupancyKind::Both) == colour_union(after.sets(), Color::White).union(colour_union(after.sets(), Color::Black))
    &&& after.side_to_move == us.other()
    &&& after.castling_rights == rights_after(rights_after(pos.castling_rights, m.from@), m.to@)
    &&& (after.ep_square is Some) == double_push(pos.board()[m.from@], m.from@, m.to@, us)
    &&& after.ep_square is Some ==> after.ep_square->0@ == m.from@ + push_dir(us)
    &&& after.halfmove_clock == (if takes(pos.board(), m, us) || pos.board()[m.from@].kind_of() == PieceKind::Pawn {
        0
    } else if pos.halfmove_clock < 255 {
        pos.halfmove_clock + 1
    } else {
        255
    })
    &&& after.fullmove_number == (if us == Color::Black && pos.fullmove_number < 65535 {
        pos.fullmove_number + 1
    } else {
        pos.fullmove_number as int
    })
}

/// The board after `m`, square by square.
pub proof fn lemma_after_board(b: Seq<Piece>, sets: Seq<Set<int>>, m: ChessMove, us: Color, x: int)
    requires
        b.len() == 64,
        0 <= x < 64,
        loose_fits(b, m, us),
    ensures
        after_move(b, sets, m, us).0[x] == ({
            let (rf, rt) = castle_rook_squares(m.move_type, us);
            let cs = capture_square(m, us);
            if x == m.to@ {
                arriving_piece(b, m, us)
            } else if is_castle(m.move_type) && x == rt {
                piece_of(us, PieceKind::Rook)
            } else if is_castle(m.move_type) && x == rf {
                Piece::NoPiece
            } else if x == m.from@ {
                Piece::NoPiece
            } else if takes(b, m, us) && x == cs {
                Piece::NoPiece
            } else {
                b[x]
            }
        }),
{
}

/// The home square of the king of `c` and the corner of its rook on the given side.
pub open spec fn home_square(c: Color) -> int {
    if c == Color::White {
        4
    } else {
        60
    }
}

pub open spec fn corner_square(c: Color, kingside: bool) -> int {
    (if c == Color::White { 0int } else { 56int }) + (if kingside { 7int } else { 0int })
}

/// A castling right that survives a pseudo-legal move of a sound position still has
/// the king alone at home and the rook on its corner.
proof fn lemma_right_survives(pos: Position, m: ChessMove, after: Position, c: Color, kingside: bool)
    requires
        sound(pos),
        pseudo_moves(pos)(m),
        applied(pos, m, after),
        after.castling_rights.has(c, kingside),
    ensures
        of(after.sets(), c, PieceKind::King) == set![home_square(c)],
        after.board()[corner_square(c, kingside)] == piece_of(c, PieceKind::Rook),
{
    let us = pos.side_to_move;
    let b = pos.board();
    let home = home_square(c);
    let corner = corner_square(c, kingside);
    let king = piece_of(c, PieceKind::King);
    lemma_pseudo_fits(pos, m);
    lemma_wf_consistent(pos);
    lemma_after_move_consistent(b, pos.sets(), m, us);
    assert(pos.castling_rights.has(c, kingside));
    assert(m.from@ != home && m.to@ != home && m.from@ != corner && m.to@ != corner);
    assert(of(pos.sets(), c, PieceKind::King) == set![home]);
    assert(b[home] == king) by {
        assert(pos.sets()[pidx(king)].contains(home));
    }
    assert(b[corner] == piece_of(c, PieceKind::Rook));
    lemma_after_board(b, pos.sets(), m, us, home);
    lemma_after_board(b, pos.sets(), m, us, corner);
    if m.move_type == MoveType::EnPassant {
        assert(pos.ep_square is Some);
    }
    assert(after.board()[home] == king);
    assert(after.board()[corner] == piece_of(c, PieceKind::Rook));
    assert forall|s: int| #[trigger] of(after.sets(), c, PieceKind::King).contains(s) <==> s == home by {
        if of(after.sets(), c, PieceKind::King).contains(s) {
            assert(0 <= s < 64);
            assert(after.board()[s] == king);
            lemma_after_board(b, pos.sets(), m, us, s);
            if s != home {
                assert(b[s] != king) by {
                    if b[s] == king {
                        assert(pos.sets()[pidx(king)].contains(s));
                    }
                }
                assert(b[m.from@] != king) by {
                    if b[m.from@] == king {
                        assert(pos.sets()[pidx(king)].contains(m.from@));
                    }
                }
                assert(arriving_piece(b, m, us) != king);
            }
        } else if s == home {
            assert(after.sets()[pidx(king)].contains(home));
        }
    }
    assert(of(after.sets(), c, PieceKind::King) =~= set![home]);
}

/// Making a pseudo-legal move of a sound position gives a sound position.
pub proof fn lemma_move_keeps_sound(pos: Position, m: ChessMove, after: Position)
    requires
        sound(pos),
        pseudo_moves(pos)(m),
        applied(pos, m, after),
    ensures
        sound(after),
{
    let us = pos.side_to_move;
    let b = pos.board();
    lemma_pseudo_fits(pos, m);
    lemma_wf_consistent(pos);
    lemma_after_move_consistent(b, pos.sets(), m, us);
    lemma_consistent_wf(after);
    if after.ep_square is Some {
        let e = after.ep_square->0@;
        lemma_after_board(b, pos.sets(), m, us, e);
        assert(after.board()[e] == Piece::NoPiece);
    }
    let r = after.castling_rights;
    if r.white_kingside {
        lemma_right_survives(pos, m, after, Color::White, true);
    }
    if r.white_queenside {
        lemma_right_survives(pos, m, after, Color::White, false);
    }
    if r.black_kingside {
        lemma_right_survives(pos, m, after, Color::Black, true);
    }
    if r.black_queenside {
        lemma_right_survives(pos, m, after, Color::Black, false);
    }
}

/// Making a pseudo-legal move of a walkable position gives a walkable position.
pub proof fn lemma_move_keeps_walkable(pos: Position, m: ChessMove, after: Position)
    requires
        walkable(pos),
        pseudo_moves(pos)(m),
        applied(pos, m, after),
    ensures
        walkable(after),
{
    let us = pos.side_to_move;
    let b = pos.board();
    lemma_pseudo_fits_walkable(pos, m);
    lemma_wf_consistent(pos);
    lemma_after_move_consistent(b, pos.sets(), m, us);
    lemma_consistent_wf(after);
    if after.ep_square is Some {
        let e = after.ep_square->0@;
        lemma_after_board(b, pos.sets(), m, us, e);
        assert(after.board()[e] == Piece::NoPiece);
        assert(ep_victim(e, after.side_to_move) == m.to@);
    }
    assert forall|c: Color, kingside: bool| #[trigger] after.castling_rights.has(c, kingside) implies ({
        let x = after.board()[corner_square(c, kingside)];
        x == piece_of(c, PieceKind::Rook) || x == Piece::NoPiece
    }) by {
        let corner = corner_square(c, kingside);
        assert(pos.castling_rights.has(c, kingside));
        assert(m.from@ != corner && m.to@ != corner);
        lemma_after_board(b, pos.sets(), m, us, corner);
    }
}

/// `apply_move_into` determines its result: two positions that both are what it writes
/// for `m` made in `pos` are equal.
pub proof fn lemma_applied_unique(pos: Position, m: ChessMove, a1: Position, a2: Position)
    requires
        applied(pos, m, a1),
        applied(pos, m, a2),
    ensures
        a1 == a2,
{
    a1.pieces.lemma_len();
    a2.pieces.lemma_len();
    a1.occupancy.lemma_len();
    a2.occupancy.lemma_len();
    assert(a1.piece_on@ == a2.piece_on@);
    vstd::array::axiom_array_ext_equal(a1.piece_on, a2.piece_on);
    assert(a1.piece_on =~= a2.piece_on);
    assert forall|i: int| 0 <= i < 12 implies a1.pieces@[i] == a2.pieces@[i] by {
        assert(a1.sets()[i] == a2.sets()[i]);
        crate::bits::lemma_bits_injective(a1.pieces@[i].0, a2.pieces@[i].0);
    }
    assert(a1.pieces@ =~= a2.pieces@);
    crate::piecebitboards::PieceBitboards::lemma_view_injective(a1.pieces, a2.pieces);
    assert forall|i: int| 0 <= i < 3 implies a1.occupancy@[i] == a2.occupancy@[i] by {
        let k = if i == 0 { OccupancyKind::White } else if i == 1 { OccupancyKind::Black } else { OccupancyKind::Both };
        assert(a1.occ(k) == a2.occ(k));
        crate::bits::lemma_bits_injective(a1.occupancy@[i].0, a2.occupancy@[i].0);
    }
    assert(a1.occupancy@ =~= a2.occupancy@);
    crate::occupancy::OccupancyMap::lemma_view_injective(a1.occupancy, a2.occupancy);
    if a1.ep_square is Some {
        crate::square::lemma_square_injective(a1.ep_square->0, a2.ep_square->0);
    }
}

/// The starting position is sound.
pub proof fn lemma_start_sound(pos: Position)
    requires
        pos.wf(),
        pos.board() == Seq::new(64, |s: int| crate::fen::start_piece(s)),
        pos.castling_rights == (CastlingRights {
            white_kingside: true,
            white_queenside: true,
            black_kingside: true,
            black_queenside: true,
        }),
        pos.ep_square is None,
    ensures
        sound(pos),
{
    pos.pieces.lemma_len();
    assert forall|c: Color| #[trigger] of(pos.sets(), c, PieceKind::King) =~= set![home_square(c)] by {
        let king = piece_of(c, PieceKind::King);
        assert(pos.bb(king) == of(pos.sets(), c, PieceKind::King));
        assert forall|s: int| of(pos.sets(), c, PieceKind::King).contains(s) <==> s == home_square(c) by {
            crate::bits::lemma_bits_subset(pos.pieces@[pidx(king)].0);
            if of(pos.sets(), c, PieceKind::King).contains(s) {
                assert(0 <= s < 64);
                assert(pos.board()[s] == king);
            }
            if s == home_square(c) {
                assert(pos.board()[s] == king);
            }
        }
    }
    assert(of(pos.sets(), Color::White, PieceKind::King) == set![4int]);
    assert(of(pos.sets(), Color::Black, PieceKind::King) == set![60int]);
}


/// A pseudo-legal move of a sound position is fixed by its squares and its promotion:
/// two with the same origin, destination and promotion piece are the same move.
pub proof fn lemma_pseudo_unique(pos: Position, m1: ChessMove, m2: ChessMove)
    requires
        sound(pos),
        pseudo_moves(pos)(m1),
        pseudo_moves(pos)(m2),
        m1.from == m2.from,
        m1.to == m2.to,
        m1.promotion_of() == m2.promotion_of(),
    ensures
        m1 == m2,
{
    lemma_pseudo_fits(pos, m1);
    lemma_pseudo_fits(pos, m2);
    let us = pos.side_to_move;
    let b = pos.board();
    let (from, to) = (m1.from@, m1.to@);
    let t1 = m1.move_type;
    let t2 = m2.move_type;
    if t1 != t2 {
        if m1.promotion_of() is Some {
            assert(t1 == MoveType::Promotion(m1.promotion_of()->0));
            assert(t2 == MoveType::Promotion(m2.promotion_of()->0));
        }
        assert(!(t1 is Promotion) && !(t2 is Promotion));
        let base = if us == Color::White { 0int } else { 56int };
        if t1 == MoveType::Quiet && t2 == MoveType::CastleKingside || t2 == MoveType::Quiet && t1
            == MoveType::CastleKingside {
            assert(crate::geometry::king_targets(from).contains(to));
            assert(from == base + 4 && to == base + 6);
        }
        if t1 == MoveType::Quiet && t2 == MoveType::CastleQueenside || t2 == MoveType::Quiet && t1
            == MoveType::CastleQueenside {
            assert(crate::geometry::king_targets(from).contains(to));
            assert(from == base + 4 && to == base + 2);
        }
    }
    assert(m1.move_type == m2.move_type);
}

} // verus!
